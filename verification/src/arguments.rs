//! The command line: `-pg <file>` with one of `-input`, `-random`,
//! `-priority`, `-successor` and `-selfloop` to solve one game, or
//! `-ex <directory>` to try every strategy on every game of a directory.

use vstd::prelude::*;
use vstd::string::*;
use crate::text::chars_of;

verus! {

broadcast use vstd::string::group_string_axioms;

/// The order in which the engine is to visit the vertices.
#[derive(Debug, Clone, Copy, PartialEq, Eq, Structural)]
pub enum StrategySort {
    Random,
    Input,
    Priority,
    Successor,
    SelfLoop,
}

/// What the command line asks for: the game to solve and the strategy to
/// solve it with, or, where `testing` holds, the directory of games to try
/// every strategy on.
#[derive(Debug)]
pub struct Arguments {
    pub pg_file: String,
    pub strategy: Option<StrategySort>,
    pub testing: bool,
}

/// What an `Arguments` holds.
pub struct Request {
    pub pg_file: Seq<char>,
    pub strategy: Option<StrategySort>,
    pub testing: bool,
}

impl View for Arguments {
    type V = Request;

    open spec fn view(&self) -> Request {
        Request { pg_file: self.pg_file@, strategy: self.strategy, testing: self.testing }
    }
}

/// What one argument asks for.
#[derive(Debug, Clone, Copy, PartialEq, Eq, Structural)]
pub enum Flag {
    /// `-pg`: the next argument is the file of the game.
    File,
    /// `-ex`: the next argument is the directory of the games.
    Directory,
    /// One of the five strategies.
    Strategy(StrategySort),
}

/// `c` is the letter `f`, in upper or in lower case, or the very character.
pub open spec fn same_letter(c: char, f: char) -> bool {
    c == f || ('A' <= c <= 'Z' && c as u32 + 32 == f as u32)
}

/// `arg` is `flag`, in whatever case its letters stand.
pub open spec fn folds(arg: Seq<char>, flag: Seq<char>) -> bool {
    &&& arg.len() == flag.len()
    &&& forall|k: int| 0 <= k < arg.len() ==> same_letter(#[trigger] arg[k], flag[k])
}

/// What `arg` asks for, where it is a flag.
pub open spec fn flag_of(arg: Seq<char>) -> Option<Flag> {
    if folds(arg, "-pg"@) {
        Some(Flag::File)
    } else if folds(arg, "-ex"@) {
        Some(Flag::Directory)
    } else if folds(arg, "-input"@) {
        Some(Flag::Strategy(StrategySort::Input))
    } else if folds(arg, "-random"@) {
        Some(Flag::Strategy(StrategySort::Random))
    } else if folds(arg, "-priority"@) {
        Some(Flag::Strategy(StrategySort::Priority))
    } else if folds(arg, "-successor"@) {
        Some(Flag::Strategy(StrategySort::Successor))
    } else if folds(arg, "-selfloop"@) {
        Some(Flag::Strategy(StrategySort::SelfLoop))
    } else {
        None
    }
}

/// What the arguments read so far have asked for: the positions of the file
/// and of the directory among the arguments, and the strategy.
pub struct Asked {
    pub file: Option<int>,
    pub directory: Option<int>,
    pub strategy: Option<StrategySort>,
}

/// What the arguments from position `i` on add to `asked`, or nothing where
/// one of them is no flag, a flag lacks the argument that it takes, or a
/// second strategy is named.
pub open spec fn scan(args: Seq<Seq<char>>, i: int, asked: Asked) -> Option<Asked>
    decreases args.len() - i,
{
    if i < 0 || i >= args.len() {
        Some(asked)
    } else {
        match flag_of(args[i]) {
            None => None,
            Some(Flag::File) => if i + 1 < args.len() {
                scan(args, i + 2, Asked { file: Some(i + 1), ..asked })
            } else {
                None
            },
            Some(Flag::Directory) => if i + 1 < args.len() {
                scan(args, i + 2, Asked { directory: Some(i + 1), ..asked })
            } else {
                None
            },
            Some(Flag::Strategy(s)) => if asked.strategy is Some {
                None
            } else {
                scan(args, i + 1, Asked { strategy: Some(s), ..asked })
            },
        }
    }
}

/// What the command line `args`, of which the first is the name of the
/// program, asks for; nothing where it is no proper command line: a file
/// needs a strategy and a strategy a file, and a directory stands alone.
pub open spec fn arguments_of(args: Seq<Seq<char>>) -> Option<Request> {
    if args.len() < 3 {
        None
    } else {
        match scan(args, 1, Asked { file: None, directory: None, strategy: None }) {
            None => None,
            Some(asked) => match (asked.file, asked.directory, asked.strategy) {
                (Some(f), None, Some(s)) => Some(
                    Request { pg_file: args[f], strategy: Some(s), testing: false },
                ),
                (None, Some(d), None) => Some(
                    Request { pg_file: args[d], strategy: None, testing: true },
                ),
                _ => None,
            },
        }
    }
}

/// The texts of `args`.
pub open spec fn texts(args: Seq<String>) -> Seq<Seq<char>> {
    args.map_values(|s: String| s@)
}

/// Whether `arg` is `flag`, in whatever case its letters stand.
fn folds_to(arg: &Vec<char>, flag: &str) -> (r: bool)
    ensures
        r == folds(arg@, flag@),
{
    let want: Vec<char> = chars_of(flag);
    if arg.len() != want.len() {
        return false;
    }
    let mut k: usize = 0;
    while k < arg.len()
        invariant
            k <= arg@.len(),
            arg@.len() == want@.len(),
            want@ == flag@,
            forall|j: int| 0 <= j < k ==> same_letter(#[trigger] arg@[j], want@[j]),
        decreases arg@.len() - k,
    {
        let c: char = arg[k];
        let f: char = want[k];
        let same: bool = c == f || ('A' <= c && c <= 'Z' && c as u32 + 32 == f as u32);
        if !same {
            return false;
        }
        k = k + 1;
    }
    true
}

/// What `arg` asks for, where it is a flag.
pub fn flag(arg: &str) -> (r: Option<Flag>)
    ensures
        r == flag_of(arg@),
{
    let chars: Vec<char> = chars_of(arg);
    if folds_to(&chars, "-pg") {
        Some(Flag::File)
    } else if folds_to(&chars, "-ex") {
        Some(Flag::Directory)
    } else if folds_to(&chars, "-input") {
        Some(Flag::Strategy(StrategySort::Input))
    } else if folds_to(&chars, "-random") {
        Some(Flag::Strategy(StrategySort::Random))
    } else if folds_to(&chars, "-priority") {
        Some(Flag::Strategy(StrategySort::Priority))
    } else if folds_to(&chars, "-successor") {
        Some(Flag::Strategy(StrategySort::Successor))
    } else if folds_to(&chars, "-selfloop") {
        Some(Flag::Strategy(StrategySort::SelfLoop))
    } else {
        None
    }
}

impl Arguments {
    /// Reads the command line `args`, of which the first is the name of the
    /// program. Gives nothing where the usage has to be shown.
    pub fn parse(args: &Vec<String>) -> (r: Option<Arguments>)
        ensures
            match (r, arguments_of(texts(args@))) {
                (Some(a), Some(b)) => a@ == b,
                (None, None) => true,
                _ => false,
            },
    {
        let ghost all = texts(args@);
        if args.len() < 3 {
            return None;
        }
        let mut file: Option<usize> = None;
        let mut directory: Option<usize> = None;
        let mut strategy: Option<StrategySort> = None;
        let mut i: usize = 1;
        while i < args.len()
            invariant
                1 <= i <= args@.len(),
                all == texts(args@),
                file matches Some(f) ==> f < args@.len(),
                directory matches Some(d) ==> d < args@.len(),
                scan(all, 1, Asked { file: None, directory: None, strategy: None }) == scan(
                    all,
                    i as int,
                    Asked {
                        file: match file {
                            Some(f) => Some(f as int),
                            None => None,
                        },
                        directory: match directory {
                            Some(d) => Some(d as int),
                            None => None,
                        },
                        strategy,
                    },
                ),
            decreases args@.len() - i,
        {
            assert(all[i as int] == args@[i as int]@);
            match flag(args[i].as_str()) {
                None => {
                    return None;
                },
                Some(Flag::File) => {
                    if i + 1 >= args.len() {
                        return None;
                    }
                    file = Some(i + 1);
                    i = i + 2;
                },
                Some(Flag::Directory) => {
                    if i + 1 >= args.len() {
                        return None;
                    }
                    directory = Some(i + 1);
                    i = i + 2;
                },
                Some(Flag::Strategy(s)) => {
                    if strategy.is_some() {
                        return None;
                    }
                    strategy = Some(s);
                    i = i + 1;
                },
            }
        }
        match (file, directory, strategy) {
            (Some(f), None, Some(s)) => {
                assert(all[f as int] == args@[f as int]@);
                Some(Arguments { pg_file: args[f].clone(), strategy: Some(s), testing: false })
            },
            (None, Some(d), None) => {
                assert(all[d as int] == args@[d as int]@);
                Some(Arguments { pg_file: args[d].clone(), strategy: None, testing: true })
            },
            _ => None,
        }
    }
}

/// The line that tells how to call `program`.
pub fn usage(program: &str) -> (r: String)
    ensures
        r@ == "usage: "@ + program@
            + " -pg <file path> [-input]/[-random]/[-priority]/[-selfloop]/[-successor] | -ex <directory>"@,
{
    let mut r: String = String::from_str("usage: ");
    r.append(program);
    r.append(" -pg <file path> [-input]/[-random]/[-priority]/[-selfloop]/[-successor] | -ex <directory>");
    r
}

} // verus!
