//! The reader of the textual game format: an optional header `parity <n>;`
//! and after it one vertex for each line that ends in `;`, written as
//! `<identifier> <priority> <owner> <successor>,<successor>.. "<name>"`.

use std::collections::HashSet;
use vstd::prelude::*;
use vstd::string::*;
use crate::pg::{
    countable, flawed, gathered, node_views, owner_of, sound, Game, GameError, Node, Owner,
    Vertex,
};
use crate::text::{
    chars_of, number, parse_number, pieces, split, split_words, trim, trimmed, words,
};

verus! {

broadcast use {vstd::std_specs::hash::group_hash_axioms, vstd::string::group_string_axioms};

/// What is wrong with the line of a vertex.
#[derive(Debug, Clone, Copy, PartialEq, Eq, Structural)]
pub enum Flaw {
    NoId,
    BadId,
    NoPriority,
    BadPriority,
    NoOwner,
    BadOwner,
    NoSuccessors,
    BadSuccessor,
    NoName,
}

/// What is wrong with a text, and the line that it is wrong in, without the
/// white space around it.
#[derive(Debug)]
pub enum ParseError {
    /// The first line begins with `parity` and names no greatest identifier.
    MalformedHeader { line: String },
    /// A line is no vertex.
    MalformedNode { line: String, flaw: Flaw },
    /// A line after a header begins with `parity` again.
    DuplicateHeader { line: String },
}

/// What a `ParseError` says.
pub enum Problem {
    MalformedHeader { line: Seq<char> },
    MalformedNode { line: Seq<char>, flaw: Flaw },
    DuplicateHeader { line: Seq<char> },
}

impl View for ParseError {
    type V = Problem;

    open spec fn view(&self) -> Problem {
        match self {
            ParseError::MalformedHeader { line } => Problem::MalformedHeader { line: line@ },
            ParseError::MalformedNode { line, flaw } => Problem::MalformedNode {
                line: line@,
                flaw: *flaw,
            },
            ParseError::DuplicateHeader { line } => Problem::DuplicateHeader { line: line@ },
        }
    }
}

/// What is wrong with the line of a vertex, in words.
pub open spec fn flaw_text(flaw: Flaw) -> Seq<char> {
    match flaw {
        Flaw::NoId => "it holds no identifier"@,
        Flaw::BadId => "its identifier is not a natural number"@,
        Flaw::NoPriority => "it holds no priority"@,
        Flaw::BadPriority => "its priority is not a natural number"@,
        Flaw::NoOwner => "it holds no owner"@,
        Flaw::BadOwner => "its owner is neither 0 nor 1"@,
        Flaw::NoSuccessors => "it holds no successors"@,
        Flaw::BadSuccessor => "one of its successors is not a natural number"@,
        Flaw::NoName => "its name is empty"@,
    }
}

/// What a problem says in words: the offending line and what is wrong with it.
pub open spec fn message_of(p: Problem) -> Seq<char> {
    match p {
        Problem::MalformedHeader { line } => "The header '"@ + line
            + "' names no greatest identifier."@,
        Problem::MalformedNode { line, flaw } => "The line '"@ + line + "' is no vertex: "@
            + flaw_text(flaw) + "."@,
        Problem::DuplicateHeader { line } => "The line '"@ + line + "' is a second header."@,
    }
}

impl Flaw {
    /// What is wrong, in words.
    pub fn text(&self) -> (r: &'static str)
        ensures
            r@ == flaw_text(*self),
    {
        match self {
            Flaw::NoId => "it holds no identifier",
            Flaw::BadId => "its identifier is not a natural number",
            Flaw::NoPriority => "it holds no priority",
            Flaw::BadPriority => "its priority is not a natural number",
            Flaw::NoOwner => "it holds no owner",
            Flaw::BadOwner => "its owner is neither 0 nor 1",
            Flaw::NoSuccessors => "it holds no successors",
            Flaw::BadSuccessor => "one of its successors is not a natural number",
            Flaw::NoName => "its name is empty",
        }
    }
}

impl ParseError {
    /// The error in words: the offending line and what is wrong with it.
    pub fn message(&self) -> (r: String)
        ensures
            r@ == message_of(self@),
    {
        match self {
            ParseError::MalformedHeader { line } => {
                let mut r: String = String::from_str("The header '");
                r.append(line.as_str());
                r.append("' names no greatest identifier.");
                r
            },
            ParseError::MalformedNode { line, flaw } => {
                let mut r: String = String::from_str("The line '");
                r.append(line.as_str());
                r.append("' is no vertex: ");
                r.append(flaw.text());
                r.append(".");
                r
            },
            ParseError::DuplicateHeader { line } => {
                let mut r: String = String::from_str("The line '");
                r.append(line.as_str());
                r.append("' is a second header.");
                r
            },
        }
    }
}

/// Why a text gave no game: the text is no game at all, or the game that it
/// writes down is not one that the engine can take.
#[derive(Debug)]
pub enum Error {
    Input(ParseError),
    Structure(GameError),
}

/// What the first line of a text is.
#[derive(Debug, Clone, Copy, PartialEq, Eq, Structural)]
pub enum Heading {
    /// No header: the line does not begin with `parity`.
    Absent,
    /// A header with the greatest identifier that it names.
    Present(u32),
    /// A header that names no greatest identifier.
    Broken,
}

/// The word that a header begins with.
pub open spec fn parity_word() -> Seq<char> {
    seq!['p', 'a', 'r', 'i', 't', 'y']
}

/// What `line` is as the first line of a text.
pub open spec fn heading(line: Seq<char>) -> Heading {
    let w = words(line);
    if w.len() == 0 || w[0] != parity_word() {
        Heading::Absent
    } else if w.len() < 2 {
        Heading::Broken
    } else {
        match number(w[1]) {
            Some(n) => Heading::Present(n),
            None => Heading::Broken,
        }
    }
}

/// The successors that `word` lists: numbers with commas between them.
pub open spec fn successors_of(word: Seq<char>) -> Option<Set<u32>> {
    let ps = pieces(word, ',');
    if forall|k: int| 0 <= k < ps.len() ==> number(#[trigger] ps[k]) is Some {
        Some(
            Set::new(
                |x: u32| exists|k: int| 0 <= k < ps.len() && number(#[trigger] ps[k]) == Some(x),
            ),
        )
    } else {
        None
    }
}

/// The first of `ps` that is not empty.
pub open spec fn first_filled(ps: Seq<Seq<char>>) -> Option<Seq<char>>
    decreases ps.len(),
{
    if ps.len() == 0 {
        None
    } else if ps[0].len() > 0 {
        Some(ps[0])
    } else {
        first_filled(ps.drop_first())
    }
}

/// The name that `word` holds: what stands before, between or after its
/// quotation marks, the first such piece that is not empty.
pub open spec fn name_of(word: Seq<char>) -> Option<Seq<char>> {
    first_filled(pieces(word, '"'))
}

/// The vertex that `line` writes down as the line at position `count`, or
/// the first thing that is wrong with it.
pub open spec fn vertex_of(count: usize, line: Seq<char>) -> Result<Vertex, Flaw> {
    let w = words(line);
    if w.len() < 1 {
        Err(Flaw::NoId)
    } else if number(w[0]) is None {
        Err(Flaw::BadId)
    } else if w.len() < 2 {
        Err(Flaw::NoPriority)
    } else if number(w[1]) is None {
        Err(Flaw::BadPriority)
    } else if w.len() < 3 {
        Err(Flaw::NoOwner)
    } else if owner_of(w[2]) is None {
        Err(Flaw::BadOwner)
    } else if w.len() < 4 {
        Err(Flaw::NoSuccessors)
    } else if successors_of(w[3]) is None {
        Err(Flaw::BadSuccessor)
    } else if w.len() >= 5 && name_of(w[4]) is None {
        Err(Flaw::NoName)
    } else {
        Ok(
            Vertex {
                id: number(w[0])->0,
                count: count,
                prio: number(w[1])->0,
                owner: owner_of(w[2])->0,
                succ: successors_of(w[3])->0,
                name: if w.len() >= 5 {
                    name_of(w[4])
                } else {
                    None
                },
            },
        )
    }
}

/// What the line at position `count` adds to a text: nothing where it holds
/// only white space, a vertex, or a problem. `headed` tells whether the text
/// began with a header.
pub open spec fn line_of(line: Seq<char>, count: usize, headed: bool) -> Result<
    Option<Vertex>,
    Problem,
> {
    let w = words(line);
    if w.len() == 0 {
        Ok(None)
    } else if headed && w[0] == parity_word() {
        Err(Problem::DuplicateHeader { line: trimmed(line) })
    } else {
        match vertex_of(count, line) {
            Ok(v) => Ok(Some(v)),
            Err(flaw) => Err(Problem::MalformedNode { line: trimmed(line), flaw }),
        }
    }
}

/// The vertices of the first `n` of `lines`, or the problem with the first
/// line that has one.
pub open spec fn read(lines: Seq<Seq<char>>, n: nat, headed: bool) -> Result<Seq<Vertex>, Problem>
    decreases n,
{
    if n == 0 {
        Ok(Seq::empty())
    } else {
        match read(lines, (n - 1) as nat, headed) {
            Err(p) => Err(p),
            Ok(vs) => match line_of(lines[n - 1], (n - 1) as usize, headed) {
                Err(p) => Err(p),
                Ok(None) => Ok(vs),
                Ok(Some(v)) => Ok(vs.push(v)),
            },
        }
    }
}

/// The vertices that `text` writes down, in the order of the text, or the
/// first problem with it. The lines are the pieces of the text between its
/// semicolons; where the first is a header, the vertices are counted from
/// the line after it.
pub open spec fn parsed(text: Seq<char>) -> Result<Seq<Vertex>, Problem> {
    let ps = pieces(text, ';');
    match heading(ps[0]) {
        Heading::Broken => Err(Problem::MalformedHeader { line: trimmed(ps[0]) }),
        Heading::Present(_) => read(ps.skip(1), (ps.len() - 1) as nat, true),
        Heading::Absent => read(ps, ps.len(), false),
    }
}

/// `String::push`: `c` is added at the end of `s`.
#[verifier::external_body]
fn push_char(s: &mut String, c: char)
    ensures
        final(s)@ == old(s)@.push(c),
{
    s.push(c);
}

/// The characters from `from` to `to` as a string.
fn text_of(chars: &Vec<char>, from: usize, to: usize) -> (r: String)
    requires
        from <= to <= chars@.len(),
    ensures
        r@ == chars@.subrange(from as int, to as int),
{
    let mut r: String = String::new();
    let mut i: usize = from;
    assert(r@ =~= chars@.subrange(from as int, i as int));
    while i < to
        invariant
            from <= i <= to,
            to <= chars@.len(),
            r@ == chars@.subrange(from as int, i as int),
        decreases to - i,
    {
        push_char(&mut r, chars[i]);
        i = i + 1;
        assert(r@ =~= chars@.subrange(from as int, i as int));
    }
    r
}

/// The characters from `from` to `to`, without the white space around them,
/// as a string.
fn trimmed_text(chars: &Vec<char>, from: usize, to: usize) -> (r: String)
    requires
        from <= to <= chars@.len(),
    ensures
        r@ == trimmed(chars@.subrange(from as int, to as int)),
{
    let ends: (usize, usize) = trim(chars, from, to);
    text_of(chars, ends.0, ends.1)
}

/// Whether the characters from `from` to `to` are the word `parity`.
fn is_parity(chars: &Vec<char>, from: usize, to: usize) -> (r: bool)
    requires
        from <= to <= chars@.len(),
    ensures
        r == (chars@.subrange(from as int, to as int) == parity_word()),
{
    let ghost word = chars@.subrange(from as int, to as int);
    assert(parity_word().len() == 6);
    if to - from != 6 {
        return false;
    }
    let r: bool = chars[from] == 'p' && chars[from + 1] == 'a' && chars[from + 2] == 'r'
        && chars[from + 3] == 'i' && chars[from + 4] == 't' && chars[from + 5] == 'y';
    proof {
        if r {
            assert(word =~= parity_word());
        } else {
            assert(word[0] == chars@[from as int]);
            assert(word[1] == chars@[from + 1]);
            assert(word[2] == chars@[from + 2]);
            assert(word[3] == chars@[from + 3]);
            assert(word[4] == chars@[from + 4]);
            assert(word[5] == chars@[from + 5]);
        }
    }
    r
}

/// What the words `ws` of a line are as the first line of a text.
fn heading_of_words(chars: &Vec<char>, ws: &Vec<(usize, usize)>, Ghost(line): Ghost<Seq<char>>) -> (r:
    Heading)
    requires
        ws@.len() == words(line).len(),
        forall|k: int|
            0 <= k < ws@.len() ==> (#[trigger] ws@[k]).0 <= ws@[k].1 <= chars@.len()
                && chars@.subrange(ws@[k].0 as int, ws@[k].1 as int) == words(line)[k],
    ensures
        r == heading(line),
{
    if ws.len() == 0 || !is_parity(chars, ws[0].0, ws[0].1) {
        return Heading::Absent;
    }
    if ws.len() < 2 {
        return Heading::Broken;
    }
    match parse_number(chars, ws[1].0, ws[1].1) {
        Some(n) => Heading::Present(n),
        None => Heading::Broken,
    }
}

/// The owner that the characters from `from` to `to` name.
fn owner_in(chars: &Vec<char>, from: usize, to: usize) -> (r: Option<Owner>)
    requires
        from <= to <= chars@.len(),
    ensures
        r == owner_of(chars@.subrange(from as int, to as int)),
{
    let ghost word = chars@.subrange(from as int, to as int);
    assert(seq!['0'].len() == 1 && seq!['1'].len() == 1);
    if to - from != 1 {
        return None;
    }
    let c: char = chars[from];
    assert(word[0] == c);
    if c == '0' {
        assert(word =~= seq!['0']);
        Some(Owner::Even)
    } else if c == '1' {
        assert(word =~= seq!['1']);
        Some(Owner::Odd)
    } else {
        None
    }
}

/// The successors that the characters from `from` to `to` list.
fn successors_in(chars: &Vec<char>, from: usize, to: usize) -> (r: Option<HashSet<u32>>)
    requires
        from <= to <= chars@.len(),
    ensures
        match (r, successors_of(chars@.subrange(from as int, to as int))) {
            (Some(s), Some(t)) => s@ == t,
            (None, None) => true,
            _ => false,
        },
{
    let ghost word = chars@.subrange(from as int, to as int);
    let ghost ps = pieces(word, ',');
    let parts: Vec<(usize, usize)> = split(chars, from, to, ',');
    let mut set: HashSet<u32> = HashSet::new();
    let mut k: usize = 0;
    while k < parts.len()
        invariant
            k <= parts@.len(),
            parts@.len() == ps.len(),
            to <= chars@.len(),
            forall|j: int|
                0 <= j < parts@.len() ==> from <= (#[trigger] parts@[j]).0 <= parts@[j].1 <= to
                    && chars@.subrange(parts@[j].0 as int, parts@[j].1 as int) == ps[j],
            word == chars@.subrange(from as int, to as int),
            ps == pieces(word, ','),
            forall|j: int| 0 <= j < k ==> number(#[trigger] ps[j]) is Some,
            forall|x: u32|
                set@.contains(x) <==> exists|j: int|
                    0 <= j < k && number(#[trigger] ps[j]) == Some(x),
        decreases parts@.len() - k,
    {
        let part: (usize, usize) = parts[k];
        match parse_number(chars, part.0, part.1) {
            None => {
                assert(number(ps[k as int]) is None);
                return None;
            },
            Some(x) => {
                set.insert(x);
                assert(number(ps[k as int]) == Some(x));
            },
        }
        k = k + 1;
    }
    assert(set@ =~= successors_of(word)->0);
    Some(set)
}

/// The name that the characters from `from` to `to` hold.
fn name_in(chars: &Vec<char>, from: usize, to: usize) -> (r: Option<String>)
    requires
        from <= to <= chars@.len(),
    ensures
        match (r, name_of(chars@.subrange(from as int, to as int))) {
            (Some(s), Some(t)) => s@ == t,
            (None, None) => true,
            _ => false,
        },
{
    let ghost word = chars@.subrange(from as int, to as int);
    let ghost ps = pieces(word, '"');
    let parts: Vec<(usize, usize)> = split(chars, from, to, '"');
    let mut k: usize = 0;
    assert(ps.skip(0) == ps);
    while k < parts.len()
        invariant
            k <= parts@.len(),
            parts@.len() == ps.len(),
            to <= chars@.len(),
            forall|j: int|
                0 <= j < parts@.len() ==> from <= (#[trigger] parts@[j]).0 <= parts@[j].1 <= to
                    && chars@.subrange(parts@[j].0 as int, parts@[j].1 as int) == ps[j],
            word == chars@.subrange(from as int, to as int),
            ps == pieces(word, '"'),
            first_filled(ps) == first_filled(ps.skip(k as int)),
        decreases parts@.len() - k,
    {
        let part: (usize, usize) = parts[k];
        assert(ps.skip(k as int)[0] == ps[k as int]);
        if part.0 < part.1 {
            return Some(text_of(chars, part.0, part.1));
        }
        assert(ps.skip(k as int).drop_first() == ps.skip(k + 1));
        k = k + 1;
    }
    None
}

/// The vertex that the words `ws` of a line write down.
fn node_of_words(
    chars: &Vec<char>,
    ws: &Vec<(usize, usize)>,
    count: usize,
    Ghost(line): Ghost<Seq<char>>,
) -> (r: Result<Node, Flaw>)
    requires
        ws@.len() == words(line).len(),
        forall|k: int|
            0 <= k < ws@.len() ==> (#[trigger] ws@[k]).0 <= ws@[k].1 <= chars@.len()
                && chars@.subrange(ws@[k].0 as int, ws@[k].1 as int) == words(line)[k],
    ensures
        match (r, vertex_of(count, line)) {
            (Ok(n), Ok(v)) => n@ == v,
            (Err(e), Err(f)) => e == f,
            _ => false,
        },
{
    if ws.len() < 1 {
        return Err(Flaw::NoId);
    }
    let id: u32 = match parse_number(chars, ws[0].0, ws[0].1) {
        Some(x) => x,
        None => {
            return Err(Flaw::BadId);
        },
    };
    if ws.len() < 2 {
        return Err(Flaw::NoPriority);
    }
    let prio: u32 = match parse_number(chars, ws[1].0, ws[1].1) {
        Some(x) => x,
        None => {
            return Err(Flaw::BadPriority);
        },
    };
    if ws.len() < 3 {
        return Err(Flaw::NoOwner);
    }
    let owner: Owner = match owner_in(chars, ws[2].0, ws[2].1) {
        Some(x) => x,
        None => {
            return Err(Flaw::BadOwner);
        },
    };
    if ws.len() < 4 {
        return Err(Flaw::NoSuccessors);
    }
    let succ: HashSet<u32> = match successors_in(chars, ws[3].0, ws[3].1) {
        Some(x) => x,
        None => {
            return Err(Flaw::BadSuccessor);
        },
    };
    let name: Option<String> = if ws.len() >= 5 {
        match name_in(chars, ws[4].0, ws[4].1) {
            Some(x) => Some(x),
            None => {
                return Err(Flaw::NoName);
            },
        }
    } else {
        None
    };
    Ok(Node { id, count, prio, owner, succ, name })
}

/// What the characters from `from` to `to` add to a text as the line at
/// position `count`.
fn line_in(chars: &Vec<char>, from: usize, to: usize, count: usize, headed: bool) -> (r: Result<
    Option<Node>,
    ParseError,
>)
    requires
        from <= to <= chars@.len(),
    ensures
        match (r, line_of(chars@.subrange(from as int, to as int), count, headed)) {
            (Ok(None), Ok(None)) => true,
            (Ok(Some(n)), Ok(Some(v))) => n@ == v,
            (Err(e), Err(p)) => e@ == p,
            _ => false,
        },
{
    let ghost line = chars@.subrange(from as int, to as int);
    let ws: Vec<(usize, usize)> = split_words(chars, from, to);
    if ws.len() == 0 {
        return Ok(None);
    }
    if headed && is_parity(chars, ws[0].0, ws[0].1) {
        return Err(ParseError::DuplicateHeader { line: trimmed_text(chars, from, to) });
    }
    match node_of_words(chars, &ws, count, Ghost(line)) {
        Ok(node) => Ok(Some(node)),
        Err(flaw) => Err(ParseError::MalformedNode { line: trimmed_text(chars, from, to), flaw }),
    }
}

/// Reads `header` as the first line of a text: the greatest identifier that
/// it names where it is a header, nothing where it does not begin with
/// `parity`, and an error where it begins so and names none.
pub fn try_parse_header(header: &str) -> (r: Result<Option<u32>, ParseError>)
    ensures
        match heading(header@) {
            Heading::Absent => r matches Ok(None),
            Heading::Present(n) => r matches Ok(Some(m)) && m == n,
            Heading::Broken => r matches Err(e) && e@ == (Problem::MalformedHeader {
                line: trimmed(header@),
            }),
        },
{
    let chars: Vec<char> = chars_of(header);
    assert(chars@.subrange(0, chars@.len() as int) == chars@);
    let ws: Vec<(usize, usize)> = split_words(&chars, 0, chars.len());
    match heading_of_words(&chars, &ws, Ghost(chars@)) {
        Heading::Absent => Ok(None),
        Heading::Present(n) => Ok(Some(n)),
        Heading::Broken => Err(
            ParseError::MalformedHeader { line: trimmed_text(&chars, 0, chars.len()) },
        ),
    }
}

/// Reads `node_spec` as the vertex at position `i` of a text.
pub fn parse_node_spec(i: usize, node_spec: &str) -> (r: Result<Node, ParseError>)
    ensures
        match (r, vertex_of(i, node_spec@)) {
            (Ok(n), Ok(v)) => n@ == v,
            (Err(e), Err(f)) => e@ == (Problem::MalformedNode {
                line: trimmed(node_spec@),
                flaw: f,
            }),
            _ => false,
        },
{
    let chars: Vec<char> = chars_of(node_spec);
    assert(chars@.subrange(0, chars@.len() as int) == chars@);
    let ws: Vec<(usize, usize)> = split_words(&chars, 0, chars.len());
    match node_of_words(&chars, &ws, i, Ghost(chars@)) {
        Ok(node) => Ok(node),
        Err(flaw) => Err(
            ParseError::MalformedNode { line: trimmed_text(&chars, 0, chars.len()), flaw },
        ),
    }
}

/// Reads the vertices that `parity_game` writes down, in the order of the
/// text.
pub fn parse_nodes(parity_game: &str) -> (r: Result<Vec<Node>, ParseError>)
    ensures
        match (r, parsed(parity_game@)) {
            (Ok(nodes), Ok(vs)) => node_views(nodes@) == vs,
            (Err(e), Err(p)) => e@ == p,
            _ => false,
        },
{
    let chars: Vec<char> = chars_of(parity_game);
    let ghost text = chars@;
    assert(chars@.subrange(0, chars@.len() as int) == chars@);
    let ps: Vec<(usize, usize)> = split(&chars, 0, chars.len(), ';');
    let ghost all = pieces(text, ';');
    let first: (usize, usize) = ps[0];
    let ws: Vec<(usize, usize)> = split_words(&chars, first.0, first.1);
    let headed: bool = match heading_of_words(&chars, &ws, Ghost(all[0])) {
        Heading::Broken => {
            return Err(
                ParseError::MalformedHeader { line: trimmed_text(&chars, first.0, first.1) },
            );
        },
        Heading::Present(_) => true,
        Heading::Absent => false,
    };
    let skipped: usize = if headed {
        1
    } else {
        0
    };
    let ghost lines = if headed {
        all.skip(1)
    } else {
        all
    };
    let mut nodes: Vec<Node> = Vec::new();
    let mut k: usize = skipped;
    assert(node_views(nodes@) =~= Seq::<Vertex>::empty());
    assert(parsed(parity_game@) == read(lines, lines.len(), headed));
    while k < ps.len()
        invariant
            skipped <= k <= ps@.len(),
            parsed(parity_game@) == read(lines, lines.len(), headed),
            skipped == if headed {
                1int
            } else {
                0int
            },
            ps@.len() == all.len(),
            lines == if headed {
                all.skip(1)
            } else {
                all
            },
            forall|j: int|
                0 <= j < ps@.len() ==> (#[trigger] ps@[j]).0 <= ps@[j].1 <= chars@.len()
                    && chars@.subrange(ps@[j].0 as int, ps@[j].1 as int) == all[j],
            read(lines, (k - skipped) as nat, headed) == Ok::<Seq<Vertex>, Problem>(
                node_views(nodes@),
            ),
        decreases ps@.len() - k,
    {
        let piece: (usize, usize) = ps[k];
        let count: usize = k - skipped;
        assert(lines[count as int] == all[k as int]);
        let ghost before = node_views(nodes@);
        match line_in(&chars, piece.0, piece.1, count, headed) {
            Err(e) => {
                proof {
                    lemma_read_fails(lines, (count + 1) as nat, lines.len(), headed);
                }
                return Err(e);
            },
            Ok(None) => {},
            Ok(Some(node)) => {
                nodes.push(node);
                assert(node_views(nodes@) =~= before.push(node@));
            },
        }
        k = k + 1;
    }
    assert(lines.len() == k - skipped);
    Ok(nodes)
}

/// A problem with one of the first `n` lines is the problem with the text.
proof fn lemma_read_fails(lines: Seq<Seq<char>>, n: nat, m: nat, headed: bool)
    requires
        n <= m,
        read(lines, n, headed) is Err,
    ensures
        read(lines, m, headed) == read(lines, n, headed),
    decreases m - n,
{
    if n < m {
        lemma_read_fails(lines, n, (m - 1) as nat, headed);
    }
}

/// Reads `parity_game` as a game. Where two vertices share an identifier,
/// the first one stays.
pub fn parse(parity_game: &str) -> (r: Result<Game, Error>)
    ensures
        match parsed(parity_game@) {
            Err(p) => r matches Err(Error::Input(e)) && e@ == p,
            Ok(vs) => match r {
                Ok(game) => game@ == gathered(vs) && game.wf(),
                Err(Error::Structure(e)) => flawed(gathered(vs), e),
                Err(Error::Input(_)) => false,
            },
        },
        r is Ok <==> (parsed(parity_game@) matches Ok(vs) && sound(gathered(vs)) && countable(
            gathered(vs),
        )),
{
    match parse_nodes(parity_game) {
        Err(e) => Err(Error::Input(e)),
        Ok(nodes) => match Game::from_nodes(nodes) {
            Ok(game) => Ok(game),
            Err(e) => Err(Error::Structure(e)),
        },
    }
}

} // verus!
