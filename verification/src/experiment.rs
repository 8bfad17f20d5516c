//! The order in which a directory of games is worked through: file names are
//! cut into fields at every `_` and `.`, and compared field by field, as
//! numbers where both fields are numbers and as text where they are not.

use core::cmp::Ordering;
use vstd::prelude::*;
use vstd::string::*;
use crate::arguments::texts;
use crate::text::{chars_of, decimal, lemma_decimal_grows};

verus! {

broadcast use vstd::string::group_string_axioms;

/// A file of a game: where it lies and what it is called.
#[derive(Debug)]
pub struct ExperimentFile {
    pub path: String,
    pub file_name: String,
}

/// A field of a file name, and whether it is a number.
#[derive(Debug)]
pub struct Field {
    pub text: String,
    pub numeric: bool,
}

/// What a `Field` holds.
pub struct FieldView {
    pub text: Seq<char>,
    pub numeric: bool,
}

impl View for Field {
    type V = FieldView;

    open spec fn view(&self) -> FieldView {
        FieldView { text: self.text@, numeric: self.numeric }
    }
}

/// How one thing stands to another in an order.
#[derive(Debug, Clone, Copy, PartialEq, Eq, Structural)]
pub enum Sign {
    Less,
    Equal,
    Greater,
}

/// What `regex::Regex::split` yields for the pattern and the text: the
/// pieces of the text between the matches of the pattern; nothing where the
/// pattern is none that `regex::Regex::new` takes.
pub uninterp spec fn regex_fields(pattern: Seq<char>, text: Seq<char>) -> Option<Seq<Seq<char>>>;

/// What `regex::Regex::is_match` yields for the pattern and the text: whether
/// the pattern matches somewhere in the text; nothing where the pattern is
/// none that `regex::Regex::new` takes.
pub uninterp spec fn regex_found(pattern: Seq<char>, text: Seq<char>) -> Option<bool>;

/// `regex::Regex::new` on `pattern` and `regex::Regex::split` on `text`: the
/// pieces of `text` between the matches of `pattern`, in their order. The
/// contract gives the result its name and claims nothing of what it holds.
#[verifier::external_body]
fn split_by(pattern: &str, text: &str) -> (r: Option<Vec<String>>)
    ensures
        match (r, regex_fields(pattern@, text@)) {
            (Some(v), Some(s)) => texts(v@) == s,
            (None, None) => true,
            _ => false,
        },
{
    match regex::Regex::new(pattern) {
        Ok(re) => Some(re.split(text).map(String::from).collect()),
        Err(_) => None,
    }
}

/// `regex::Regex::new` on `pattern` and `regex::Regex::is_match` on `text`:
/// whether `pattern` matches somewhere in `text`. The contract gives the
/// result its name and claims nothing of what it is.
#[verifier::external_body]
fn found(pattern: &str, text: &str) -> (r: Option<bool>)
    ensures
        r == regex_found(pattern@, text@),
{
    match regex::Regex::new(pattern) {
        Ok(re) => Some(re.is_match(text)),
        Err(_) => None,
    }
}

/// The fields of `path`: its pieces between the characters `_` and `.`, each
/// with the mark of a number where it holds decimal digits and nothing else.
pub open spec fn fields_of(path: Seq<char>) -> Option<Seq<FieldView>> {
    match regex_fields("[_.]"@, path) {
        None => None,
        Some(fs) => if forall|k: int|
            0 <= k < fs.len() ==> regex_found("^[0-9]+$"@, #[trigger] fs[k]) is Some {
            Some(
                Seq::new(
                    fs.len(),
                    |k: int|
                        FieldView { text: fs[k], numeric: regex_found("^[0-9]+$"@, fs[k])->0 },
                ),
            )
        } else {
            None
        },
    }
}

/// What the fields of `s` hold.
pub open spec fn field_views(s: Seq<Field>) -> Seq<FieldView> {
    s.map_values(|f: Field| f@)
}

/// The order of two texts, character by character: the first character that
/// differs decides, and a text comes before every text that it begins.
pub open spec fn lexical(a: Seq<char>, b: Seq<char>) -> Sign
    decreases a.len(),
{
    if a.len() == 0 && b.len() == 0 {
        Sign::Equal
    } else if a.len() == 0 {
        Sign::Less
    } else if b.len() == 0 {
        Sign::Greater
    } else if (a[0] as u32) < (b[0] as u32) {
        Sign::Less
    } else if (a[0] as u32) > (b[0] as u32) {
        Sign::Greater
    } else {
        lexical(a.skip(1), b.skip(1))
    }
}

/// The number that `field` writes, and 0 where it writes none that the
/// machine can hold.
pub open spec fn count_of(field: Seq<char>) -> int {
    match decimal(field) {
        Some(v) => if v <= usize::MAX {
            v
        } else {
            0
        },
        None => 0,
    }
}

/// The order of two fields: by number where both are numbers, by text where
/// they are not.
pub open spec fn field_order(a: FieldView, b: FieldView) -> Sign {
    if a.numeric && b.numeric {
        if count_of(a.text) < count_of(b.text) {
            Sign::Less
        } else if count_of(a.text) > count_of(b.text) {
            Sign::Greater
        } else {
            Sign::Equal
        }
    } else {
        lexical(a.text, b.text)
    }
}

/// The order of two lists of fields from position `i` on: the first pair of
/// fields that is not equal decides, and where one list ends before a pair
/// decides, the lists are equal.
pub open spec fn fields_order(a: Seq<FieldView>, b: Seq<FieldView>, i: int) -> Sign
    decreases a.len() - i,
{
    if i < 0 || i >= a.len() || i >= b.len() {
        Sign::Equal
    } else if field_order(a[i], b[i]) != Sign::Equal {
        field_order(a[i], b[i])
    } else {
        fields_order(a, b, i + 1)
    }
}

/// The fields of `path`.
pub fn fields(path: &str) -> (r: Option<Vec<Field>>)
    ensures
        match (r, fields_of(path@)) {
            (Some(v), Some(s)) => field_views(v@) == s,
            (None, None) => true,
            _ => false,
        },
{
    let parts: Vec<String> = match split_by("[_.]", path) {
        None => {
            return None;
        },
        Some(parts) => parts,
    };
    let ghost fs = texts(parts@);
    let mut out: Vec<Field> = Vec::new();
    let mut k: usize = 0;
    while k < parts.len()
        invariant
            k <= parts@.len(),
            fs == texts(parts@),
            regex_fields("[_.]"@, path@) == Some(fs),
            out@.len() == k,
            forall|j: int|
                0 <= j < k ==> regex_found("^[0-9]+$"@, #[trigger] fs[j]) is Some && out@[j]@
                    == (FieldView { text: fs[j], numeric: regex_found("^[0-9]+$"@, fs[j])->0 }),
        decreases parts@.len() - k,
    {
        assert(fs[k as int] == parts@[k as int]@);
        match found("^[0-9]+$", parts[k].as_str()) {
            None => {
                return None;
            },
            Some(mark) => {
                out.push(Field { text: parts[k].clone(), numeric: mark });
            },
        }
        k = k + 1;
    }
    assert(field_views(out@) =~= fields_of(path@)->0);
    Some(out)
}

/// The order of the texts `a` and `b`.
pub fn lexical_order(a: &Vec<char>, b: &Vec<char>) -> (r: Sign)
    ensures
        r == lexical(a@, b@),
{
    let mut k: usize = 0;
    assert(a@.skip(0) == a@ && b@.skip(0) == b@);
    while k < a.len() && k < b.len()
        invariant
            k <= a@.len(),
            k <= b@.len(),
            lexical(a@, b@) == lexical(a@.skip(k as int), b@.skip(k as int)),
        decreases a@.len() - k,
    {
        let x: u32 = a[k] as u32;
        let y: u32 = b[k] as u32;
        assert(a@.skip(k as int)[0] == a@[k as int]);
        assert(b@.skip(k as int)[0] == b@[k as int]);
        if x < y {
            return Sign::Less;
        }
        if x > y {
            return Sign::Greater;
        }
        assert(a@.skip(k as int).skip(1) == a@.skip(k + 1));
        assert(b@.skip(k as int).skip(1) == b@.skip(k + 1));
        k = k + 1;
    }
    if k < b.len() {
        Sign::Less
    } else if k < a.len() {
        Sign::Greater
    } else {
        Sign::Equal
    }
}

/// The number that `field` writes, and 0 where it writes none that the
/// machine can hold.
pub fn count(field: &Vec<char>) -> (r: usize)
    ensures
        r == count_of(field@),
{
    if field.len() == 0 {
        return 0;
    }
    let mut value: u128 = 0;
    let mut i: usize = 0;
    while i < field.len()
        invariant
            i <= field@.len(),
            field@.len() > 0,
            value <= usize::MAX,
            i > 0 ==> decimal(field@.take(i as int)) == Some(value as int),
            i == 0 ==> value == 0,
        decreases field@.len() - i,
    {
        let c: char = field[i];
        if !('0' <= c && c <= '9') {
            proof {
                assert(field@.take(i + 1).last() == c);
                assert(decimal(field@.take(i + 1)) is None);
                lemma_decimal_grows(field@, i + 1);
            }
            return 0;
        }
        let d: u128 = (c as u32 - '0' as u32) as u128;
        value = value * 10 + d;
        proof {
            let now = field@.take(i + 1);
            assert(now.last() == c);
            assert(now.drop_last() == field@.take(i as int));
            assert(decimal(now) == Some(value as int));
        }
        if value > usize::MAX as u128 {
            proof {
                lemma_decimal_grows(field@, i + 1);
            }
            return 0;
        }
        i = i + 1;
    }
    assert(field@.take(field@.len() as int) == field@);
    value as usize
}

/// The order of the fields `a` and `b`.
pub fn compare_field(a: &Field, b: &Field) -> (r: Sign)
    ensures
        r == field_order(a@, b@),
{
    let x: Vec<char> = chars_of(a.text.as_str());
    let y: Vec<char> = chars_of(b.text.as_str());
    if a.numeric && b.numeric {
        let m: usize = count(&x);
        let n: usize = count(&y);
        if m < n {
            Sign::Less
        } else if m > n {
            Sign::Greater
        } else {
            Sign::Equal
        }
    } else {
        lexical_order(&x, &y)
    }
}

/// The order of the lists of fields `a` and `b`.
pub fn compare_fields(a: &Vec<Field>, b: &Vec<Field>) -> (r: Sign)
    ensures
        r == fields_order(field_views(a@), field_views(b@), 0),
{
    let mut i: usize = 0;
    while i < a.len() && i < b.len()
        invariant
            fields_order(field_views(a@), field_views(b@), 0) == fields_order(
                field_views(a@),
                field_views(b@),
                i as int,
            ),
        decreases a@.len() - i,
    {
        assert(field_views(a@)[i as int] == a@[i as int]@);
        assert(field_views(b@)[i as int] == b@[i as int]@);
        let sign: Sign = compare_field(&a[i], &b[i]);
        match sign {
            Sign::Equal => {},
            _ => {
                return sign;
            },
        }
        i = i + 1;
    }
    Sign::Equal
}

/// The order of the two files under the fields of their paths; nothing where
/// the patterns that cut and mark the fields are refused.
pub open spec fn files_order(a: Seq<char>, b: Seq<char>) -> Option<Sign> {
    match (fields_of(a), fields_of(b)) {
        (Some(x), Some(y)) => Some(fields_order(x, y, 0)),
        _ => None,
    }
}

/// The `Ordering` that says what `sign` says.
pub open spec fn ordering_of(sign: Sign) -> Ordering {
    match sign {
        Sign::Less => Ordering::Less,
        Sign::Equal => Ordering::Equal,
        Sign::Greater => Ordering::Greater,
    }
}

/// The order in which the files `a` and `b` are worked through.
pub fn compare(a: &ExperimentFile, b: &ExperimentFile) -> (r: Option<Ordering>)
    ensures
        match (r, files_order(a.path@, b.path@)) {
            (Some(o), Some(s)) => o == ordering_of(s),
            (None, None) => true,
            _ => false,
        },
{
    let x: Vec<Field> = match fields(a.path.as_str()) {
        Some(x) => x,
        None => {
            return None;
        },
    };
    let y: Vec<Field> = match fields(b.path.as_str()) {
        Some(y) => y,
        None => {
            return None;
        },
    };
    match compare_fields(&x, &y) {
        Sign::Less => Some(Ordering::Less),
        Sign::Equal => Some(Ordering::Equal),
        Sign::Greater => Some(Ordering::Greater),
    }
}

} // verus!
