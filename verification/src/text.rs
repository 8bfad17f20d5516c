//! Text as a sequence of characters: the pieces between separators, the
//! words between white space, and decimal numbers.

use vstd::prelude::*;
use vstd::std_specs::iter::IteratorSpec;
use vstd::string::*;

verus! {

broadcast use vstd::string::group_string_axioms;

/// The characters of `s`.
pub fn chars_of(s: &str) -> (v: Vec<char>)
    ensures
        v@ == s@,
{
    let mut v: Vec<char> = Vec::new();
    let chars = s.chars();
    for c in it: chars
        invariant
            it.seq() == s@,
            v@ == it.seq().take(it.index()),
    {
        v.push(c);
        assert(v@ == it.seq().take(it.index() + 1));
    }
    assert(v@ == s@.take(s@.len() as int));
    assert(s@.take(s@.len() as int) == s@);
    v
}

/// The characters that count as white space: those with the Unicode
/// property of that name.
pub open spec fn is_space(c: char) -> bool {
    let n = c as u32;
    ||| 0x09 <= n <= 0x0D
    ||| n == 0x20
    ||| n == 0x85
    ||| n == 0xA0
    ||| n == 0x1680
    ||| 0x2000 <= n <= 0x200A
    ||| n == 0x2028
    ||| n == 0x2029
    ||| n == 0x202F
    ||| n == 0x205F
    ||| n == 0x3000
}

/// Whether `c` is white space.
pub fn space(c: char) -> (r: bool)
    ensures
        r == is_space(c),
{
    let n: u32 = c as u32;
    (0x09 <= n && n <= 0x0D) || n == 0x20 || n == 0x85 || n == 0xA0 || n == 0x1680 || (0x2000 <= n
        && n <= 0x200A) || n == 0x2028 || n == 0x2029 || n == 0x202F || n == 0x205F || n == 0x3000
}

/// The number of characters at the start of `s` before the first `sep`.
pub open spec fn until(s: Seq<char>, sep: char) -> int
    decreases s.len(),
{
    if s.len() == 0 || s[0] == sep {
        0
    } else {
        1 + until(s.skip(1), sep)
    }
}

/// The pieces of `s` between the occurrences of `sep`: one more than there
/// are occurrences, some of them perhaps empty.
pub open spec fn pieces(s: Seq<char>, sep: char) -> Seq<Seq<char>>
    decreases s.len(),
{
    let n = until(s, sep);
    if 0 <= n < s.len() {
        seq![s.take(n)] + pieces(s.skip(n + 1), sep)
    } else {
        seq![s]
    }
}

/// The number of characters at the start of `s` that are white space, where
/// `blank` holds, or that are not, where it does not.
pub open spec fn run(s: Seq<char>, blank: bool) -> int
    decreases s.len(),
{
    if s.len() == 0 || is_space(s[0]) != blank {
        0
    } else {
        1 + run(s.skip(1), blank)
    }
}

/// The words of `s`: the longest stretches without white space.
pub open spec fn words(s: Seq<char>) -> Seq<Seq<char>>
    decreases s.len(),
{
    let rest = s.skip(run(s, true));
    let n = run(rest, false);
    if 0 < n <= rest.len() {
        proof {
            lemma_run_bounds(s, true);
        }
        seq![rest.take(n)] + words(rest.skip(n))
    } else {
        Seq::empty()
    }
}

/// A run is no longer than the text.
pub proof fn lemma_run_bounds(s: Seq<char>, blank: bool)
    ensures
        0 <= run(s, blank) <= s.len(),
    decreases s.len(),
{
    if s.len() > 0 && is_space(s[0]) == blank {
        lemma_run_bounds(s.skip(1), blank);
    }
}

/// The number of characters at the end of `s` that are white space.
pub open spec fn trail(s: Seq<char>) -> int
    decreases s.len(),
{
    if s.len() == 0 || !is_space(s.last()) {
        0
    } else {
        1 + trail(s.drop_last())
    }
}

/// `s` without the white space at its start and at its end.
pub open spec fn trimmed(s: Seq<char>) -> Seq<char> {
    let a = run(s, true);
    let b = s.len() - trail(s);
    if a <= b {
        s.subrange(a, b)
    } else {
        Seq::empty()
    }
}

/// The value of the decimal digit `c`.
pub open spec fn digit(c: char) -> Option<int> {
    if '0' <= c <= '9' {
        Some(c as u32 - '0' as u32)
    } else {
        None
    }
}

/// The number that the decimal digits of `s` write, where `s` holds a digit
/// and nothing but digits.
pub open spec fn decimal(s: Seq<char>) -> Option<int>
    decreases s.len(),
{
    if s.len() == 0 {
        None
    } else {
        match digit(s.last()) {
            None => None,
            Some(d) => if s.len() == 1 {
                Some(d)
            } else {
                match decimal(s.drop_last()) {
                    None => None,
                    Some(v) => Some(v * 10 + d),
                }
            },
        }
    }
}

/// The number that `s` writes: decimal digits, after a `+` or without one,
/// whose value 32 bits can hold.
pub open spec fn number(s: Seq<char>) -> Option<u32> {
    let digits = if s.len() > 0 && s[0] == '+' {
        s.skip(1)
    } else {
        s
    };
    match decimal(digits) {
        Some(v) => if v <= u32::MAX {
            Some(v as u32)
        } else {
            None
        },
        None => None,
    }
}

/// The first `sep` of `s` stands where nothing before it is `sep`.
pub proof fn lemma_until(s: Seq<char>, sep: char, n: int)
    requires
        0 <= n <= s.len(),
        forall|k: int| 0 <= k < n ==> s[k] != sep,
        n == s.len() || s[n] == sep,
    ensures
        until(s, sep) == n,
    decreases n,
{
    if n > 0 {
        lemma_until(s.skip(1), sep, n - 1);
    }
}

/// A run ends at the first character of the other kind.
pub proof fn lemma_run(s: Seq<char>, blank: bool, n: int)
    requires
        0 <= n <= s.len(),
        forall|k: int| 0 <= k < n ==> is_space(s[k]) == blank,
        n == s.len() || is_space(s[n]) != blank,
    ensures
        run(s, blank) == n,
    decreases n,
{
    if n > 0 {
        lemma_run(s.skip(1), blank, n - 1);
    }
}

/// The white space at the end of `s` begins after the last character that
/// is none.
pub proof fn lemma_trail(s: Seq<char>, n: int)
    requires
        0 <= n <= s.len(),
        forall|k: int| s.len() - n <= k < s.len() ==> is_space(s[k]),
        n == s.len() || !is_space(s[s.len() - n - 1]),
    ensures
        trail(s) == n,
    decreases n,
{
    if n > 0 {
        lemma_trail(s.drop_last(), n - 1);
    }
}

/// Digits never make a number smaller: what has grown beyond a limit stays
/// beyond it, whatever follows.
pub proof fn lemma_decimal_grows(s: Seq<char>, n: int)
    requires
        0 < n <= s.len(),
    ensures
        decimal(s.take(n)) is None ==> decimal(s) is None,
        decimal(s) matches Some(v) ==> decimal(s.take(n)) matches Some(w) && 0 <= w <= v,
    decreases s.len() - n,
{
    if n < s.len() {
        assert(s.drop_last().take(n) == s.take(n));
        lemma_decimal_grows(s.drop_last(), n);
    } else {
        assert(s.take(n) == s);
        lemma_decimal_sign(s);
    }
}

/// Decimal digits write no negative number.
pub proof fn lemma_decimal_sign(s: Seq<char>)
    ensures
        decimal(s) matches Some(v) ==> v >= 0,
    decreases s.len(),
{
    if s.len() > 1 {
        lemma_decimal_sign(s.drop_last());
    }
}

/// The pieces of the characters from `from` to `to` between the occurrences
/// of `sep`, each as the positions of its first character and of the one
/// after its last.
pub fn split(chars: &Vec<char>, from: usize, to: usize, sep: char) -> (r: Vec<(usize, usize)>)
    requires
        from <= to <= chars@.len(),
    ensures
        r@.len() == pieces(chars@.subrange(from as int, to as int), sep).len(),
        forall|k: int|
            0 <= k < r@.len() ==> from <= (#[trigger] r@[k]).0 <= r@[k].1 <= to && chars@.subrange(
                r@[k].0 as int,
                r@[k].1 as int,
            ) == pieces(chars@.subrange(from as int, to as int), sep)[k],
{
    let ghost whole = chars@.subrange(from as int, to as int);
    let mut r: Vec<(usize, usize)> = Vec::new();
    let mut start: usize = from;
    let mut i: usize = from;
    assert(chars@.subrange(start as int, to as int) == whole);
    while i < to
        invariant
            from <= start <= i <= to,
            to <= chars@.len(),
            whole == chars@.subrange(from as int, to as int),
            forall|k: int| start <= k < i ==> chars@[k] != sep,
            pieces(whole, sep).len() == r@.len() + pieces(
                chars@.subrange(start as int, to as int),
                sep,
            ).len(),
            forall|k: int|
                0 <= k < r@.len() ==> from <= (#[trigger] r@[k]).0 <= r@[k].1 <= to
                    && chars@.subrange(r@[k].0 as int, r@[k].1 as int) == pieces(whole, sep)[k],
            forall|k: int|
                0 <= k < pieces(chars@.subrange(start as int, to as int), sep).len() ==> pieces(
                    whole,
                    sep,
                )[r@.len() + k] == #[trigger] pieces(
                    chars@.subrange(start as int, to as int),
                    sep,
                )[k],
        decreases to - i,
    {
        if chars[i] == sep {
            proof {
                let rest = chars@.subrange(start as int, to as int);
                lemma_until(rest, sep, i - start);
                assert(rest.take(i - start) == chars@.subrange(start as int, i as int));
                assert(rest.skip(i - start + 1) == chars@.subrange(i + 1, to as int));
                let tail = pieces(chars@.subrange(i + 1, to as int), sep);
                assert(pieces(rest, sep) == seq![rest.take(i - start)] + tail);
                assert(pieces(rest, sep)[0] == rest.take(i - start));
                assert forall|k: int| 0 <= k < tail.len() implies pieces(whole, sep)[r@.len() + 1
                    + k] == #[trigger] tail[k] by {
                    assert(pieces(rest, sep)[k + 1] == tail[k]);
                }
            }
            r.push((start, i));
            start = i + 1;
        }
        i = i + 1;
    }
    proof {
        let rest = chars@.subrange(start as int, to as int);
        lemma_until(rest, sep, to - start);
        assert(pieces(rest, sep) == seq![rest]);
        assert(pieces(rest, sep)[0] == rest);
    }
    r.push((start, to));
    r
}

/// The words of the characters from `from` to `to`, each as the positions of
/// its first character and of the one after its last.
pub fn split_words(chars: &Vec<char>, from: usize, to: usize) -> (r: Vec<(usize, usize)>)
    requires
        from <= to <= chars@.len(),
    ensures
        r@.len() == words(chars@.subrange(from as int, to as int)).len(),
        forall|k: int|
            0 <= k < r@.len() ==> from <= (#[trigger] r@[k]).0 < r@[k].1 <= to && chars@.subrange(
                r@[k].0 as int,
                r@[k].1 as int,
            ) == words(chars@.subrange(from as int, to as int))[k],
{
    let ghost whole = chars@.subrange(from as int, to as int);
    let mut r: Vec<(usize, usize)> = Vec::new();
    let mut i: usize = from;
    assert(chars@.subrange(i as int, to as int) == whole);
    loop
        invariant
            from <= i <= to,
            to <= chars@.len(),
            whole == chars@.subrange(from as int, to as int),
            words(whole).len() == r@.len() + words(chars@.subrange(i as int, to as int)).len(),
            forall|k: int|
                0 <= k < r@.len() ==> from <= (#[trigger] r@[k]).0 < r@[k].1 <= to
                    && chars@.subrange(r@[k].0 as int, r@[k].1 as int) == words(whole)[k],
            forall|k: int|
                0 <= k < words(chars@.subrange(i as int, to as int)).len() ==> words(whole)[r@.len()
                    + k] == #[trigger] words(chars@.subrange(i as int, to as int))[k],
        ensures
            r@.len() == words(whole).len(),
            forall|k: int|
                0 <= k < r@.len() ==> from <= (#[trigger] r@[k]).0 < r@[k].1 <= to
                    && chars@.subrange(r@[k].0 as int, r@[k].1 as int) == words(whole)[k],
        decreases to - i,
    {
        let ghost begin = i;
        let mut a: usize = i;
        while a < to && space(chars[a])
            invariant
                i <= a <= to,
                to <= chars@.len(),
                forall|k: int| i <= k < a ==> is_space(chars@[k]),
            decreases to - a,
        {
            a = a + 1;
        }
        let mut b: usize = a;
        while b < to && !space(chars[b])
            invariant
                a <= b <= to,
                to <= chars@.len(),
                forall|k: int| a <= k < b ==> !is_space(chars@[k]),
            decreases to - b,
        {
            b = b + 1;
        }
        proof {
            let here = chars@.subrange(begin as int, to as int);
            lemma_run(here, true, a - begin);
            let rest = here.skip(a - begin);
            assert(rest == chars@.subrange(a as int, to as int));
            lemma_run(rest, false, b - a);
            if b > a {
                assert(rest.take(b - a) == chars@.subrange(a as int, b as int));
                assert(rest.skip(b - a) == chars@.subrange(b as int, to as int));
                let tail = words(chars@.subrange(b as int, to as int));
                assert(words(here) == seq![rest.take(b - a)] + tail);
                assert(words(here)[0] == rest.take(b - a));
                assert forall|k: int| 0 <= k < tail.len() implies words(whole)[r@.len() + 1 + k]
                    == #[trigger] tail[k] by {
                    assert(words(here)[k + 1] == tail[k]);
                }
            } else {
                assert(words(here).len() == 0);
            }
        }
        if b == a {
            break ;
        }
        r.push((a, b));
        i = b;
    }
    r
}

/// The positions between which the characters from `from` to `to` hold
/// something other than white space at both ends.
pub fn trim(chars: &Vec<char>, from: usize, to: usize) -> (r: (usize, usize))
    requires
        from <= to <= chars@.len(),
    ensures
        from <= r.0 <= r.1 <= to,
        chars@.subrange(r.0 as int, r.1 as int) == trimmed(chars@.subrange(from as int, to as int)),
{
    let ghost whole = chars@.subrange(from as int, to as int);
    let mut a: usize = from;
    while a < to && space(chars[a])
        invariant
            from <= a <= to,
            to <= chars@.len(),
            forall|k: int| from <= k < a ==> is_space(chars@[k]),
        decreases to - a,
    {
        a = a + 1;
    }
    let mut b: usize = to;
    while b > a && space(chars[b - 1])
        invariant
            a <= b <= to,
            to <= chars@.len(),
            forall|k: int| b <= k < to ==> is_space(chars@[k]),
        decreases b,
    {
        b = b - 1;
    }
    proof {
        lemma_run(whole, true, a - from);
        if a == to {
            assert forall|k: int| whole.len() - (to - from) <= k < whole.len() implies is_space(
                whole[k],
            ) by {}
            lemma_trail(whole, to - from);
            assert(chars@.subrange(a as int, b as int) =~= trimmed(whole));
        } else {
            lemma_trail(whole, to - b);
            assert(whole.subrange(a - from, whole.len() - (to - b)) == chars@.subrange(
                a as int,
                b as int,
            ));
        }
    }
    (a, b)
}

/// The number that the characters from `from` to `to` write.
pub fn parse_number(chars: &Vec<char>, from: usize, to: usize) -> (r: Option<u32>)
    requires
        from <= to <= chars@.len(),
    ensures
        r == number(chars@.subrange(from as int, to as int)),
{
    let ghost whole = chars@.subrange(from as int, to as int);
    let start: usize = if from < to && chars[from] == '+' {
        from + 1
    } else {
        from
    };
    let ghost digits = chars@.subrange(start as int, to as int);
    assert(digits == if whole.len() > 0 && whole[0] == '+' {
        whole.skip(1)
    } else {
        whole
    });
    if start == to {
        return None;
    }
    let mut value: u64 = 0;
    let mut i: usize = start;
    while i < to
        invariant
            start <= i <= to,
            start < to,
            to <= chars@.len(),
            digits == chars@.subrange(start as int, to as int),
            whole == chars@.subrange(from as int, to as int),
            digits == if whole.len() > 0 && whole[0] == '+' {
                whole.skip(1)
            } else {
                whole
            },
            value <= u32::MAX,
            i > start ==> decimal(digits.take(i - start)) == Some(value as int),
            i == start ==> value == 0,
        decreases to - i,
    {
        let c: char = chars[i];
        if !('0' <= c && c <= '9') {
            proof {
                assert(digits.take(i - start + 1).last() == c);
                assert(decimal(digits.take(i - start + 1)) is None);
                lemma_decimal_grows(digits, i - start + 1);
            }
            return None;
        }
        let d: u64 = (c as u32 - '0' as u32) as u64;
        value = value * 10 + d;
        proof {
            let now = digits.take(i - start + 1);
            assert(now.last() == c);
            assert(now.drop_last() == digits.take(i - start));
            assert(decimal(now) == Some(value as int));
        }
        if value > u32::MAX as u64 {
            proof {
                lemma_decimal_grows(digits, i - start + 1);
            }
            return None;
        }
        i = i + 1;
    }
    assert(digits.take(to - start) == digits);
    Some(value as u32)
}

} // verus!
