use vstd::prelude::*;
use vstd::string::StrSliceExecFns;

verus! {

/// A decimal digit.
pub open spec fn is_digit(c: char) -> bool {
    '0' <= c && c <= '9'
}

pub open spec fn digit_value(c: char) -> int {
    c as int - '0' as int
}

/// A non-empty run of decimal digits.
pub open spec fn is_digits(s: Seq<char>) -> bool {
    s.len() > 0 && forall|i: int| 0 <= i < s.len() ==> is_digit(#[trigger] s[i])
}

/// The value of a run of decimal digits, most significant first.
pub open spec fn digits_value(s: Seq<char>) -> int
    decreases s.len(),
{
    if s.len() == 0 {
        0
    } else {
        digits_value(s.drop_last()) * 10 + digit_value(s.last())
    }
}

/// The integer written by `s`: an optional `+` or `-`, then decimal digits.
pub open spec fn int_text(s: Seq<char>) -> Option<int> {
    if s.len() > 0 && (s[0] == '+' || s[0] == '-') {
        let d = s.drop_first();
        if is_digits(d) {
            Some(if s[0] == '-' { -digits_value(d) } else { digits_value(d) })
        } else {
            None
        }
    } else if is_digits(s) {
        Some(digits_value(s))
    } else {
        None
    }
}

/// The `isize` written by `s`, if `s` writes an integer in `isize`'s range.
pub open spec fn isize_text(s: Seq<char>) -> Option<isize> {
    match int_text(s) {
        Some(v) => if isize::MIN <= v <= isize::MAX {
            Some(v as isize)
        } else {
            None
        },
        None => None,
    }
}

/// The pieces of `s` between the occurrences of `c`, in order; at least one.
pub open spec fn split_char(s: Seq<char>, c: char) -> Seq<Seq<char>>
    decreases s.len(),
{
    if s.len() == 0 {
        seq![Seq::<char>::empty()]
    } else {
        let rest = split_char(s.drop_first(), c);
        if s[0] == c {
            seq![Seq::<char>::empty()] + rest
        } else {
            rest.update(0, seq![s[0]] + rest[0])
        }
    }
}

/// The pieces of `s` between the leftmost non-overlapping occurrences of a non-empty
/// `sep`, in order; at least one.
pub open spec fn split_nonempty(s: Seq<char>, sep: Seq<char>) -> Seq<Seq<char>>
    decreases s.len(),
{
    if sep.len() == 0 || s.len() == 0 {
        seq![Seq::<char>::empty()]
    } else if sep.len() <= s.len() && s.take(sep.len() as int) == sep {
        seq![Seq::<char>::empty()] + split_nonempty(s.skip(sep.len() as int), sep)
    } else {
        let rest = split_nonempty(s.drop_first(), sep);
        rest.update(0, seq![s[0]] + rest[0])
    }
}

/// The fields of `line` between occurrences of `sep`. An empty separator matches
/// before every character and at the end, so every character is a field of its own,
/// between two empty ones.
pub open spec fn split_str(line: Seq<char>, sep: Seq<char>) -> Seq<Seq<char>> {
    if sep.len() == 0 {
        seq![Seq::<char>::empty()] + line.map_values(|c: char| seq![c]) + seq![
            Seq::<char>::empty(),
        ]
    } else {
        split_nonempty(line, sep)
    }
}

/// Whether `s` is the single character `c`.
pub(crate) fn is_single(s: &str, c: char) -> (r: bool)
    ensures
        r == (s@ == seq![c]),
{
    if s.unicode_len() == 1 {
        let first = s.get_char(0);
        proof {
            if first == c {
                assert(s@ =~= seq![c]);
            }
        }
        first == c
    } else {
        false
    }
}

/// Relies on `isize`'s `FromStr` (`str::parse::<isize>`): it accepts exactly an optional
/// sign followed by decimal digits whose value fits in `isize`.
#[verifier::external_body]
pub(crate) fn parse_isize(s: &str) -> (r: Result<isize, std::num::ParseIntError>)
    ensures
        match r {
            Ok(v) => isize_text(s@) == Some(v),
            Err(_) => isize_text(s@) is None,
        },
{
    s.parse::<isize>()
}

/// Relies on `str::split` with a `char` pattern: the pieces between the occurrences of `c`.
#[verifier::external_body]
pub(crate) fn split_on_char(s: &str, c: char) -> (r: Vec<String>)
    ensures
        r@.map_values(|p: String| p@) == split_char(s@, c),
{
    s.split(c).map(String::from).collect()
}

/// Relies on `str::split` with a `&str` pattern: the pieces between the leftmost
/// non-overlapping matches of `sep`; an empty `sep` matches at every character boundary.
#[verifier::external_body]
pub(crate) fn split_on_str(line: &str, sep: &str) -> (r: Vec<String>)
    ensures
        r@.map_values(|p: String| p@) == split_str(line@, sep@),
{
    line.split(sep).map(String::from).collect()
}

/// The digit character for `d < 10`.
pub open spec fn digit_char(d: int) -> char {
    seq!['0', '1', '2', '3', '4', '5', '6', '7', '8', '9'][d]
}

/// `n` written in decimal, with no leading zeros.
pub open spec fn decimal(n: nat) -> Seq<char>
    decreases n,
{
    if n < 10 {
        seq![digit_char(n as int)]
    } else {
        decimal(n / 10).push(digit_char((n % 10) as int))
    }
}

/// The decimal text of `n` is a run of digits whose value is `n`.
pub proof fn lemma_decimal(n: nat)
    ensures
        is_digits(decimal(n)),
        digits_value(decimal(n)) == n,
    decreases n,
{
    let d = n % 10;
    assert(digit_value(digit_char(d as int)) == d);
    assert(digits_value(decimal(n)) == digits_value(decimal(n).drop_last()) * 10 + digit_value(
        decimal(n).last(),
    ));
    if n < 10 {
        assert(d == n);
        assert(decimal(n).drop_last() =~= Seq::<char>::empty());
        assert(digits_value(Seq::<char>::empty()) == 0);
        assert(decimal(n).last() == digit_char(d as int));
    } else {
        lemma_decimal(n / 10);
        assert(decimal(n).drop_last() =~= decimal(n / 10));
        assert(decimal(n).last() == digit_char(d as int));
        assert(n == (n / 10) * 10 + d);
        assert forall|i: int| 0 <= i < decimal(n).len() implies is_digit(#[trigger] decimal(n)[i]) by {
            if i < decimal(n).len() - 1 {
                assert(decimal(n)[i] == decimal(n / 10)[i]);
            }
        }
    }
}

/// Text without `c` is one piece.
pub proof fn lemma_split_whole(a: Seq<char>, c: char)
    requires
        !a.contains(c),
    ensures
        split_char(a, c) == seq![a],
    decreases a.len(),
{
    if a.len() > 0 {
        assert(!a.drop_first().contains(c)) by {
            if a.drop_first().contains(c) {
                let k = choose|k: int| 0 <= k < a.drop_first().len() && a.drop_first()[k] == c;
                assert(a[k + 1] == c);
            }
        }
        lemma_split_whole(a.drop_first(), c);
        assert(a[0] != c) by {
            assert(a.contains(a[0]));
        }
        assert(seq![a[0]] + a.drop_first() =~= a);
        assert(split_char(a.drop_first(), c).update(0, seq![a[0]] + a.drop_first()) =~= seq![a]);
    } else {
        assert(a =~= Seq::<char>::empty());
    }
}

/// A piece without `c`, then `c`, then the rest: that piece comes first.
pub proof fn lemma_split_first(a: Seq<char>, c: char, rest: Seq<char>)
    requires
        !a.contains(c),
    ensures
        split_char(a + seq![c] + rest, c) == seq![a] + split_char(rest, c),
    decreases a.len(),
{
    let s = a + seq![c] + rest;
    if a.len() == 0 {
        assert(a =~= Seq::<char>::empty());
        assert(s.drop_first() =~= rest);
        assert(s[0] == c);
    } else {
        assert(!a.drop_first().contains(c)) by {
            if a.drop_first().contains(c) {
                let k = choose|k: int| 0 <= k < a.drop_first().len() && a.drop_first()[k] == c;
                assert(a[k + 1] == c);
            }
        }
        lemma_split_first(a.drop_first(), c, rest);
        assert(s.drop_first() =~= a.drop_first() + seq![c] + rest);
        assert(s[0] == a[0]);
        assert(a[0] != c) by {
            assert(a.contains(a[0]));
        }
        assert(seq![a[0]] + a.drop_first() =~= a);
        assert((seq![a.drop_first()] + split_char(rest, c)).update(0, seq![a[0]] + a.drop_first())
            =~= seq![a] + split_char(rest, c));
    }
}

/// Relies on `usize`'s `Display` (`to_string`): decimal digits with no leading zeros.
#[verifier::external_body]
pub(crate) fn decimal_text(n: usize) -> (r: String)
    ensures
        r@ == decimal(n as nat),
{
    n.to_string()
}

} // verus!
