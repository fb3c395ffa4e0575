use crate::error::{Error, Fault, ParseRangeError};
use crate::text::{
    decimal, decimal_text, int_text, is_digit, isize_text, lemma_decimal, lemma_split_first,
    lemma_split_whole, parse_isize, is_single, split_char, split_on_char,
};
use vstd::prelude::*;

verus! {

/// A position relative to a sequence whose length is not known yet.
#[derive(Debug, Clone, Copy, PartialEq, Eq, Structural)]
pub enum Index {
    /// `n` positions from the front.
    Head(usize),
    /// `n` positions back from one past the end: `Tail(0)` is the end itself.
    Tail(usize),
}

/// The index that a signed integer denotes: non-negative ones count from the front,
/// negative ones from the back.
pub open spec fn index_of(v: int) -> Index {
    if v >= 0 {
        Index::Head(v as usize)
    } else {
        Index::Tail((-v) as usize)
    }
}

/// The index written by `s`: `+` is the front, `-` is the end, anything else an `isize`.
pub open spec fn index_text(s: Seq<char>) -> Option<Index> {
    if s == seq!['+'] {
        Some(Index::Head(0))
    } else if s == seq!['-'] {
        Some(Index::Tail(0))
    } else {
        match isize_text(s) {
            Some(v) => Some(index_of(v as int)),
            None => None,
        }
    }
}

impl std::str::FromStr for Index {
    type Err = Error;

    fn from_str(s: &str) -> (r: Result<Index, Error>)
        ensures
            match r {
                Ok(i) => index_text(s@) == Some(i),
                Err(e) => index_text(s@) is None && e.parse_fault() == Some((s@, Fault::Number)),
            },
    {
        match Index::from_text(s) {
            Ok(i) => Ok(i),
            Err(e) => Err(Error::ParseIntError { slice: s.to_owned(), source: e }),
        }
    }
}

/// The magnitude of a negative `isize`, which always fits in `usize`.
fn magnitude(v: isize) -> (r: usize)
    requires
        v < 0,
    ensures
        r == -(v as int),
{
    if v == isize::MIN {
        isize::MAX as usize + 1
    } else {
        (-v) as usize
    }
}

impl Index {
    pub fn new(index: isize) -> (r: Index)
        ensures
            r == index_of(index as int),
    {
        if index >= 0 {
            Index::Head(index as usize)
        } else {
            Index::Tail(magnitude(index))
        }
    }

    /// Reads an index: `+` for the front, `-` for the end, or a signed integer.
    pub fn from_text(s: &str) -> (r: Result<Index, std::num::ParseIntError>)
        ensures
            match r {
                Ok(i) => index_text(s@) == Some(i),
                Err(_) => index_text(s@) is None,
            },
    {
        if is_single(s, '+') {
            Ok(Index::Head(0))
        } else if is_single(s, '-') {
            Ok(Index::Tail(0))
        } else {
            match parse_isize(s) {
                Ok(v) => Ok(Index::new(v)),
                Err(e) => Err(e),
            }
        }
    }
}

fn render_index(ix: &Index) -> (r: String)
    ensures
        r@ == index_render(*ix),
{
    proof {
        reveal_strlit("-");
        assert("-"@ =~= seq!['-']);
    }
    match ix {
        Index::Head(i) => decimal_text(*i),
        Index::Tail(i) => {
            let mut out = String::new();
            out.append("-");
            if *i > 0 {
                let digits = decimal_text(*i);
                out.append(digits.as_str());
            }
            out
        },
    }
}

/// One parsed slice expression: two relative bounds, a step magnitude and a direction.
#[derive(Debug)]
pub struct Range {
    pub start: Index,
    pub end: Index,
    pub step: usize,
    pub reversed: bool,
}

/// Two ranges are equal when both have a zero step, or when all their fields match.
impl PartialEq for Range {
    fn eq(&self, other: &Range) -> (r: bool) {
        self.step == 0 && other.step == 0 || (self.start == other.start && self.end == other.end
            && self.step == other.step && self.reversed == other.reversed)
    }
}

impl vstd::std_specs::cmp::PartialEqSpecImpl for Range {
    open spec fn obeys_eq_spec() -> bool {
        true
    }

    open spec fn eq_spec(&self, other: &Range) -> bool {
        self.step == 0 && other.step == 0 || (self.start == other.start && self.end == other.end
            && self.step == other.step && self.reversed == other.reversed)
    }
}

/// Bounds that select nothing whatever the length: both from the front with
/// `start >= end`, or both from the back with `start <= end`.
pub open spec fn degenerate(start: Index, end: Index) -> bool {
    match (start, end) {
        (Index::Head(i), Index::Head(j)) => i >= j,
        (Index::Tail(i), Index::Tail(j)) => i <= j,
        _ => false,
    }
}

/// The range made of two bounds and a signed step; `None` where the bounds are
/// degenerate or the step is zero.
pub open spec fn range_of(start: Index, end: Index, step: int) -> Option<Range> {
    if degenerate(start, end) || step == 0 {
        None
    } else {
        Some(Range { start, end, step: (if step > 0 { step } else { -step }) as usize, reversed: step < 0 })
    }
}

impl Range {
    /// The range with the given bounds and signed step; `None` where the bounds are
    /// degenerate or the step is zero.
    pub fn new(start: Index, end: Index, step: isize) -> (r: Option<Range>)
        ensures
            r == range_of(start, end, step as int),
    {
        let empty = match (&start, &end) {
            (Index::Head(i), Index::Head(j)) => *i >= *j,
            (Index::Tail(i), Index::Tail(j)) => *i <= *j,
            _ => false,
        };
        if empty || step == 0 {
            None
        } else if step > 0 {
            Some(Range { start, end, step: step as usize, reversed: false })
        } else {
            Some(Range { start, end, step: magnitude(step), reversed: true })
        }
    }

    /// The slice expression `start:end:step` for this range.
    pub fn to_slice(&self) -> (r: String)
        ensures
            r@ == slice_text(*self),
    {
        let mut out = render_index(&self.start);
        out.append(":");
        let end = render_index(&self.end);
        out.append(end.as_str());
        out.append(":");
        if self.reversed {
            out.append("-");
        }
        let step = decimal_text(self.step);
        out.append(step.as_str());
        proof {
            reveal_strlit(":");
            reveal_strlit("-");
            assert(":"@ =~= seq![':']);
            assert("-"@ =~= seq!['-']);
            assert(out@ =~= slice_text(*self));
        }
        out
    }

    /// Whether the selected positions come out last first.
    pub fn is_reversed(&self) -> (r: bool)
        ensures
            r == self.reversed,
    {
        self.reversed
    }
}

/// The `i`-th part, or the empty text where there are fewer parts.
pub open spec fn part(parts: Seq<Seq<char>>, i: int) -> Seq<char> {
    if i < parts.len() {
        parts[i]
    } else {
        Seq::empty()
    }
}

/// A bound: empty text stands for `default`.
pub open spec fn bound_text(s: Seq<char>, default: Index) -> Option<Index> {
    if s.len() == 0 {
        Some(default)
    } else {
        index_text(s)
    }
}

/// A step: empty text stands for one.
pub open spec fn step_text(s: Seq<char>) -> Option<int> {
    if s.len() == 0 {
        Some(1)
    } else {
        match isize_text(s) {
            Some(v) => Some(v as int),
            None => None,
        }
    }
}

/// What the slice expression `s` denotes: a range, nothing (a degenerate range), or a
/// failure. The parts are split at colons; an empty start is the front, an empty end
/// the end, an empty step one.
pub open spec fn slice_spec(s: Seq<char>) -> Result<Option<Range>, Fault> {
    let parts = split_char(s, ':');
    if parts.len() > 3 {
        Err(Fault::Shape)
    } else {
        match (
            bound_text(part(parts, 0), Index::Head(0)),
            bound_text(part(parts, 1), Index::Tail(0)),
            step_text(part(parts, 2)),
        ) {
            (Some(a), Some(b), Some(k)) => if k == 0 {
                Err(Fault::Shape)
            } else {
                Ok(range_of(a, b, k))
            },
            _ => Err(Fault::Number),
        }
    }
}

/// The ranges of a list of slice expressions, in order, with degenerate ones left
/// out; or the first expression that fails, with its fault.
pub open spec fn ranges_spec(slices: Seq<Seq<char>>) -> Result<Seq<Range>, (Seq<char>, Fault)>
    decreases slices.len(),
{
    if slices.len() == 0 {
        Ok(Seq::empty())
    } else {
        match ranges_spec(slices.drop_last()) {
            Err(e) => Err(e),
            Ok(v) => match slice_spec(slices.last()) {
                Err(f) => Err((slices.last(), f)),
                Ok(None) => Ok(v),
                Ok(Some(r)) => Ok(v.push(r)),
            },
        }
    }
}

/// Once a prefix of the list fails, the whole list fails the same way.
proof fn lemma_ranges_failure_stays(slices: Seq<Seq<char>>, k: int)
    requires
        0 <= k <= slices.len(),
        ranges_spec(slices.take(k)) is Err,
    ensures
        ranges_spec(slices) == ranges_spec(slices.take(k)),
    decreases slices.len(),
{
    if k == slices.len() {
        assert(slices.take(k) == slices);
    } else {
        assert(slices.drop_last().take(k) == slices.take(k));
        lemma_ranges_failure_stays(slices.drop_last(), k);
    }
}

fn bound(s: &str, default: Index) -> (r: Result<Index, std::num::ParseIntError>)
    ensures
        match r {
            Ok(i) => bound_text(s@, default) == Some(i),
            Err(_) => bound_text(s@, default) is None,
        },
{
    if s.is_empty() {
        Ok(default)
    } else {
        Index::from_text(s)
    }
}

fn step(s: &str) -> (r: Result<isize, std::num::ParseIntError>)
    ensures
        match r {
            Ok(k) => step_text(s@) == Some(k as int),
            Err(_) => step_text(s@) is None,
        },
{
    if s.is_empty() {
        Ok(1)
    } else {
        parse_isize(s)
    }
}

/// Parses one slice expression such as `1:10:2`, `:-1`, `-3:` or `::-1`.
/// `Ok(None)` is a degenerate range, which selects nothing.
pub fn parse_slice(slice: &str) -> (r: Result<Option<Range>, Error>)
    ensures
        match r {
            Ok(o) => slice_spec(slice@) == Ok::<Option<Range>, Fault>(o),
            Err(e) => slice_spec(slice@) is Err && e.parse_fault() == Some(
                (slice@, slice_spec(slice@)->Err_0),
            ),
        },
{
    let parts = split_on_char(slice, ':');
    let ghost texts = parts@.map_values(|p: String| p@);
    assert(texts.len() == parts@.len());
    if parts.len() > 3 {
        return Err(Error::ParseRangeError(ParseRangeError { slice: slice.to_owned() }));
    }
    let start_text: &str = if parts.len() > 0 { parts[0].as_str() } else { "" };
    let end_text: &str = if parts.len() > 1 { parts[1].as_str() } else { "" };
    let step_text: &str = if parts.len() > 2 { parts[2].as_str() } else { "" };
    proof {
        reveal_strlit("");
        assert(start_text@ == part(texts, 0));
        assert(end_text@ == part(texts, 1));
        assert(step_text@ == part(texts, 2));
    }
    let start = match bound(start_text, Index::Head(0)) {
        Ok(i) => i,
        Err(e) => {
            return Err(Error::ParseIntError { slice: slice.to_owned(), source: e });
        },
    };
    let end = match bound(end_text, Index::Tail(0)) {
        Ok(i) => i,
        Err(e) => {
            return Err(Error::ParseIntError { slice: slice.to_owned(), source: e });
        },
    };
    let k = match step(step_text) {
        Ok(k) => k,
        Err(e) => {
            return Err(Error::ParseIntError { slice: slice.to_owned(), source: e });
        },
    };
    if k == 0 {
        return Err(Error::ParseRangeError(ParseRangeError { slice: slice.to_owned() }));
    }
    Ok(Range::new(start, end, k))
}

/// Parses every slice expression in order, leaving out degenerate ones; stops at the
/// first that fails.
pub fn parse(slices: Vec<String>) -> (r: Result<Vec<Range>, Error>)
    ensures
        match r {
            Ok(v) => ranges_spec(slices@.map_values(|s: String| s@)) == Ok::<Seq<Range>, (Seq<char>, Fault)>(v@),
            Err(e) => e.parse_fault() is Some && ranges_spec(
                slices@.map_values(|s: String| s@),
            ) == Err::<Seq<Range>, (Seq<char>, Fault)>(e.parse_fault()->0),
        },
{
    let ghost texts = slices@.map_values(|s: String| s@);
    let mut ranges: Vec<Range> = Vec::new();
    let mut i: usize = 0;
    while i < slices.len()
        invariant
            i <= slices@.len(),
            texts == slices@.map_values(|s: String| s@),
            ranges_spec(texts.take(i as int)) == Ok::<Seq<Range>, (Seq<char>, Fault)>(ranges@),
        decreases slices@.len() - i,
    {
        let ghost prefix = texts.take(i as int + 1);
        assert(prefix.drop_last() == texts.take(i as int));
        assert(prefix.last() == slices@[i as int]@);
        match parse_slice(slices[i].as_str()) {
            Ok(None) => {},
            Ok(Some(range)) => ranges.push(range),
            Err(e) => {
                proof {
                    lemma_ranges_failure_stays(texts, i as int + 1);
                }
                return Err(e);
            },
        }
        i = i + 1;
    }
    assert(texts.take(i as int) == texts);
    Ok(ranges)
}

/// How a bound is written: decimal digits from the front, a minus sign and digits from
/// the back, and a lone `-` for the end.
pub open spec fn index_render(ix: Index) -> Seq<char> {
    match ix {
        Index::Head(i) => decimal(i as nat),
        Index::Tail(i) => if i == 0 {
            seq!['-']
        } else {
            seq!['-'] + decimal(i as nat)
        },
    }
}

/// How a step is written: its magnitude, after a minus sign when reversed.
pub open spec fn step_render(step: usize, reversed: bool) -> Seq<char> {
    if reversed {
        seq!['-'] + decimal(step as nat)
    } else {
        decimal(step as nat)
    }
}

/// The slice expression `start:end:step` that denotes `r`.
pub open spec fn slice_text(r: Range) -> Seq<char> {
    index_render(r.start) + seq![':'] + index_render(r.end) + seq![':'] + step_render(
        r.step,
        r.reversed,
    )
}

/// An index that a slice expression can write: its magnitude fits in `isize`.
pub open spec fn index_fits(ix: Index) -> bool {
    match ix {
        Index::Head(i) => i <= isize::MAX,
        Index::Tail(i) => i <= isize::MAX + 1,
    }
}

/// A range that parsing can yield: a positive step that fits in `isize` with its sign,
/// bounds that fit, and bounds that are not degenerate.
pub open spec fn expressible(r: Range) -> bool {
    &&& r.step > 0
    &&& !degenerate(r.start, r.end)
    &&& index_fits(r.start)
    &&& index_fits(r.end)
    &&& if r.reversed {
        r.step <= isize::MAX + 1
    } else {
        r.step <= isize::MAX
    }
}

/// Decimal text reads back as its value, and as its negation after a minus sign;
/// neither holds a colon.
proof fn lemma_signed_text(i: nat)
    ensures
        i <= isize::MAX ==> isize_text(decimal(i)) == Some(i as isize),
        0 < i <= isize::MAX + 1 ==> isize_text(seq!['-'] + decimal(i)) == Some((-i) as isize),
        decimal(i).len() > 0,
        decimal(i)[0] != '+' && decimal(i)[0] != '-',
        !decimal(i).contains(':'),
        !(seq!['-'] + decimal(i)).contains(':'),
{
    lemma_decimal(i);
    let d = decimal(i);
    let m = seq!['-'] + d;
    assert(is_digit(d[0]));
    assert(m.drop_first() =~= d);
    assert(int_text(d) == Some(i as int));
    assert(int_text(m) == Some(-(i as int)));
    assert(!d.contains(':')) by {
        if d.contains(':') {
            let k = choose|k: int| 0 <= k < d.len() && d[k] == ':';
            assert(is_digit(d[k]));
        }
    }
    assert(!m.contains(':')) by {
        if m.contains(':') {
            let k = choose|k: int| 0 <= k < m.len() && m[k] == ':';
            assert(k > 0);
            assert(m[k] == d[k - 1]);
        }
    }
}

/// A non-negative integer `i` written in decimal reads as `Head(i)`, and `-i` for a
/// positive `i` reads as `Tail(i)`: as an index, and as the start bound of a slice.
pub proof fn lemma_index_text(i: nat)
    ensures
        i <= isize::MAX ==> index_text(decimal(i)) == Some(Index::Head(i as usize)) && bound_text(
            decimal(i),
            Index::Head(0),
        ) == Some(Index::Head(i as usize)),
        0 < i <= isize::MAX + 1 ==> index_text(seq!['-'] + decimal(i)) == Some(
            Index::Tail(i as usize),
        ) && bound_text(seq!['-'] + decimal(i), Index::Head(0)) == Some(Index::Tail(i as usize)),
{
    lemma_signed_text(i);
    let d = decimal(i);
    let m = seq!['-'] + d;
    assert(d != seq!['+'] && d != seq!['-']) by {
        assert(seq!['+'][0] == '+');
        assert(seq!['-'][0] == '-');
    }
    assert(m != seq!['+'] && m != seq!['-']) by {
        assert(m.len() > 1);
        assert(m[0] == '-');
    }
}

/// An expressible index is written without colons and reads back as itself.
proof fn lemma_index_render(ix: Index)
    requires
        index_fits(ix),
    ensures
        index_render(ix).len() > 0,
        !index_render(ix).contains(':'),
        bound_text(index_render(ix), Index::Head(0)) == Some(ix),
        bound_text(index_render(ix), Index::Tail(0)) == Some(ix),
{
    match ix {
        Index::Head(i) => {
            lemma_index_text(i as nat);
            lemma_signed_text(i as nat);
        },
        Index::Tail(i) => {
            if i == 0 {
                assert(!seq!['-'].contains(':')) by {
                    assert(seq!['-'][0] == '-');
                }
            } else {
                lemma_index_text(i as nat);
                lemma_signed_text(i as nat);
            }
        },
    }
}

/// Writing an expressible range as `start:end:step` and parsing that text gives the
/// same range back, so the text selects exactly what the range selects.
pub proof fn lemma_slice_round_trip(r: Range)
    requires
        expressible(r),
    ensures
        slice_spec(slice_text(r)) == Ok::<Option<Range>, Fault>(Some(r)),
{
    let a = index_render(r.start);
    let b = index_render(r.end);
    let c = step_render(r.step, r.reversed);
    lemma_index_render(r.start);
    lemma_index_render(r.end);
    lemma_signed_text(r.step as nat);
    assert(c.len() > 0 && !c.contains(':'));
    lemma_split_whole(c, ':');
    lemma_split_first(b, ':', c);
    lemma_split_first(a, ':', b + seq![':'] + c);
    assert(slice_text(r) =~= a + seq![':'] + (b + seq![':'] + c));
    let parts = split_char(slice_text(r), ':');
    assert(parts =~= seq![a, b, c]);
    assert(part(parts, 0) == a && part(parts, 1) == b && part(parts, 2) == c);
    let k: int = if r.reversed { -(r.step as int) } else { r.step as int };
    assert(step_text(c) == Some(k));
}

} // verus!
