use crate::error::Error;
use crate::range::{range_of, Index, Range};
use crate::text::{split_on_str, split_str};
use vstd::prelude::*;

verus! {

/// Where an index lands in a sequence of length `n`; negative where a tail index
/// reaches back past the front.
pub open spec fn offset(ix: Index, n: int) -> int {
    match ix {
        Index::Head(i) => i as int,
        Index::Tail(i) => n - i,
    }
}

/// `start, start + step, start + 2 * step, ...` while below `end`; empty for a step
/// that is not positive.
pub open spec fn stepped(start: int, end: int, step: int) -> Seq<int>
    decreases (if start < end { end - start } else { 0 }),
{
    if step <= 0 || start >= end {
        Seq::empty()
    } else {
        seq![start] + stepped(start + step, end, step)
    }
}

/// The positions that `r` selects in a sequence of length `n`, in the order they are
/// emitted: the ascending stepped positions, last first when `r` is reversed.
pub open spec fn positions(r: Range, n: int) -> Seq<int> {
    let up = stepped(offset(r.start, n), offset(r.end, n), r.step as int);
    if r.reversed {
        up.reverse()
    } else {
        up
    }
}

/// Every position lies in `0..n`.
pub open spec fn within(ps: Seq<int>, n: int) -> bool {
    forall|k: int| 0 <= k < ps.len() ==> 0 <= #[trigger] ps[k] < n
}

/// Neither bound is a tail index that reaches back past the front of `n` fields.
pub open spec fn bounds_fit(r: Range, n: int) -> bool {
    offset(r.start, n) >= 0 && offset(r.end, n) >= 0
}

/// `r` can be applied to `n` fields: its bounds fit and every position it selects lies
/// in `0..n`.
pub open spec fn selectable(r: Range, n: int) -> bool {
    bounds_fit(r, n) && within(positions(r, n), n)
}

/// The fields at the given positions, in order.
pub open spec fn pick(fields: Seq<Seq<char>>, ps: Seq<int>) -> Seq<Seq<char>> {
    ps.map_values(|p: int| fields[p])
}

/// The tokens that the ranges select from the fields, range after range; or the
/// place of the first range that reaches outside the fields, by a bound or by a
/// selected position.
pub open spec fn select_spec(ranges: Seq<Range>, fields: Seq<Seq<char>>) -> Result<
    Seq<Seq<char>>,
    int,
>
    decreases ranges.len(),
{
    if ranges.len() == 0 {
        Ok(Seq::empty())
    } else {
        match select_spec(ranges.drop_last(), fields) {
            Err(k) => Err(k),
            Ok(t) => {
                let ps = positions(ranges.last(), fields.len() as int);
                if selectable(ranges.last(), fields.len() as int) {
                    Ok(t + pick(fields, ps))
                } else {
                    Err(ranges.len() - 1)
                }
            },
        }
    }
}

/// The text of a line's output: each token followed by one space.
pub open spec fn joined(tokens: Seq<Seq<char>>) -> Seq<char>
    decreases tokens.len(),
{
    if tokens.len() == 0 {
        Seq::empty()
    } else {
        joined(tokens.drop_last()) + tokens.last() + seq![' ']
    }
}

/// The output of one line whose fields are `fields`.
pub open spec fn line_spec(ranges: Seq<Range>, fields: Seq<Seq<char>>) -> Result<Seq<char>, int> {
    match select_spec(ranges, fields) {
        Ok(t) => Ok(joined(t)),
        Err(k) => Err(k),
    }
}

fn offset_of(ix: &Index, n: usize) -> (r: i128)
    ensures
        r == offset(*ix, n as int),
{
    match ix {
        Index::Head(i) => *i as i128,
        Index::Tail(i) => n as i128 - *i as i128,
    }
}

/// The ascending stepped positions from `start` below `end`, if all lie in `0..n`.
fn ascending(start: i128, end: i128, step: usize, n: usize) -> (r: Option<Vec<usize>>)
    requires
        step > 0,
        -(usize::MAX as int) <= start <= usize::MAX,
        -(usize::MAX as int) <= end <= usize::MAX,
    ensures
        match r {
            Some(v) => within(stepped(start as int, end as int, step as int), n as int)
                && v@.map_values(|p: usize| p as int) == stepped(
                start as int,
                end as int,
                step as int,
            ),
            None => !within(stepped(start as int, end as int, step as int), n as int),
        },
{
    let ghost all = stepped(start as int, end as int, step as int);
    let mut v: Vec<usize> = Vec::new();
    let mut p: i128 = start;
    while p < end
        invariant
            step > 0,
            -(usize::MAX as int) <= start <= p,
            p <= usize::MAX + step,
            -(usize::MAX as int) <= end <= usize::MAX,
            all == stepped(start as int, end as int, step as int),
            v@.map_values(|x: usize| x as int) + stepped(p as int, end as int, step as int) == all,
            forall|k: int| 0 <= k < v@.len() ==> #[trigger] v@[k] < n,
        decreases (if p < end { end - p } else { 0 }),
    {
        let ghost done = v@.map_values(|x: usize| x as int);
        assert(stepped(p as int, end as int, step as int) == seq![p as int] + stepped(
            p + step,
            end as int,
            step as int,
        ));
        assert(all[done.len() as int] == p);
        if p < 0 || p >= n as i128 {
            return None;
        }
        v.push(p as usize);
        assert(v@.map_values(|x: usize| x as int) == done.push(p as int));
        assert(done.push(p as int) + stepped(p + step, end as int, step as int) =~= done + (seq![
            p as int,
        ] + stepped(p + step, end as int, step as int)));
        p = p + step as i128;
    }
    let ghost done = v@.map_values(|x: usize| x as int);
    assert(done + stepped(p as int, end as int, step as int) =~= done);
    assert forall|k: int| 0 <= k < all.len() implies 0 <= #[trigger] all[k] < n by {
        assert(all[k] == done[k]);
    }
    Some(v)
}

/// The same items, last first.
fn reversed(v: Vec<usize>) -> (r: Vec<usize>)
    ensures
        r@ == v@.reverse(),
{
    let mut r: Vec<usize> = Vec::new();
    let mut j: usize = v.len();
    while j > 0
        invariant
            j <= v@.len(),
            r@ =~= v@.subrange(j as int, v@.len() as int).reverse(),
        decreases j,
    {
        j = j - 1;
        r.push(v[j]);
        assert(r@ =~= v@.subrange(j as int, v@.len() as int).reverse());
    }
    assert(v@.subrange(0, v@.len() as int) == v@);
    r
}

/// The positions that `r` selects among `n` fields, if `r` can be applied to them.
fn positions_of(r: &Range, n: usize) -> (res: Option<Vec<usize>>)
    ensures
        match res {
            Some(v) => selectable(*r, n as int) && v@.map_values(|p: usize| p as int)
                == positions(*r, n as int),
            None => !selectable(*r, n as int),
        },
{
    let start = offset_of(&r.start, n);
    let end = offset_of(&r.end, n);
    if start < 0 || end < 0 {
        return None;
    }
    if r.step == 0 {
        let v: Vec<usize> = Vec::new();
        assert(v@.map_values(|p: usize| p as int) =~= positions(*r, n as int));
        return Some(v);
    }
    match ascending(start, end, r.step, n) {
        None => {
            proof {
                let up = stepped(start as int, end as int, r.step as int);
                if r.reversed {
                    assert(!within(up, n as int));
                    let k = choose|k: int| 0 <= k < up.len() && !(0 <= #[trigger] up[k] < n);
                    assert(up.reverse()[up.len() - 1 - k] == up[k]);
                }
            }
            None
        },
        Some(up) => {
            if r.reversed {
                let down = reversed(up);
                proof {
                    let s = stepped(start as int, end as int, r.step as int);
                    assert(down@.map_values(|p: usize| p as int) =~= s.reverse());
                    assert forall|k: int| 0 <= k < s.len() implies 0 <= #[trigger] s.reverse()[k] < n by {
                        assert(s.reverse()[k] == s[s.len() - 1 - k]);
                    }
                }
                Some(down)
            } else {
                Some(up)
            }
        },
    }
}

/// Once a prefix of the ranges fails, all of them fail the same way.
proof fn lemma_select_failure_stays(ranges: Seq<Range>, fields: Seq<Seq<char>>, k: int)
    requires
        0 <= k <= ranges.len(),
        select_spec(ranges.take(k), fields) is Err,
    ensures
        select_spec(ranges, fields) == select_spec(ranges.take(k), fields),
    decreases ranges.len(),
{
    if k == ranges.len() {
        assert(ranges.take(k) == ranges);
    } else {
        assert(ranges.drop_last().take(k) == ranges.take(k));
        lemma_select_failure_stays(ranges.drop_last(), fields, k);
    }
}

/// Resolves each range against the number of fields and collects the fields it
/// selects, range after range. Fails on the first range that selects a position
/// outside the fields.
pub fn select(ranges: &Vec<Range>, fields: &Vec<String>) -> (r: Result<Vec<String>, Error>)
    ensures
        match r {
            Ok(t) => select_spec(ranges@, fields@.map_values(|s: String| s@)) == Ok::<
                Seq<Seq<char>>,
                int,
            >(t@.map_values(|s: String| s@)),
            Err(e) => match e {
                Error::IndexOutOfBounds { range, fields: count } => count == fields@.len()
                    && select_spec(ranges@, fields@.map_values(|s: String| s@)) == Err::<
                    Seq<Seq<char>>,
                    int,
                >(range as int),
                _ => false,
            },
        },
{
    let ghost texts = fields@.map_values(|s: String| s@);
    let n = fields.len();
    let mut out: Vec<String> = Vec::new();
    let mut i: usize = 0;
    assert(ranges@.take(0) =~= Seq::<Range>::empty());
    assert(out@.map_values(|s: String| s@) =~= Seq::<Seq<char>>::empty());
    while i < ranges.len()
        invariant
            i <= ranges@.len(),
            n == fields@.len(),
            texts == fields@.map_values(|s: String| s@),
            select_spec(ranges@.take(i as int), texts) == Ok::<Seq<Seq<char>>, int>(
                out@.map_values(|s: String| s@),
            ),
        decreases ranges@.len() - i,
    {
        let ghost prefix = ranges@.take(i as int + 1);
        assert(prefix.drop_last() == ranges@.take(i as int));
        assert(prefix.last() == ranges@[i as int]);
        match positions_of(&ranges[i], n) {
            None => {
                proof {
                    lemma_select_failure_stays(ranges@, texts, i as int + 1);
                }
                return Err(Error::IndexOutOfBounds { range: i, fields: n });
            },
            Some(ps) => {
                let ghost base = out@.map_values(|s: String| s@);
                let ghost want = ps@.map_values(|p: usize| p as int);
                let mut j: usize = 0;
                while j < ps.len()
                    invariant
                        j <= ps@.len(),
                        n == fields@.len(),
                        texts == fields@.map_values(|s: String| s@),
                        want == ps@.map_values(|p: usize| p as int),
                        within(want, n as int),
                        out@.map_values(|s: String| s@) == base + pick(
                            texts,
                            want.take(j as int),
                        ),
                    decreases ps@.len() - j,
                {
                    let p = ps[j];
                    assert(want[j as int] == p as int);
                    let ghost before = out@.map_values(|s: String| s@);
                    out.push(fields[p].clone());
                    assert(out@.map_values(|s: String| s@) =~= before.push(texts[p as int]));
                    assert(pick(texts, want.take(j as int + 1)) =~= pick(
                        texts,
                        want.take(j as int),
                    ).push(texts[p as int]));
                    assert(out@.map_values(|s: String| s@) =~= base + pick(
                        texts,
                        want.take(j as int + 1),
                    ));
                    j = j + 1;
                }
                assert(want.take(j as int) == want);
            },
        }
        i = i + 1;
    }
    assert(ranges@.take(i as int) == ranges@);
    Ok(out)
}

/// The output text of a line: each token followed by one space.
pub fn join_tokens(tokens: &Vec<String>) -> (r: String)
    ensures
        r@ == joined(tokens@.map_values(|s: String| s@)),
{
    let ghost texts = tokens@.map_values(|s: String| s@);
    let mut out = String::new();
    let mut i: usize = 0;
    assert(texts.take(0) =~= Seq::<Seq<char>>::empty());
    while i < tokens.len()
        invariant
            i <= tokens@.len(),
            texts == tokens@.map_values(|s: String| s@),
            out@ == joined(texts.take(i as int)),
        decreases tokens@.len() - i,
    {
        assert(texts.take(i as int + 1).drop_last() == texts.take(i as int));
        out.append(tokens[i].as_str());
        out.append(" ");
        proof {
            reveal_strlit(" ");
            assert(" "@ =~= seq![' ']);
        }
        i = i + 1;
    }
    assert(texts.take(i as int) == texts);
    out
}

/// The output of one line whose fields are already split: the selected fields, each
/// followed by one space; or the first range that reaches outside the fields.
pub fn cut_fields(ranges: &Vec<Range>, fields: &Vec<String>) -> (r: Result<String, Error>)
    ensures
        match r {
            Ok(s) => line_spec(ranges@, fields@.map_values(|s: String| s@)) == Ok::<
                Seq<char>,
                int,
            >(s@),
            Err(e) => match e {
                Error::IndexOutOfBounds { range, fields: count } => count == fields@.len()
                    && line_spec(ranges@, fields@.map_values(|s: String| s@)) == Err::<
                    Seq<char>,
                    int,
                >(range as int),
                _ => false,
            },
        },
{
    match select(ranges, fields) {
        Ok(tokens) => Ok(join_tokens(&tokens)),
        Err(e) => Err(e),
    }
}

/// The output of one line: its fields are the pieces between occurrences of `sep`.
pub fn cut_line(line: &str, sep: &str, ranges: &Vec<Range>) -> (r: Result<String, Error>)
    ensures
        match r {
            Ok(s) => line_spec(ranges@, split_str(line@, sep@)) == Ok::<Seq<char>, int>(s@),
            Err(e) => match e {
                Error::IndexOutOfBounds { range, fields: count } => count == split_str(
                    line@,
                    sep@,
                ).len() && line_spec(ranges@, split_str(line@, sep@)) == Err::<Seq<char>, int>(
                    range as int,
                ),
                _ => false,
            },
        },
{
    let fields = split_on_str(line, sep);
    cut_fields(ranges, &fields)
}

/// A range whose resolved interval is empty selects nothing, whatever the fields, as
/// long as no tail bound reaches back past the front.
pub proof fn lemma_empty_interval(r: Range, fields: Seq<Seq<char>>)
    requires
        bounds_fit(r, fields.len() as int),
        offset(r.start, fields.len() as int) >= offset(r.end, fields.len() as int),
    ensures
        positions(r, fields.len() as int) == Seq::<int>::empty(),
        select_spec(seq![r], fields) == Ok::<Seq<Seq<char>>, int>(Seq::empty()),
{
    let ps = positions(r, fields.len() as int);
    assert(ps =~= Seq::<int>::empty());
    assert(seq![r].drop_last() =~= Seq::<Range>::empty());
    assert(seq![r].last() == r);
    assert(select_spec(Seq::<Range>::empty(), fields) == Ok::<Seq<Seq<char>>, int>(Seq::empty()));
    assert(selectable(r, fields.len() as int));
    assert(pick(fields, ps) =~= Seq::<Seq<char>>::empty());
    assert(Seq::<Seq<char>>::empty() + pick(fields, ps) =~= Seq::<Seq<char>>::empty());
}

/// A reversed range selects the same positions as its forward twin, in the opposite
/// order.
pub proof fn lemma_reversal(start: Index, end: Index, step: usize, n: nat)
    ensures
        positions(Range { start, end, step, reversed: true }, n as int) == positions(
            Range { start, end, step, reversed: false },
            n as int,
        ).reverse(),
{
}

/// A negative step selects from the same fields as the positive step of the same size,
/// in the opposite order, and fails exactly when that one fails.
pub proof fn lemma_reversed_selection(start: Index, end: Index, k: int, fields: Seq<Seq<char>>)
    requires
        1 <= k <= isize::MAX,
        range_of(start, end, k) is Some,
    ensures
        range_of(start, end, -k) is Some,
        range_of(start, end, -k)->0.reversed,
        !range_of(start, end, k)->0.reversed,
        match select_spec(seq![range_of(start, end, k)->0], fields) {
            Ok(t) => select_spec(seq![range_of(start, end, -k)->0], fields) == Ok::<
                Seq<Seq<char>>,
                int,
            >(t.reverse()),
            Err(_) => select_spec(seq![range_of(start, end, -k)->0], fields) is Err,
        },
{
    let f = range_of(start, end, k)->0;
    let b = range_of(start, end, -k)->0;
    let n = fields.len() as int;
    let up = positions(f, n);
    assert(positions(b, n) == up.reverse());
    assert(seq![f].drop_last() =~= Seq::<Range>::empty());
    assert(seq![b].drop_last() =~= Seq::<Range>::empty());
    assert(seq![f].last() == f);
    assert(seq![b].last() == b);
    assert(select_spec(Seq::<Range>::empty(), fields) == Ok::<Seq<Seq<char>>, int>(Seq::empty()));
    if within(up, n) {
        assert forall|j: int| 0 <= j < up.len() implies 0 <= #[trigger] up.reverse()[j] < n by {
            assert(up.reverse()[j] == up[up.len() - 1 - j]);
        }
        assert(Seq::<Seq<char>>::empty() + pick(fields, up) =~= pick(fields, up));
        assert(Seq::<Seq<char>>::empty() + pick(fields, up.reverse()) =~= pick(fields, up).reverse());
    } else {
        let j = choose|j: int| 0 <= j < up.len() && !(0 <= #[trigger] up[j] < n);
        assert(up.reverse()[up.len() - 1 - j] == up[j]);
    }
}

} // verus!
