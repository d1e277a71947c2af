//! A segment seen from another start: its ranges moved by whole periods
//! into the period that begins there.

use crate::sorting::{
    key_le, lemma_stable_sorted, lemma_stable_sorted_members, lemma_stable_sorted_pairwise,
    stable_sorted,
};
use crate::spans::{ordered, TimeRange};
use crate::time_segment::{covers, lemma_turn, lemma_turns_add, recurs, segment_wf, turns};
use itertools::Itertools;
use vstd::arithmetic::div_mod::{
    lemma_fundamental_div_mod, lemma_fundamental_div_mod_converse, lemma_mod_bound,
};
use vstd::prelude::*;

verus! {

/// A span of time whose ends may lie a period beyond the range of the clock.
#[derive(Debug, Clone, Copy, PartialEq, Eq, Structural)]
pub struct Stretch {
    pub start: i128,
    pub end: i128,
}

/// The instant of the period that begins at `start` which lies a whole
/// number of periods from `instant`.
pub open spec fn aligned(instant: int, start: int, period: int) -> int {
    start + (instant - start) % period
}

/// The range, moved by whole periods so that it begins in the period that
/// begins at `start`.
pub open spec fn shifted(range: TimeRange, start: int, period: int) -> Stretch {
    Stretch {
        start: aligned(range.start as int, start, period) as i128,
        end: (aligned(range.start as int, start, period) + range.end - range.start) as i128,
    }
}

/// Each range moved into the period that begins at `start`.
pub open spec fn shifted_all(ranges: Seq<TimeRange>, start: int, period: int) -> Seq<Stretch> {
    Seq::new(ranges.len(), |i: int| shifted(ranges[i], start, period))
}

/// A stretch that reaches beyond the period that begins at `start` is cut
/// there, and what lies beyond is moved to the beginning of the period.
pub open spec fn pieces(stretch: Stretch, start: int, period: int) -> Seq<Stretch> {
    if stretch.end <= start + period {
        seq![stretch]
    } else {
        seq![
            Stretch { start: stretch.start, end: (start + period) as i128 },
            Stretch { start: start as i128, end: (stretch.end - period) as i128 },
        ]
    }
}

/// The pieces of each stretch, in the order of the stretches.
pub open spec fn split_all(stretches: Seq<Stretch>, start: int, period: int) -> Seq<Stretch>
    decreases stretches.len(),
{
    if stretches.len() == 0 {
        Seq::empty()
    } else {
        split_all(stretches.drop_last(), start, period) + pieces(stretches.last(), start, period)
    }
}

/// Stretches are sorted by their start.
pub open spec fn stretch_key() -> spec_fn(Stretch) -> (int, int) {
    |stretch: Stretch| (stretch.start as int, 0int)
}

/// The stretches as ranges.
pub open spec fn narrowed(stretches: Seq<Stretch>) -> Seq<TimeRange> {
    Seq::new(
        stretches.len(),
        |i: int| TimeRange { start: stretches[i].start as i64, end: stretches[i].end as i64 },
    )
}

/// The ranges of a segment as they lie in the period that begins at `start`:
/// each one moved there, cut where it leaves the period, and all in order.
pub open spec fn moved_ranges(ranges: Seq<TimeRange>, start: int, period: int) -> Seq<TimeRange> {
    narrowed(
        stable_sorted(
            split_all(
                stable_sorted(shifted_all(ranges, start, period), stretch_key()),
                start,
                period,
            ),
            stretch_key(),
        ),
    )
}

/// A stretch begins in the period that begins at `start`, is not empty and
/// no longer than a period.
pub open spec fn in_period(stretch: Stretch, start: int, period: int) -> bool {
    start <= stretch.start < start + period && stretch.start < stretch.end <= stretch.start
        + period
}

/// itertools' `sorted_by_key` sorts the items with `slice::sort_by_key`, a
/// stable sort: the stretches come back in ascending order of start,
/// stretches of equal start in the order in which they came.
#[verifier::external_body]
fn sorted_by_start(stretches: Vec<Stretch>) -> (sorted: Vec<Stretch>)
    ensures
        sorted@ == stable_sorted(stretches@, stretch_key()),
{
    stretches.into_iter().sorted_by_key(|stretch| stretch.start).collect()
}

/// Moves an instant by whole periods into the period that begins at `start`.
fn align(instant: i64, start: i64, period: i64) -> (moved: i128)
    requires
        period > 0,
    ensures
        moved == aligned(instant as int, start as int, period as int),
        start <= moved < start + period,
{
    let diff: i128 = instant as i128 - start as i128;
    let wide: i128 = period as i128;
    proof {
        lemma_mod_bound(diff as int, wide as int);
    }
    let rest: i128 = if diff >= 0 {
        diff % wide
    } else {
        let beyond: i128 = (-diff) % wide;
        proof {
            let d = diff as int;
            let p = wide as int;
            lemma_fundamental_div_mod(-d, p);
            let q = (-d) / p;
            assert(p * q == q * p) by (nonlinear_arith);
            if beyond == 0 {
                assert(d == (-q) * p + 0) by (nonlinear_arith)
                    requires
                        -d == q * p + 0,
                ;
                lemma_fundamental_div_mod_converse(d, p, -q, 0);
            } else {
                assert(d == (-q - 1) * p + (p - beyond)) by (nonlinear_arith)
                    requires
                        -d == q * p + beyond,
                ;
                lemma_fundamental_div_mod_converse(d, p, -q - 1, p - beyond);
            }
        }
        if beyond == 0 {
            0
        } else {
            wide - beyond
        }
    };
    start as i128 + rest
}

/// The ranges of a segment with the given `period` as they lie in the
/// period that begins at `start`.
#[verifier::rlimit(40)]
pub fn ranges_with_start(ranges: &Vec<TimeRange>, period: i64, start: i64) -> (moved: Vec<
    TimeRange,
>)
    requires
        period > 0,
        start + period <= i64::MAX,
        forall|i: int|
            0 <= i < ranges.len() ==> (#[trigger] ranges[i]).start < ranges[i].end
                <= ranges[i].start + period,
    ensures
        moved@ == moved_ranges(ranges@, start as int, period as int),
        forall|i: int|
            0 <= i < moved.len() ==> start <= (#[trigger] moved[i]).start < moved[i].end <= start
                + period,
{
    let mut stretches: Vec<Stretch> = Vec::new();
    let mut i: usize = 0;
    while i < ranges.len()
        invariant
            0 <= i <= ranges.len(),
            period > 0,
            forall|i: int|
                0 <= i < ranges.len() ==> (#[trigger] ranges[i]).start < ranges[i].end
                    <= ranges[i].start + period,
            stretches@ == shifted_all(ranges@.subrange(0, i as int), start as int, period as int),
            forall|j: int|
                0 <= j < stretches.len() ==> in_period(
                    #[trigger] stretches[j],
                    start as int,
                    period as int,
                ),
        decreases ranges.len() - i,
    {
        let range = ranges[i];
        let from = align(range.start, start, period);
        let stretch = Stretch { start: from, end: from + (range.end as i128 - range.start as i128) };
        proof {
            assert(ranges@.subrange(0, i + 1) =~= ranges@.subrange(0, i as int).push(range));
            assert(stretches@.push(stretch) =~= shifted_all(
                ranges@.subrange(0, i + 1),
                start as int,
                period as int,
            ));
        }
        stretches.push(stretch);
        i += 1;
    }
    proof {
        assert(ranges@.subrange(0, i as int) =~= ranges@);
        lemma_sorted_all(stretches@, start as int, period as int);
    }
    let stretches = sorted_by_start(stretches);
    let mut cut: Vec<Stretch> = Vec::new();
    let mut j: usize = 0;
    while j < stretches.len()
        invariant
            0 <= j <= stretches.len(),
            period > 0,
            start + period <= i64::MAX,
            forall|j: int|
                0 <= j < stretches.len() ==> in_period(
                    #[trigger] stretches[j],
                    start as int,
                    period as int,
                ),
            cut@ == split_all(stretches@.subrange(0, j as int), start as int, period as int),
            forall|k: int|
                0 <= k < cut.len() ==> start <= (#[trigger] cut[k]).start < cut[k].end <= start
                    + period,
        decreases stretches.len() - j,
    {
        let stretch = stretches[j];
        let ghost before = cut@;
        proof {
            assert(stretches@.subrange(0, j + 1).drop_last() =~= stretches@.subrange(0, j as int));
            assert(stretches@.subrange(0, j + 1).last() == stretch);
        }
        if stretch.end <= start as i128 + period as i128 {
            cut.push(stretch);
            proof {
                assert(cut@ =~= before + seq![stretch]);
            }
        } else {
            let head = Stretch { start: stretch.start, end: start as i128 + period as i128 };
            let rest = Stretch { start: start as i128, end: stretch.end - period as i128 };
            cut.push(head);
            cut.push(rest);
            proof {
                assert(cut@ =~= before + seq![head, rest]);
            }
        }
        j += 1;
    }
    proof {
        assert(stretches@.subrange(0, j as int) =~= stretches@);
        lemma_sorted_bounds(cut@, start as int, period as int);
    }
    let cut = sorted_by_start(cut);
    let mut moved: Vec<TimeRange> = Vec::new();
    let mut k: usize = 0;
    while k < cut.len()
        invariant
            0 <= k <= cut.len(),
            start + period <= i64::MAX,
            forall|k: int|
                0 <= k < cut.len() ==> start <= (#[trigger] cut[k]).start < cut[k].end <= start
                    + period,
            moved@ == narrowed(cut@.subrange(0, k as int)),
        decreases cut.len() - k,
    {
        let stretch = cut[k];
        proof {
            assert(moved@.push(
                TimeRange { start: stretch.start as i64, end: stretch.end as i64 },
            ) =~= narrowed(cut@.subrange(0, k + 1)));
        }
        moved.push(TimeRange { start: stretch.start as i64, end: stretch.end as i64 });
        k += 1;
    }
    proof {
        assert(cut@.subrange(0, k as int) =~= cut@);
    }
    moved
}

/// Sorting keeps every stretch in the period.
proof fn lemma_sorted_all(stretches: Seq<Stretch>, start: int, period: int)
    requires
        forall|j: int|
            0 <= j < stretches.len() ==> in_period(#[trigger] stretches[j], start, period),
    ensures
        forall|j: int|
            0 <= j < stable_sorted(stretches, stretch_key()).len() ==> in_period(
                #[trigger] stable_sorted(stretches, stretch_key())[j],
                start,
                period,
            ),
{
    crate::sorting::lemma_stable_sorted_members(stretches, stretch_key());
    let sorted = stable_sorted(stretches, stretch_key());
    assert forall|j: int| 0 <= j < sorted.len() implies in_period(
        #[trigger] sorted[j],
        start,
        period,
    ) by {
        assert(stretches.contains(sorted[j]));
        let i = choose|i: int| 0 <= i < stretches.len() && stretches[i] == sorted[j];
        assert(in_period(stretches[i], start, period));
    }
}

/// Sorting keeps every stretch within the period.
proof fn lemma_sorted_bounds(stretches: Seq<Stretch>, start: int, period: int)
    requires
        forall|k: int|
            0 <= k < stretches.len() ==> start <= (#[trigger] stretches[k]).start
                < stretches[k].end <= start + period,
    ensures
        forall|k: int|
            0 <= k < stable_sorted(stretches, stretch_key()).len() ==> start <= (
            #[trigger] stable_sorted(stretches, stretch_key())[k]).start < stable_sorted(
                stretches,
                stretch_key(),
            )[k].end <= start + period,
{
    crate::sorting::lemma_stable_sorted_members(stretches, stretch_key());
    let sorted = stable_sorted(stretches, stretch_key());
    assert forall|k: int| 0 <= k < sorted.len() implies start <= (#[trigger] sorted[k]).start
        < sorted[k].end <= start + period by {
        assert(stretches.contains(sorted[k]));
        let i = choose|i: int| 0 <= i < stretches.len() && stretches[i] == sorted[k];
        assert(start <= stretches[i].start);
    }
}

/// The stretch `a` meets the stretch `b` as it recurs `turn` periods on.
pub open spec fn clash(a: Stretch, b: Stretch, turn: int, period: int) -> bool {
    a.start < b.end + turn * period && b.start + turn * period < a.end
}

/// The stretch `a` meets the stretch `b` nowhere as it recurs.
pub open spec fn never_clash(a: Stretch, b: Stretch, period: int) -> bool {
    forall|turn: int| !#[trigger] clash(a, b, turn, period)
}

/// Two stretches have no instant in common.
pub open spec fn disjoint(a: Stretch, b: Stretch) -> bool {
    a.end <= b.start || b.end <= a.start
}

/// A range that is moved into the period that begins at `start` is moved
/// by a whole number of periods.
proof fn lemma_shifted(range: TimeRange, start: int, period: int)
    requires
        period > 0,
        range.start < range.end <= range.start + period,
        i64::MIN <= start,
        start + period <= i64::MAX,
    ensures
        in_period(shifted(range, start, period), start, period),
        shifted(range, start, period).start == range.start - turns(
            range.start as int,
            start,
            period,
        ) * period,
        shifted(range, start, period).end == range.end - turns(range.start as int, start, period)
            * period,
{
    let x = range.start - start;
    lemma_mod_bound(x, period);
    lemma_fundamental_div_mod(x, period);
    assert(period * (x / period) == (x / period) * period) by (nonlinear_arith);
}

/// Ranges that lie apart within one period never meet as they recur, nor
/// when they are moved by whole periods.
proof fn lemma_shifted_apart(a: TimeRange, b: TimeRange, from: int, start: int, period: int)
    requires
        period > 0,
        from <= a.start < a.end <= from + period,
        from <= b.start < b.end <= from + period,
        a.end <= b.start || b.end <= a.start,
        i64::MIN <= start,
        start + period <= i64::MAX,
    ensures
        never_clash(shifted(a, start, period), shifted(b, start, period), period),
{
    let sa = shifted(a, start, period);
    let sb = shifted(b, start, period);
    let qa = turns(a.start as int, start, period);
    let qb = turns(b.start as int, start, period);
    lemma_shifted(a, start, period);
    lemma_shifted(b, start, period);
    assert forall|turn: int| !#[trigger] clash(sa, sb, turn, period) by {
        let c = turn - qb + qa;
        lemma_turns_add(turn - qb, qa, period);
        lemma_turns_add(turn, qb, period);
        lemma_turn(c, period);
    }
}

/// `piece` is a piece of one of the stretches.
pub open spec fn piece_of(stretches: Seq<Stretch>, start: int, period: int, piece: Stretch) -> bool {
    exists|j: int|
        0 <= j < stretches.len() && #[trigger] pieces(stretches[j], start, period).contains(piece)
}

/// Every piece of a stretch lies within the period, and the pieces of one
/// stretch have no instant in common.
proof fn lemma_pieces(stretch: Stretch, start: int, period: int)
    requires
        period > 0,
        i64::MIN <= start,
        start + period <= i64::MAX,
        in_period(stretch, start, period),
    ensures
        1 <= pieces(stretch, start, period).len() <= 2,
        forall|k: int|
            0 <= k < pieces(stretch, start, period).len() ==> start <= (#[trigger] pieces(
                stretch,
                start,
                period,
            )[k]).start < pieces(stretch, start, period)[k].end <= start + period,
        pieces(stretch, start, period).len() == 2 ==> disjoint(
            pieces(stretch, start, period)[0],
            pieces(stretch, start, period)[1],
        ),
{
}

/// The pieces of stretches that never meet have no instant in common.
proof fn lemma_pieces_apart(a: Stretch, b: Stretch, start: int, period: int)
    requires
        period > 0,
        i64::MIN <= start,
        start + period <= i64::MAX,
        in_period(a, start, period),
        in_period(b, start, period),
        never_clash(a, b, period),
    ensures
        forall|k: int, l: int|
            0 <= k < pieces(a, start, period).len() && 0 <= l < pieces(b, start, period).len()
                ==> disjoint(
                #[trigger] pieces(a, start, period)[k],
                #[trigger] pieces(b, start, period)[l],
            ),
{
    lemma_turn(0, period);
    lemma_turn(1, period);
    lemma_turn(-1, period);
    assert(!clash(a, b, 0, period));
    assert(!clash(a, b, 1, period));
    assert(!clash(a, b, -1, period));
}

/// Where every two of the stretches never meet, every two of their pieces
/// have no instant in common; and the pieces are those of the stretches.
#[verifier::rlimit(40)]
proof fn lemma_split_all(stretches: Seq<Stretch>, start: int, period: int)
    requires
        period > 0,
        i64::MIN <= start,
        start + period <= i64::MAX,
        forall|j: int|
            0 <= j < stretches.len() ==> in_period(#[trigger] stretches[j], start, period),
        forall|i: int, j: int|
            0 <= i < stretches.len() && 0 <= j < stretches.len() && i != j ==> never_clash(
                #[trigger] stretches[i],
                #[trigger] stretches[j],
                period,
            ),
    ensures
        forall|k: int|
            0 <= k < split_all(stretches, start, period).len() ==> start <= (#[trigger] split_all(
                stretches,
                start,
                period,
            )[k]).start < split_all(stretches, start, period)[k].end <= start + period,
        forall|k: int, l: int|
            0 <= k < split_all(stretches, start, period).len() && 0 <= l < split_all(
                stretches,
                start,
                period,
            ).len() && k != l ==> disjoint(
                #[trigger] split_all(stretches, start, period)[k],
                #[trigger] split_all(stretches, start, period)[l],
            ),
        forall|k: int|
            0 <= k < split_all(stretches, start, period).len() ==> piece_of(
                stretches,
                start,
                period,
                #[trigger] split_all(stretches, start, period)[k],
            ),
        forall|j: int, l: int|
            0 <= j < stretches.len() && 0 <= l < pieces(stretches[j], start, period).len()
                ==> split_all(stretches, start, period).contains(
                #[trigger] pieces(stretches[j], start, period)[l],
            ),
    decreases stretches.len(),
{
    if stretches.len() > 0 {
        let front = stretches.drop_last();
        let last = stretches.last();
        let n = stretches.len() - 1;
        let before = split_all(front, start, period);
        let new = pieces(last, start, period);
        let all = split_all(stretches, start, period);
        assert(all == before + new);
        assert forall|j: int| 0 <= j < front.len() implies in_period(
            #[trigger] front[j],
            start,
            period,
        ) by {
            assert(front[j] == stretches[j]);
        }
        assert forall|i: int, j: int|
            0 <= i < front.len() && 0 <= j < front.len() && i != j implies never_clash(
            #[trigger] front[i],
            #[trigger] front[j],
            period,
        ) by {
            assert(front[i] == stretches[i] && front[j] == stretches[j]);
        }
        lemma_split_all(front, start, period);
        assert(in_period(stretches[n], start, period));
        lemma_pieces(last, start, period);
        assert forall|k: int| 0 <= k < all.len() implies start <= (#[trigger] all[k]).start
            < all[k].end <= start + period by {
            if k < before.len() {
                assert(all[k] == before[k]);
            } else {
                assert(all[k] == new[k - before.len()]);
            }
        }
        assert forall|k: int| 0 <= k < all.len() implies piece_of(
            stretches,
            start,
            period,
            #[trigger] all[k],
        ) by {
            if k < before.len() {
                assert(all[k] == before[k]);
                assert(piece_of(front, start, period, before[k]));
                let j = choose|j: int|
                    0 <= j < front.len() && #[trigger] pieces(front[j], start, period).contains(
                        before[k],
                    );
                assert(front[j] == stretches[j]);
                assert(pieces(stretches[j], start, period).contains(all[k]));
            } else {
                assert(all[k] == new[k - before.len()]);
                assert(pieces(stretches[n], start, period).contains(all[k]));
            }
        }
        assert forall|j: int, l: int|
            0 <= j < stretches.len() && 0 <= l < pieces(
                stretches[j],
                start,
                period,
            ).len() implies all.contains(#[trigger] pieces(stretches[j], start, period)[l]) by {
            if j < n {
                assert(front[j] == stretches[j]);
                let piece = pieces(front[j], start, period)[l];
                assert(before.contains(piece));
                let k = choose|k: int| 0 <= k < before.len() && before[k] == piece;
                assert(all[k] == piece);
            } else {
                assert(all[before.len() + l] == new[l]);
            }
        }
        assert forall|k: int, l: int|
            0 <= k < all.len() && 0 <= l < all.len() && k != l implies disjoint(
            #[trigger] all[k],
            #[trigger] all[l],
        ) by {
            if k < before.len() && l < before.len() {
                assert(all[k] == before[k] && all[l] == before[l]);
            } else if k >= before.len() && l >= before.len() {
                assert(all[k] == new[k - before.len()] && all[l] == new[l - before.len()]);
            } else {
                let (old, fresh) = if k < before.len() {
                    (k, l)
                } else {
                    (l, k)
                };
                assert(all[old] == before[old]);
                assert(all[fresh] == new[fresh - before.len()]);
                assert(piece_of(front, start, period, before[old]));
                let j = choose|j: int|
                    0 <= j < front.len() && #[trigger] pieces(front[j], start, period).contains(
                        before[old],
                    );
                assert(front[j] == stretches[j]);
                assert(never_clash(stretches[j], stretches[n], period));
                lemma_pieces_apart(stretches[j], stretches[n], start, period);
                let m = choose|m: int|
                    0 <= m < pieces(stretches[j], start, period).len() && pieces(
                        stretches[j],
                        start,
                        period,
                    )[m] == before[old];
                assert(disjoint(
                    pieces(stretches[j], start, period)[m],
                    pieces(stretches[n], start, period)[fresh - before.len()],
                ));
            }
        }
    }
}

/// The instant `t` lies in the stretch as it recurs `turn` periods on.
pub open spec fn sweeps(stretch: Stretch, turn: int, period: int, t: int) -> bool {
    stretch.start + turn * period <= t < stretch.end + turn * period
}

/// Where a piece of a moved range recurs, the range recurs.
proof fn lemma_piece_recurs(
    range: TimeRange,
    start: int,
    period: int,
    piece: Stretch,
    turn: int,
    t: int,
) -> (back: int)
    requires
        period > 0,
        range.start < range.end <= range.start + period,
        i64::MIN <= start,
        start + period <= i64::MAX,
        pieces(shifted(range, start, period), start, period).contains(piece),
        sweeps(piece, turn, period, t),
    ensures
        recurs(range, back, period, t),
{
    let whole = shifted(range, start, period);
    let q = turns(range.start as int, start, period);
    lemma_shifted(range, start, period);
    let all = pieces(whole, start, period);
    let l = choose|l: int| 0 <= l < all.len() && all[l] == piece;
    lemma_turns_add(turn, q, period);
    lemma_turns_add(turn - q, 1, period);
    lemma_turn(1, period);
    if whole.end <= start + period || l == 0 {
        turn - q
    } else {
        turn - q - 1
    }
}

/// Where a range recurs, a piece of the moved range recurs.
proof fn lemma_range_recurs(range: TimeRange, start: int, period: int, turn: int, t: int) -> (found:
    (int, int))
    requires
        period > 0,
        range.start < range.end <= range.start + period,
        i64::MIN <= start,
        start + period <= i64::MAX,
        recurs(range, turn, period, t),
    ensures
        0 <= found.0 < pieces(shifted(range, start, period), start, period).len(),
        sweeps(
            pieces(shifted(range, start, period), start, period)[found.0],
            found.1,
            period,
            t,
        ),
{
    let whole = shifted(range, start, period);
    let q = turns(range.start as int, start, period);
    lemma_shifted(range, start, period);
    lemma_turns_add(turn, q, period);
    lemma_turns_add(turn + q, 1, period);
    lemma_turn(1, period);
    if whole.end <= start + period {
        (0, turn + q)
    } else if t - (turn + q) * period < start + period {
        (0, turn + q)
    } else {
        (1, turn + q + 1)
    }
}

/// The ranges of a segment, moved to another start, are the ranges of a
/// segment, and cover the same time as they recur.
#[verifier::rlimit(40)]
pub proof fn lemma_moved_ranges(ranges: Seq<TimeRange>, from: int, start: int, period: int)
    requires
        segment_wf(ranges, from, period),
        i64::MIN <= start,
        start + period <= i64::MAX,
    ensures
        segment_wf(moved_ranges(ranges, start, period), start, period),
        forall|t: int|
            #[trigger] covers(moved_ranges(ranges, start, period), period, t) <==> covers(
                ranges,
                period,
                t,
            ),
{
    let key = stretch_key();
    let shifts = shifted_all(ranges, start, period);
    let sorted = stable_sorted(shifts, key);
    let cut = split_all(sorted, start, period);
    let ordered = stable_sorted(cut, key);
    let moved = narrowed(ordered);
    let never = |a: Stretch, b: Stretch| never_clash(a, b, period);
    let lone = |a: Stretch, b: Stretch| disjoint(a, b);
    assert forall|j: int| 0 <= j < shifts.len() implies in_period(
        #[trigger] shifts[j],
        start,
        period,
    ) by {
        lemma_shifted(ranges[j], start, period);
    }
    assert forall|i: int, j: int|
        0 <= i < shifts.len() && 0 <= j < shifts.len() && i != j implies #[trigger] never(
        shifts[i],
        shifts[j],
    ) by {
        if i < j {
            assert(ranges[i].end <= ranges[j].start);
        } else {
            assert(ranges[j].end <= ranges[i].start);
        }
        lemma_shifted_apart(ranges[i], ranges[j], from, start, period);
    }
    lemma_stable_sorted(shifts, key);
    lemma_stable_sorted_members(shifts, key);
    lemma_sorted_all(shifts, start, period);
    lemma_stable_sorted_pairwise(shifts, key, never);
    assert forall|i: int, j: int|
        0 <= i < sorted.len() && 0 <= j < sorted.len() && i != j implies never_clash(
        #[trigger] sorted[i],
        #[trigger] sorted[j],
        period,
    ) by {
        assert(never(sorted[i], sorted[j]));
    }
    lemma_split_all(sorted, start, period);
    lemma_stable_sorted(cut, key);
    lemma_stable_sorted_members(cut, key);
    lemma_sorted_bounds(cut, start, period);
    assert forall|k: int, l: int|
        0 <= k < cut.len() && 0 <= l < cut.len() && k != l implies #[trigger] lone(
        cut[k],
        cut[l],
    ) by {
        assert(disjoint(cut[k], cut[l]));
    }
    lemma_stable_sorted_pairwise(cut, key, lone);
    assert forall|i: int| 0 <= i < moved.len() implies start <= (#[trigger] moved[i]).start
        < moved[i].end <= start + period by {
        assert(start <= ordered[i].start);
    }
    assert forall|i: int, j: int| 0 <= i < j < moved.len() implies (#[trigger] moved[i]).end <= (
    #[trigger] moved[j]).start by {
        assert(lone(ordered[i], ordered[j]));
        assert(crate::sorting::key_le(key(ordered[i]), key(ordered[j])));
        assert(start <= ordered[i].start);
        assert(start <= ordered[j].start);
    }
    assert forall|t: int| #[trigger]
        covers(moved, period, t) <==> covers(ranges, period, t) by {
        if covers(moved, period, t) {
            let (i, turn) = choose|i: int, turn: int|
                0 <= i < moved.len() && #[trigger] recurs(moved[i], turn, period, t);
            assert(start <= ordered[i].start);
            assert(sweeps(ordered[i], turn, period, t));
            assert(cut.contains(ordered[i]));
            let c = choose|c: int| 0 <= c < cut.len() && cut[c] == ordered[i];
            assert(piece_of(sorted, start, period, cut[c]));
            let j = choose|j: int|
                0 <= j < sorted.len() && #[trigger] pieces(sorted[j], start, period).contains(
                    cut[c],
                );
            assert(shifts.contains(sorted[j]));
            let r = choose|r: int| 0 <= r < shifts.len() && shifts[r] == sorted[j];
            let back = lemma_piece_recurs(ranges[r], start, period, cut[c], turn, t);
            assert(recurs(ranges[r], back, period, t));
        }
        if covers(ranges, period, t) {
            let (r, turn) = choose|r: int, turn: int|
                0 <= r < ranges.len() && #[trigger] recurs(ranges[r], turn, period, t);
            let (l, on) = lemma_range_recurs(ranges[r], start, period, turn, t);
            assert(sorted.contains(shifts[r]));
            let j = choose|j: int| 0 <= j < sorted.len() && sorted[j] == shifts[r];
            let piece = pieces(sorted[j], start, period)[l];
            assert(cut.contains(piece));
            let c = choose|c: int| 0 <= c < cut.len() && cut[c] == piece;
            assert(ordered.contains(cut[c]));
            let k = choose|k: int| 0 <= k < ordered.len() && ordered[k] == piece;
            assert(start <= ordered[k].start);
            assert(recurs(moved[k], on, period, t));
        }
    }
}

/// The ranges of a segment, moved to another start and back, cover the
/// same time as they recur.
pub proof fn lemma_there_and_back(ranges: Seq<TimeRange>, anchor: int, start: int, period: int)
    requires
        segment_wf(ranges, anchor, period),
        i64::MIN <= anchor,
        i64::MIN <= start,
        start + period <= i64::MAX,
    ensures
        segment_wf(
            moved_ranges(moved_ranges(ranges, start, period), anchor, period),
            anchor,
            period,
        ),
        forall|t: int|
            #[trigger] covers(
                moved_ranges(moved_ranges(ranges, start, period), anchor, period),
                period,
                t,
            ) <==> covers(ranges, period, t),
{
    let there = moved_ranges(ranges, start, period);
    let back = moved_ranges(there, anchor, period);
    lemma_moved_ranges(ranges, anchor, start, period);
    lemma_moved_ranges(there, start, anchor, period);
    assert forall|t: int| #[trigger] covers(back, period, t) <==> covers(ranges, period, t) by {
        assert(covers(there, period, t) <==> covers(ranges, period, t));
    }
}

} // verus!
