//! Where a chunk is cut into segments.
//!
//! A chunk of `len` bytes that is cut into `n` segments has `n - 1` points between
//! them, `len / n` bytes apart. It is cut at the first block from each of them on.
use vstd::prelude::*;

use crate::bits;
use crate::block_scan;
use crate::chunk;
use crate::chunk::Plan;

verus! {

/// The number that marks a block stands at bit `p`.
pub open spec fn mark_at(all: Seq<bool>, p: int) -> bool {
    0 <= p && p + 48 <= all.len() && bits::bits_value(all, p, 48) == 0x314159265359
}

/// A block can begin at bit `p`: its mark stands there and, behind the 32 bits of
/// its checksum, the bit of a block that is not randomised, 24 bits of an origin
/// below `max`, and 16 bits that are not all zero.
pub open spec fn can_begin(all: Seq<bool>, p: int, max: nat) -> bool {
    &&& mark_at(all, p)
    &&& p + 48 + 32 + 1 + 24 + 16 <= all.len()
    &&& !all[p + 80]
    &&& bits::bits_value(all, p + 81, 24) < max
    &&& bits::bits_value(all, p + 105, 16) > 0
}

/// The first bit of point `k`, where `len` bytes are cut into `n` segments.
pub open spec fn point(len: nat, n: nat, k: nat) -> int {
    8 * ((len / n) * k) as int
}

/// The search for a mark finds the first one from bit `from` on, and nothing only
/// where there is none.
pub proof fn first_mark_is_found(data: Seq<u8>, from: int)
    requires
        0 <= from,
    ensures
        match block_scan::next_magic(bits::bits_of(data), from) {
            Some(p) => from <= p && mark_at(bits::bits_of(data), p) && forall|q: int|
                from <= q < p ==> !#[trigger] mark_at(bits::bits_of(data), q),
            None => forall|q: int| from <= q ==> !#[trigger] mark_at(bits::bits_of(data), q),
        },
{
    let all = bits::bits_of(data);
    block_scan::next_magic_is_first(all, from);
    assert forall|q: int| from <= q && #[trigger] mark_at(all, q) implies block_scan::magic_at(
        all,
        q,
    ) by {}
}

/// The search for all marks lists those from bit `from` on, each once and in order.
pub proof fn all_marks_are_found(data: Seq<u8>, from: int)
    requires
        0 <= from,
    ensures
        forall|q: int| #[trigger]
            block_scan::all_magics(bits::bits_of(data), from).contains(q) <==> from <= q && mark_at(
                bits::bits_of(data),
                q,
            ),
        forall|i: int, j: int|
            #![trigger
                block_scan::all_magics(bits::bits_of(data), from)[i],
                block_scan::all_magics(bits::bits_of(data), from)[j]]
            0 <= i < j < block_scan::all_magics(bits::bits_of(data), from).len()
                ==> block_scan::all_magics(bits::bits_of(data), from)[i] < block_scan::all_magics(
                bits::bits_of(data),
                from,
            )[j],
{
    let all = bits::bits_of(data);
    block_scan::all_magics_is_complete(all, from);
    assert forall|q: int| #[trigger]
        block_scan::all_magics(all, from).contains(q) <==> from <= q && mark_at(all, q) by {
        assert(block_scan::all_magics(all, from).contains(q) <==> from <= q && block_scan::magic_at(
            all,
            q,
        ));
    }
}

/// The search for a place where a block can begin finds the first one from bit
/// `from` on, and nothing only where there is none.
pub proof fn first_start_is_found(data: Seq<u8>, from: int, max: nat)
    requires
        0 <= from,
    ensures
        match block_scan::next_plausible(bits::bits_of(data), from, max) {
            Some(p) => from <= p && can_begin(bits::bits_of(data), p, max) && forall|q: int|
                from <= q < p ==> !#[trigger] can_begin(bits::bits_of(data), q, max),
            None => forall|q: int| from <= q ==> !#[trigger] can_begin(bits::bits_of(data), q, max),
        },
{
    let all = bits::bits_of(data);
    block_scan::next_plausible_is_first(all, from, max);
    assert forall|q: int| from <= q && #[trigger] can_begin(all, q, max) implies
        block_scan::block_plausible(all, q, max) by {}
}

/// A head passes the quick test exactly where it is long enough and, behind the 32
/// bits of its checksum, has the bit of a block that is not randomised, 24 bits of
/// an origin below `max`, and 16 bits that are not all zero.
pub proof fn head_is_tested(all: Seq<bool>, p: int, max: nat)
    ensures
        block_scan::head_plausible(all, p, max) <==> {
            &&& all.len() - p >= 32 + 1 + 24 + 16
            &&& !all[p + 32]
            &&& bits::bits_value(all, p + 33, 24) < max
            &&& bits::bits_value(all, p + 57, 16) > 0
        },
{
}

/// The points grow.
proof fn lemma_points_grow(len: nat, n: nat, k: nat)
    requires
        n > 0,
    ensures
        0 <= point(len, n, k),
        point(len, n, k) == block_scan::nominal_split(len, n, k),
{
    let part = len / n;
    assert(0 <= part * k) by (nonlinear_arith)
        requires
            part >= 0,
            k >= 0,
    ;
}

/// The place that is found from point `k` on is one of the split points.
proof fn lemma_point_found(data: Seq<u8>, n: nat, max: nat, m: nat, k: nat)
    requires
        n > 0,
        1 <= k <= m,
    ensures
        block_scan::next_plausible(bits::bits_of(data), point(data.len(), n, k), max) matches Some(
            p,
        ) ==> block_scan::split_points(data, n, max, m).contains(p),
    decreases m,
{
    lemma_points_grow(data.len(), n, k);
    if let Some(p) = block_scan::next_plausible(
        bits::bits_of(data),
        point(data.len(), n, k),
        max,
    ) {
        let points = block_scan::split_points(data, n, max, m);
        let before = block_scan::split_points(data, n, max, (m - 1) as nat);
        if k == m {
            assert(points.last() == p);
        } else {
            lemma_point_found(data, n, max, (m - 1) as nat, k);
            let i = choose|i: int| 0 <= i < before.len() && before[i] == p;
            assert(points[i] == p);
        }
    }
}

/// Each of the split points is the place that is found from one of the points on.
proof fn lemma_found_from_point(data: Seq<u8>, n: nat, max: nat, m: nat, i: int) -> (k: nat)
    requires
        n > 0,
        0 <= i < block_scan::split_points(data, n, max, m).len(),
    ensures
        1 <= k <= m,
        block_scan::next_plausible(bits::bits_of(data), point(data.len(), n, k), max) == Some(
            block_scan::split_points(data, n, max, m)[i],
        ),
    decreases m,
{
    lemma_points_grow(data.len(), n, m);
    let before = block_scan::split_points(data, n, max, (m - 1) as nat);
    if i < before.len() {
        lemma_found_from_point(data, n, max, (m - 1) as nat, i)
    } else {
        m
    }
}

/// Leaving out repetitions loses no point.
proof fn lemma_distinct_keeps(first: int, points: Seq<int>, n: nat, i: int)
    requires
        n <= points.len(),
        -1 <= i < n,
    ensures
        i >= 0 ==> chunk::distinct_points(first, points, n).contains(points[i]),
        chunk::distinct_points(first, points, n).contains(first),
        chunk::distinct_points(first, points, n).len() > 0,
    decreases n,
{
    let d = chunk::distinct_points(first, points, n);
    if n == 0 {
        assert(d[0] == first);
    } else {
        let before = chunk::distinct_points(first, points, (n - 1) as nat);
        lemma_distinct_keeps(first, points, (n - 1) as nat, -1);
        let j = choose|j: int| 0 <= j < before.len() && before[j] == first;
        assert(d[j] == first);
        if i == n - 1 {
            assert(d.last() == points[i]);
        } else if i >= 0 {
            lemma_distinct_keeps(first, points, (n - 1) as nat, i);
            let k = choose|k: int| 0 <= k < before.len() && before[k] == points[i];
            assert(d[k] == points[i]);
        }
    }
}

/// Leaving out repetitions adds no point.
proof fn lemma_distinct_adds_none(first: int, points: Seq<int>, n: nat, x: int)
    requires
        n <= points.len(),
        chunk::distinct_points(first, points, n).contains(x),
    ensures
        x == first || points.contains(x),
    decreases n,
{
    if n > 0 {
        let d = chunk::distinct_points(first, points, n);
        let before = chunk::distinct_points(first, points, (n - 1) as nat);
        let i = choose|i: int| 0 <= i < d.len() && d[i] == x;
        if i < before.len() {
            assert(before[i] == x);
            lemma_distinct_adds_none(first, points, (n - 1) as nat, x);
        } else {
            assert(points[n - 1] == x);
        }
    }
}

/// Where the segments begin: at the first mark, and at the first place from each
/// of the points on at which a block can begin. They come in order, and none is
/// listed twice. There are none where there is no mark.
pub proof fn segments_begin_at_points(data: Seq<u8>, n: nat, max: nat)
    ensures
        ({
            let all = bits::bits_of(data);
            match chunk::segment_starts(data, n, max) {
                None => forall|q: int| !#[trigger] mark_at(all, q),
                Some(starts) => {
                    &&& starts.len() > 0
                    &&& forall|i: int| 0 <= i < starts.len() ==> mark_at(all, #[trigger] starts[i])
                    &&& forall|q: int| q < starts[0] ==> !#[trigger] mark_at(all, q)
                    &&& forall|i: int, j: int|
                        0 <= i < j < starts.len() ==> starts[i] < starts[j]
                },
            }
        }),
{
    chunk::split_is_ordered(data, n, max);
    first_mark_is_found(data, 0);
    if let Some(starts) = chunk::segment_starts(data, n, max) {
        let all = bits::bits_of(data);
        assert forall|i: int| 0 <= i < starts.len() implies mark_at(all, #[trigger] starts[i]) by {
            assert(block_scan::magic_at(all, starts[i]));
        }
        assert forall|q: int| q < starts[0] implies !#[trigger] mark_at(all, q) by {
            if mark_at(all, q) {
                assert(0 <= q < starts[0]);
            }
        }
    }
}

/// The first place from a point on at which a block can begin is where a segment
/// begins.
pub proof fn point_begins_segment(data: Seq<u8>, n: nat, max: nat, k: nat, q: int)
    requires
        1 <= k < n,
        point(data.len(), n, k) <= q,
        can_begin(bits::bits_of(data), q, max),
        forall|x: int|
            point(data.len(), n, k) <= x < q ==> !#[trigger] can_begin(
                bits::bits_of(data),
                x,
                max,
            ),
    ensures
        chunk::segment_starts(data, n, max) matches Some(starts) && starts.contains(q),
{
    let all = bits::bits_of(data);
    lemma_points_grow(data.len(), n, k);
    first_mark_is_found(data, 0);
    first_start_is_found(data, point(data.len(), n, k), max);
    assert(mark_at(all, q));
    let first = block_scan::next_magic(all, 0)->0;
    let points = block_scan::split_points(data, n, max, (n - 1) as nat);
    assert(block_scan::next_plausible(all, point(data.len(), n, k), max) == Some(q));
    lemma_point_found(data, n, max, (n - 1) as nat, k);
    let i = choose|i: int| 0 <= i < points.len() && points[i] == q;
    lemma_distinct_keeps(first, points, points.len(), i);
}

/// A segment but the first begins at the first place from one of the points on at
/// which a block can begin.
pub proof fn segment_begins_at_point(data: Seq<u8>, n: nat, max: nat, i: int) -> (k: nat)
    requires
        chunk::segment_starts(data, n, max) matches Some(starts) && 0 < i < starts.len(),
    ensures
        1 <= k < n,
        ({
            let all = bits::bits_of(data);
            let q = (chunk::segment_starts(data, n, max)->0)[i];
            &&& point(data.len(), n, k) <= q
            &&& can_begin(all, q, max)
            &&& forall|x: int|
                point(data.len(), n, k) <= x < q ==> !#[trigger] can_begin(all, x, max)
        }),
{
    let all = bits::bits_of(data);
    let starts = chunk::segment_starts(data, n, max)->0;
    let first = block_scan::next_magic(all, 0)->0;
    let m = if n == 0 {
        0
    } else {
        (n - 1) as nat
    };
    let points = block_scan::split_points(data, n, max, m);
    chunk::split_is_ordered(data, n, max);
    assert(starts[0] < starts[i]);
    assert(starts.contains(starts[i]));
    lemma_distinct_adds_none(first, points, points.len(), starts[i]);
    let j = choose|j: int| 0 <= j < points.len() && points[j] == starts[i];
    let k = lemma_found_from_point(data, n, max, m, j);
    lemma_points_grow(data.len(), n, k);
    first_start_is_found(data, point(data.len(), n, k), max);
    k
}

/// A chunk that is not the last is cut, and at least one segment of it decoded,
/// where from one of the points on a block can begin that has a mark in front of
/// it. The size of the chunk makes no difference.
pub proof fn chunk_is_cut(data: Seq<u8>, n: nat, max: nat, k: nat, p: int, q: int)
    requires
        1 <= k < n,
        mark_at(bits::bits_of(data), p),
        p < q,
        point(data.len(), n, k) <= q,
        can_begin(bits::bits_of(data), q, max),
        forall|x: int|
            point(data.len(), n, k) <= x < q && #[trigger] can_begin(bits::bits_of(data), x, max)
                ==> p < x,
    ensures
        chunk::split_of(data, n, max, false) matches Some((starts, decoded, _)) && starts.len()
            >= 2 && decoded >= 1,
{
    let all = bits::bits_of(data);
    let from = point(data.len(), n, k);
    lemma_points_grow(data.len(), n, k);
    first_start_is_found(data, from, max);
    let x = block_scan::next_plausible(all, from, max)->0;
    assert(can_begin(all, x, max) && x <= q);
    point_begins_segment(data, n, max, k, x);
    segments_begin_at_points(data, n, max);
    let starts = chunk::segment_starts(data, n, max)->0;
    let i = choose|i: int| 0 <= i < starts.len() && starts[i] == x;
    assert(starts[0] <= p);
    assert(i != 0);
}

/// A chunk that is not the last is not cut otherwise.
pub proof fn chunk_is_kept(data: Seq<u8>, n: nat, max: nat)
    ensures
        ({
            let all = bits::bits_of(data);
            chunk::split_of(data, n, max, false) is Some ==> exists|k: nat, p: int, q: int|
                {
                    &&& 1 <= k < n
                    &&& #[trigger] mark_at(all, p)
                    &&& p < q
                    &&& #[trigger] point(data.len(), n, k) <= q
                    &&& #[trigger] can_begin(all, q, max)
                    &&& forall|x: int|
                        point(data.len(), n, k) <= x < q ==> !#[trigger] can_begin(all, x, max)
                }
        }),
{
    let all = bits::bits_of(data);
    if chunk::split_of(data, n, max, false) is Some {
        let starts = chunk::segment_starts(data, n, max)->0;
        segments_begin_at_points(data, n, max);
        let k = segment_begins_at_point(data, n, max, 1);
        assert(mark_at(all, starts[0]));
        assert(can_begin(all, starts[1], max));
        assert(point(data.len(), n, k) <= starts[1]);
    }
}

/// The last chunk is cut wherever a mark stands in it.
pub proof fn last_chunk_is_cut(data: Seq<u8>, n: nat, max: nat)
    ensures
        chunk::split_of(data, n, max, true) is Some <==> exists|p: int| #[trigger]
            mark_at(bits::bits_of(data), p),
{
    segments_begin_at_points(data, n, max);
    if let Some(starts) = chunk::segment_starts(data, n, max) {
        assert(mark_at(bits::bits_of(data), starts[0]));
    }
}

/// How a chunk is cut. All segments of the last chunk are decoded, and take up all
/// of it. Of another all but the last are decoded, and take up the whole bytes in
/// front of the last.
pub proof fn segments_take_up(data: Seq<u8>, n: nat, max: nat, is_last: bool)
    ensures
        chunk::split_of(data, n, max, is_last) matches Some((starts, decoded, consumed)) ==> {
            &&& chunk::segment_starts(data, n, max) == Some(starts)
            &&& is_last ==> decoded == starts.len() && consumed == data.len()
            &&& !is_last ==> decoded + 1 == starts.len() && 8 * consumed <= starts.last() < 8
                * consumed + 8 && 0 <= consumed < data.len()
        },
{
    segments_begin_at_points(data, n, max);
    if let Some((starts, _, _)) = chunk::split_of(data, n, max, is_last) {
        assert(mark_at(bits::bits_of(data), starts[starts.len() - 1]));
    }
}

/// What is done with a chunk. The work stops only where nothing was read and at
/// most the head of a stream was left, or at a last chunk without a mark. What is
/// cut is decoded, and what is not is carried into the next chunk. A chunk that is
/// not the last is cut in two where a single segment is asked for.
pub proof fn plan_is_followed(data: Seq<u8>, carried: nat, n: nat, max: nat, is_last: bool)
    requires
        carried <= data.len(),
    ensures
        ({
            let plan = chunk::plan_of(data, carried, n, max, is_last);
            let segments = if n >= 2 || is_last {
                n
            } else {
                2
            };
            let nothing_new = carried == data.len() && data.len() <= 4;
            &&& plan is Stop <==> nothing_new || (is_last && forall|p: int|
                !#[trigger] mark_at(bits::bits_of(data), p))
            &&& plan is Carry <==> !nothing_new && !is_last && chunk::split_of(
                data,
                segments,
                max,
                false,
            ) is None
            &&& plan matches Plan::Decode(starts, decoded, consumed) ==> chunk::split_of(
                data,
                segments,
                max,
                is_last,
            ) == Some((starts, decoded, consumed))
        }),
{
    last_chunk_is_cut(data, n, max);
}

/// The segments to decode follow each other without a gap: each ends where the
/// next begins, and the last one at the end of the chunk.
pub proof fn segments_touch(starts: Seq<int>, i: int, total: int)
    requires
        0 <= i < starts.len(),
    ensures
        i + 1 == starts.len() ==> chunk::end_of(starts, i, total) == total,
        i + 1 < starts.len() ==> chunk::end_of(starts, i, total) == starts[i + 1],
{
}

/// From one point on a block can begin only where it can from the one before on.
proof fn lemma_points_found(data: Seq<u8>, n: nat, max: nat, m: nat)
    requires
        n > 0,
        block_scan::next_plausible(bits::bits_of(data), point(data.len(), n, m), max) is Some,
    ensures
        block_scan::split_points(data, n, max, m).len() == m,
    decreases m,
{
    if m > 0 {
        let all = bits::bits_of(data);
        let before = (m - 1) as nat;
        let part = data.len() / n;
        assert(part * before <= part * m) by (nonlinear_arith)
            requires
                before <= m,
                part >= 0,
        ;
        lemma_points_grow(data.len(), n, m);
        lemma_points_grow(data.len(), n, before);
        first_start_is_found(data, point(data.len(), n, m), max);
        first_start_is_found(data, point(data.len(), n, before), max);
        let q = block_scan::next_plausible(all, point(data.len(), n, m), max)->0;
        assert(can_begin(all, q, max));
        lemma_points_found(data, n, max, before);
    }
}

/// The split points are the first places at which a block can begin from each point
/// on, in the order of the points, up to the last point from which on one can.
pub proof fn points_are_listed(data: Seq<u8>, n: nat, max: nat, m: nat, k: nat)
    requires
        1 <= k <= m,
        n > 0,
    ensures
        ({
            let all = bits::bits_of(data);
            let from = point(data.len(), n, k);
            let found = block_scan::split_points(data, n, max, m);
            &&& found.len() <= m
            &&& k <= found.len() ==> from <= found[k - 1] && can_begin(all, found[k - 1], max)
                && forall|x: int| from <= x < found[k - 1] ==> !#[trigger] can_begin(all, x, max)
            &&& k > found.len() ==> forall|x: int| from <= x ==> !#[trigger] can_begin(all, x, max)
        }),
    decreases m,
{
    let all = bits::bits_of(data);
    let from = point(data.len(), n, k);
    let found = block_scan::split_points(data, n, max, m);
    let before = block_scan::split_points(data, n, max, (m - 1) as nat);
    lemma_points_grow(data.len(), n, k);
    lemma_points_grow(data.len(), n, m);
    first_start_is_found(data, from, max);
    if m > 1 {
        let j = if k < m {
            k
        } else {
            (m - 1) as nat
        };
        points_are_listed(data, n, max, (m - 1) as nat, j);
    }
    if block_scan::next_plausible(all, point(data.len(), n, m), max) is Some {
        lemma_points_found(data, n, max, m);
        assert(before.len() == m - 1);
        if k < m {
            assert(found[k - 1] == before[k - 1]);
        }
    } else {
        assert(found == before);
        if k == m && m > 1 {
            assert(found.len() <= m - 1);
        }
    }
}

} // verus!
