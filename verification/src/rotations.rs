//! The Burrows-Wheeler transform, and why [`crate::bwt`] undoes it.
use vstd::prelude::*;
use vstd::relations::*;
use vstd::seq_lib::*;

use crate::bwt;

verus! {

/// The rotation of a text that begins with its entry `k`.
pub open spec fn rotation(t: Seq<u8>, k: int) -> Seq<u8> {
    Seq::new(t.len(), |i: int| t[(k + i) % t.len() as int])
}

/// The order of the dictionary.
pub open spec fn not_behind(a: Seq<u8>, b: Seq<u8>) -> bool
    decreases a.len(),
{
    if a.len() == 0 {
        true
    } else if b.len() == 0 {
        false
    } else if a[0] != b[0] {
        a[0] < b[0]
    } else {
        not_behind(a.drop_first(), b.drop_first())
    }
}

/// `rows` lists the rotations of a text in sorted order, each by its first entry.
pub open spec fn sorted_rotations(t: Seq<u8>, rows: Seq<int>) -> bool {
    &&& rows.len() == t.len()
    &&& rows.no_duplicates()
    &&& forall|i: int| 0 <= i < rows.len() ==> 0 <= #[trigger] rows[i] < t.len()
    &&& forall|i: int, j: int|
        0 <= i < j < rows.len() ==> not_behind(
            #[trigger] rotation(t, rows[i]),
            #[trigger] rotation(t, rows[j]),
        )
}

/// The last column of the table of rotations.
pub open spec fn last_column(t: Seq<u8>, rows: Seq<int>) -> Seq<u8> {
    Seq::new(rows.len(), |i: int| rotation(t, rows[i]).last())
}

proof fn lemma_not_behind_reflexive(a: Seq<u8>)
    ensures
        not_behind(a, a),
    decreases a.len(),
{
    if a.len() > 0 {
        lemma_not_behind_reflexive(a.drop_first());
    }
}

proof fn lemma_not_behind_antisymmetric(a: Seq<u8>, b: Seq<u8>)
    requires
        not_behind(a, b),
        not_behind(b, a),
    ensures
        a == b,
    decreases a.len(),
{
    if a.len() > 0 && b.len() > 0 {
        lemma_not_behind_antisymmetric(a.drop_first(), b.drop_first());
        assert(a == seq![a[0]] + a.drop_first());
        assert(b == seq![b[0]] + b.drop_first());
    } else {
        assert(a == b);
    }
}

proof fn lemma_not_behind_transitive(a: Seq<u8>, b: Seq<u8>, c: Seq<u8>)
    requires
        not_behind(a, b),
        not_behind(b, c),
    ensures
        not_behind(a, c),
    decreases a.len(),
{
    if a.len() > 0 && a[0] == b[0] && b[0] == c[0] {
        lemma_not_behind_transitive(a.drop_first(), b.drop_first(), c.drop_first());
    }
}

proof fn lemma_not_behind_total(a: Seq<u8>, b: Seq<u8>)
    ensures
        not_behind(a, b) || not_behind(b, a),
    decreases a.len(),
{
    if a.len() > 0 && b.len() > 0 {
        lemma_not_behind_total(a.drop_first(), b.drop_first());
    }
}

proof fn lemma_order_is_total()
    ensures
        total_ordering(|a: Seq<u8>, b: Seq<u8>| not_behind(a, b)),
{
    let order = |a: Seq<u8>, b: Seq<u8>| not_behind(a, b);
    assert forall|a: Seq<u8>| #[trigger] order(a, a) by {
        lemma_not_behind_reflexive(a);
    }
    assert forall|a: Seq<u8>, b: Seq<u8>| #[trigger] order(a, b) && #[trigger] order(
        b,
        a,
    ) implies a == b by {
        lemma_not_behind_antisymmetric(a, b);
    }
    assert forall|a: Seq<u8>, b: Seq<u8>, c: Seq<u8>| #[trigger] order(a, b) && #[trigger] order(
        b,
        c,
    ) implies order(a, c) by {
        lemma_not_behind_transitive(a, b, c);
    }
    assert forall|a: Seq<u8>, b: Seq<u8>| #[trigger] order(a, b) || #[trigger] order(b, a) by {
        lemma_not_behind_total(a, b);
    }
}

/// The order stays when both lose their last entry.
proof fn lemma_not_behind_drop_last(a: Seq<u8>, b: Seq<u8>)
    requires
        a.len() == b.len(),
        a.len() > 0,
        not_behind(a, b),
    ensures
        not_behind(a.drop_last(), b.drop_last()),
    decreases a.len(),
{
    if a.len() > 1 && a[0] == b[0] {
        lemma_not_behind_drop_last(a.drop_first(), b.drop_first());
        assert(a.drop_last().drop_first() == a.drop_first().drop_last());
        assert(b.drop_last().drop_first() == b.drop_first().drop_last());
    }
}

/// A sequence put in another order holds the same entries.
proof fn lemma_reordered<A>(x: Seq<A>, places: Seq<int>)
    requires
        places.len() == x.len(),
        places.no_duplicates(),
        forall|i: int| 0 <= i < places.len() ==> 0 <= #[trigger] places[i] < x.len(),
    ensures
        Seq::new(x.len(), |i: int| x[places[i]]).to_multiset() == x.to_multiset(),
    decreases x.len(),
{
    broadcast use vstd::multiset::group_multiset_axioms;

    let y = Seq::new(x.len(), |i: int| x[places[i]]);
    if x.len() == 0 {
        assert(x == y);
    } else {
        let n = x.len() - 1;
        let k = places[n];
        let fewer = x.remove(k);
        let others = Seq::new(
            n as nat,
            |i: int|
                if places[i] < k {
                    places[i]
                } else {
                    places[i] - 1
                },
        );
        assert forall|i: int| 0 <= i < others.len() implies 0 <= #[trigger] others[i]
            < fewer.len() by {
            assert(0 <= places[i] < x.len());
            assert(places[i] != places[n]);
        }
        assert forall|i: int, j: int|
            0 <= i < others.len() && 0 <= j < others.len() && i != j implies others[i]
            != others[j] by {
            assert(places[i] != places[j]);
            assert(places[i] != places[n]);
            assert(places[j] != places[n]);
        }
        lemma_reordered(fewer, others);
        let z = Seq::new(fewer.len(), |i: int| fewer[others[i]]);
        assert(y == z.push(x[k])) by {
            assert forall|i: int| 0 <= i < n implies y[i] == z[i] by {
                assert(places[i] != places[n]);
                assert(0 <= places[i] < x.len());
            }
        }
        to_multiset_build(z, x[k]);
        to_multiset_remove(x, k);
        assert(x.contains(x[k]));
        x.to_multiset_ensures();
        assert(x.to_multiset().count(x[k]) > 0);
        assert(x.to_multiset().remove(x[k]).insert(x[k]) =~= x.to_multiset());
    }
}

/// The entry in front of entry `k`, going round.
proof fn lemma_entry_before(k: int, n: int)
    requires
        0 <= k < n,
    ensures
        (k + n - 1) % n == if k == 0 {
            n - 1
        } else {
            k - 1
        },
{
    if k == 0 {
        vstd::arithmetic::div_mod::lemma_small_mod((n - 1) as nat, n as nat);
    } else {
        vstd::arithmetic::div_mod::lemma_mod_add_multiples_vanish(k - 1, n);
        vstd::arithmetic::div_mod::lemma_small_mod((k - 1) as nat, n as nat);
    }
}

/// A rotation with its last entry moved to the front.
proof fn lemma_rotated_back(t: Seq<u8>, k: int)
    requires
        0 <= k < t.len(),
    ensures
        rotation(t, (k + t.len() - 1) % t.len() as int) == seq![rotation(t, k).last()] + rotation(
            t,
            k,
        ).drop_last(),
{
    let n = t.len() as int;
    let back = rotation(t, (k + n - 1) % n);
    let moved = seq![rotation(t, k).last()] + rotation(t, k).drop_last();
    let first = if k == 0 {
        n - 1
    } else {
        k - 1
    };
    lemma_entry_before(k, n);
    assert forall|i: int| 0 <= i < n implies back[i] == moved[i] by {
        if i == 0 {
            vstd::arithmetic::div_mod::lemma_small_mod(first as nat, n as nat);
        } else {
            if k == 0 {
                vstd::arithmetic::div_mod::lemma_mod_add_multiples_vanish(i - 1, n);
            }
        }
    }
}

/// The row that follows a row holds its rotation with the first entry moved to
/// the end.
proof fn lemma_rows_follow(t: Seq<u8>, rows: Seq<int>, i: int)
    requires
        sorted_rotations(t, rows),
        0 <= i < rows.len(),
    ensures
        ({
            let next = bwt::source(last_column(t, rows), i);
            &&& 0 <= next < rows.len()
            &&& rotation(t, rows[i]) == rotation(t, (rows[next] + t.len() - 1) % t.len() as int)
        }),
{
    let n = t.len();
    let s = last_column(t, rows);
    let order = |a: Seq<u8>, b: Seq<u8>| not_behind(a, b);
    let plain = Seq::new(n, |k: int| rotation(t, k));
    let table = Seq::new(n, |j: int| plain[rows[j]]);
    let places = Seq::new(
        n,
        |j: int| (rows[bwt::source(s, j)] + n - 1) % n as int,
    );
    let again = Seq::new(n, |j: int| plain[places[j]]);
    lemma_reordered(plain, rows);
    assert forall|j: int| 0 <= j < n implies 0 <= #[trigger] places[j] < n && 0 <= bwt::source(s, j)
        < n by {
        bwt::lemma_source(s, j);
        vstd::arithmetic::div_mod::lemma_mod_bound(
            rows[bwt::source(s, j)] + n - 1,
            n as int,
        );
    }
    assert forall|j: int, k: int| 0 <= j < n && 0 <= k < n && j != k implies places[j]
        != places[k] by {
        bwt::lemma_source(s, j);
        bwt::lemma_source(s, k);
        let a = rows[bwt::source(s, j)];
        let b = rows[bwt::source(s, k)];
        assert(bwt::source(s, j) != bwt::source(s, k));
        assert(a != b);
        lemma_entry_before(a, n as int);
        lemma_entry_before(b, n as int);
    }
    lemma_reordered(plain, places);
    lemma_order_is_total();
    assert forall|j: int, k: int| 0 <= j < k < n implies #[trigger] order(
        table[j],
        table[k],
    ) by {
        assert(table[j] == rotation(t, rows[j]));
        assert(table[k] == rotation(t, rows[k]));
    }
    assert forall|j: int, k: int| 0 <= j < k < n implies #[trigger] order(
        again[j],
        again[k],
    ) by {
        lemma_again_sorted(t, rows, j, k);
        assert(again[j] == rotation(t, places[j]));
        assert(again[k] == rotation(t, places[k]));
    }
    lemma_sorted_unique(table, again, order);
    assert(table[i] == rotation(t, rows[i]));
    assert(again[i] == rotation(t, places[i]));
}

/// Moving the last column to the front and sorting by it alone, where equal
/// entries keep their order, sorts the rotations.
proof fn lemma_again_sorted(t: Seq<u8>, rows: Seq<int>, j: int, k: int)
    requires
        sorted_rotations(t, rows),
        0 <= j < k < rows.len(),
    ensures
        ({
            let s = last_column(t, rows);
            let n = t.len() as int;
            not_behind(
                rotation(t, (rows[bwt::source(s, j)] + n - 1) % n),
                rotation(t, (rows[bwt::source(s, k)] + n - 1) % n),
            )
        }),
{
    let s = last_column(t, rows);
    let n = t.len();
    bwt::lemma_source(s, j);
    bwt::lemma_source(s, k);
    let a = bwt::source(s, j);
    let b = bwt::source(s, k);
    lemma_rotated_back(t, rows[a]);
    lemma_rotated_back(t, rows[b]);
    let ra = rotation(t, rows[a]);
    let rb = rotation(t, rows[b]);
    let x = seq![ra.last()] + ra.drop_last();
    let y = seq![rb.last()] + rb.drop_last();
    assert(s[a] == x[0]);
    assert(s[b] == y[0]);
    if s[b] < s[a] {
        bwt::lemma_count_less_grows(s, s[b] as int, s[a] as int, n);
        bwt::lemma_count_equal_grows(s, s[b] as int, b as nat, n);
    } else if s[a] == s[b] {
        if b < a {
            bwt::lemma_count_equal_grows(s, s[a] as int, b as nat, a as nat);
        }
        assert(a != b);
        assert(not_behind(ra, rb));
        lemma_not_behind_drop_last(ra, rb);
        assert(x.drop_first() == ra.drop_last());
        assert(y.drop_first() == rb.drop_last());
    }
}

/// The row that is reached after `k` steps holds the rotation that begins with
/// entry `k`.
proof fn lemma_row_reached(t: Seq<u8>, rows: Seq<int>, start: int, k: nat)
    requires
        t.len() <= 0x100_0000,
        sorted_rotations(t, rows),
        0 <= start < rows.len(),
        rows[start] == 0,
        k <= t.len(),
    ensures
        ({
            let row = bwt::row_after(last_column(t, rows), start, k);
            0 <= row < rows.len() && rotation(t, rows[row]) == rotation(t, k as int)
        }),
    decreases k,
{
    let n = t.len() as int;
    let s = last_column(t, rows);
    if k > 0 {
        let m = (k - 1) as nat;
        lemma_row_reached(t, rows, start, m);
        let before = bwt::row_after(s, start, m);
        lemma_rows_follow(t, rows, before);
        let next = bwt::source(s, before);
        vstd::arithmetic::div_mod::lemma_small_mod(next as nat, 0x100_0000);
        assert(bwt::row_after(s, start, k) == next);
        let back = (rows[next] + n - 1) % n;
        lemma_rotated_back(t, rows[next]);
        lemma_rotated_on(t, rotation(t, rows[next]), m as int);
    }
}

/// What becomes the rotation that begins with entry `m` when its last entry is
/// moved to the front is the rotation that begins with the next.
proof fn lemma_rotated_on(t: Seq<u8>, r: Seq<u8>, m: int)
    requires
        0 <= m < t.len(),
        r.len() == t.len(),
        rotation(t, m) == seq![r.last()] + r.drop_last(),
    ensures
        r == rotation(t, m + 1),
{
    let n = t.len() as int;
    let before = rotation(t, m);
    let moved = seq![r.last()] + r.drop_last();
    let after = rotation(t, m + 1);
    assert forall|i: int| 0 <= i < n implies #[trigger] r[i] == after[i] by {
        if i + 1 < n {
            assert(moved[i + 1] == r[i]);
            assert(before[i + 1] == t[(m + (i + 1)) % n]);
            assert(m + (i + 1) == m + 1 + i);
        } else {
            assert(moved[0] == r[i]);
            assert(before[0] == t[m % n]);
            vstd::arithmetic::div_mod::lemma_mod_add_multiples_vanish(m, n);
            assert(m + 1 + i == n + m);
        }
    }
    assert(r == after);
}

/// Undoing the transform of a text gives the text back: the column is the last
/// one of the table of its rotations in sorted order, and the row is that of the
/// text itself. The text is no longer than the 24 bits that hold a row can tell
/// apart.
pub proof fn transform_is_undone(t: Seq<u8>, rows: Seq<int>, start: int)
    requires
        t.len() <= 0x100_0000,
        sorted_rotations(t, rows),
        0 <= start < rows.len(),
        rows[start] == 0,
    ensures
        bwt::untransform(last_column(t, rows), start) == t,
{
    let n = t.len() as int;
    let s = last_column(t, rows);
    assert forall|k: int| 0 <= k < n implies bwt::untransform(s, start)[k] == t[k] by {
        let row = bwt::row_after(s, start, (k + 1) as nat);
        lemma_row_reached(t, rows, start, (k + 1) as nat);
        assert(s[row] == rotation(t, k + 1)[n - 1]);
        vstd::arithmetic::div_mod::lemma_mod_add_multiples_vanish(k, n);
        vstd::arithmetic::div_mod::lemma_small_mod(k as nat, n as nat);
    }
}

} // verus!
