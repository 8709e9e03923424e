//! The Burrows-Wheeler transform, undone.
//!
//! The transform of a text is the last column of the table of its rotations in
//! sorted order, together with the row in which the text itself stands.
use vstd::prelude::*;

verus! {

/// The number of entries below `n` that are smaller than `b`.
pub open spec fn count_less(s: Seq<u8>, b: int, n: nat) -> nat
    decreases n,
{
    if n == 0 {
        0
    } else {
        count_less(s, b, (n - 1) as nat) + if s[n - 1] < b {
            1nat
        } else {
            0
        }
    }
}

/// The number of entries below `n` that are `b`.
pub open spec fn count_equal(s: Seq<u8>, b: int, n: nat) -> nat
    decreases n,
{
    if n == 0 {
        0
    } else {
        count_equal(s, b, (n - 1) as nat) + if s[n - 1] == b {
            1nat
        } else {
            0
        }
    }
}

/// The place that entry `i` has when the entries are sorted and equal ones keep
/// their order.
pub open spec fn sorted_place(s: Seq<u8>, i: int) -> int {
    (count_less(s, s[i] as int, s.len()) + count_equal(s, s[i] as int, i as nat)) as int
}

/// The entry that stands at place `j` when the entries are sorted and equal ones
/// keep their order.
pub open spec fn source(s: Seq<u8>, j: int) -> int {
    choose|i: int| 0 <= i < s.len() && #[trigger] sorted_place(s, i) == j
}

/// The low byte of each entry.
pub open spec fn low_bytes(tt: Seq<u32>) -> Seq<u8> {
    Seq::new(tt.len(), |i: int| (tt[i] % 256) as u8)
}

/// Each entry's low byte is counted in `c`.
pub open spec fn counts_of(s: Seq<u8>, c: Seq<u32>) -> bool {
    c.len() == 256 && forall|b: int|
        0 <= b < 256 ==> #[trigger] c[b] == count_equal(s, b, s.len())
}

/// The row that follows row `j` in the reading order, as far as the 24 bits that
/// hold it go.
pub open spec fn link(s: Seq<u8>, j: int) -> int {
    source(s, j) % 0x100_0000
}

/// The row that is reached from row `start` after `k` steps.
pub open spec fn row_after(s: Seq<u8>, start: int, k: nat) -> int
    decreases k,
{
    if k == 0 {
        start
    } else {
        link(s, row_after(s, start, (k - 1) as nat))
    }
}

/// The text whose transform is the column `s` with the text in row `start`.
pub open spec fn untransform(s: Seq<u8>, start: int) -> Seq<u8> {
    Seq::new(s.len(), |k: int| s[row_after(s, start, (k + 1) as nat)])
}

proof fn lemma_count_step(s: Seq<u8>, b: int, n: nat)
    ensures
        count_less(s, b + 1, n) == count_less(s, b, n) + count_equal(s, b, n),
    decreases n,
{
    if n > 0 {
        lemma_count_step(s, b, (n - 1) as nat);
    }
}

pub proof fn lemma_count_bound(s: Seq<u8>, b: int, n: nat)
    ensures
        count_less(s, b, n) + count_equal(s, b, n) <= n,
        b <= 0 ==> count_less(s, b, n) == 0,
        b >= 256 ==> count_less(s, b, n) == n,
    decreases n,
{
    if n > 0 {
        lemma_count_bound(s, b, (n - 1) as nat);
    }
}

pub proof fn lemma_count_less_grows(s: Seq<u8>, b1: int, b2: int, n: nat)
    requires
        b1 < b2,
    ensures
        count_less(s, b1, n) + count_equal(s, b1, n) <= count_less(s, b2, n),
    decreases n,
{
    if n > 0 {
        lemma_count_less_grows(s, b1, b2, (n - 1) as nat);
    }
}

pub proof fn lemma_count_equal_grows(s: Seq<u8>, b: int, m: nat, n: nat)
    requires
        m <= n,
    ensures
        count_equal(s, b, m) <= count_equal(s, b, n),
        m < n && s[m as int] == b ==> count_equal(s, b, m) < count_equal(s, b, n),
    decreases n,
{
    if m < n {
        lemma_count_equal_grows(s, b, m, (n - 1) as nat);
    }
}

/// Only the entries below `n` matter.
proof fn lemma_count_equal_same(s: Seq<u8>, t: Seq<u8>, b: int, n: nat)
    requires
        forall|i: int| 0 <= i < n ==> s[i] == t[i],
    ensures
        count_equal(s, b, n) == count_equal(t, b, n),
    decreases n,
{
    if n > 0 {
        lemma_count_equal_same(s, t, b, (n - 1) as nat);
    }
}

/// One entry more counts for its own byte.
pub proof fn lemma_count_equal_push(s: Seq<u8>, x: u8, b: int)
    ensures
        count_equal(s.push(x), b, s.len() + 1) == count_equal(s, b, s.len()) + if x == b {
            1nat
        } else {
            0
        },
{
    lemma_count_equal_same(s.push(x), s, b, s.len());
}

/// The places are those of the sequence.
proof fn lemma_sorted_place_bound(s: Seq<u8>, i: int)
    requires
        0 <= i < s.len(),
    ensures
        0 <= sorted_place(s, i) < s.len(),
{
    let b = s[i] as int;
    lemma_count_equal_grows(s, b, i as nat, s.len());
    lemma_count_bound(s, b, s.len());
}

/// No two entries have the same place.
proof fn lemma_sorted_place_unique(s: Seq<u8>, i: int, j: int)
    requires
        0 <= i < s.len(),
        0 <= j < s.len(),
        sorted_place(s, i) == sorted_place(s, j),
    ensures
        i == j,
{
    let n = s.len();
    if s[i] < s[j] {
        lemma_count_less_grows(s, s[i] as int, s[j] as int, n);
        lemma_count_equal_grows(s, s[i] as int, i as nat, n);
    } else if s[j] < s[i] {
        lemma_count_less_grows(s, s[j] as int, s[i] as int, n);
        lemma_count_equal_grows(s, s[j] as int, j as nat, n);
    } else if i < j {
        lemma_count_equal_grows(s, s[i] as int, i as nat, j as nat);
    } else if j < i {
        lemma_count_equal_grows(s, s[i] as int, j as nat, i as nat);
    }
}

proof fn lemma_nth_equal(s: Seq<u8>, b: int, k: nat, n: nat) -> (i: int)
    requires
        k < count_equal(s, b, n),
    ensures
        0 <= i < n,
        s[i] == b,
        count_equal(s, b, i as nat) == k,
    decreases n,
{
    if k < count_equal(s, b, (n - 1) as nat) {
        lemma_nth_equal(s, b, k, (n - 1) as nat)
    } else {
        n - 1
    }
}

proof fn lemma_byte_at_place(s: Seq<u8>, j: int, top: int) -> (b: int)
    requires
        0 <= j < count_less(s, top, s.len()),
        0 <= top,
    ensures
        0 <= b < top,
        count_less(s, b, s.len()) <= j < count_less(s, b, s.len()) + count_equal(s, b, s.len()),
    decreases top,
{
    lemma_count_bound(s, 0, s.len());
    lemma_count_step(s, top - 1, s.len());
    if j < count_less(s, top - 1, s.len()) {
        lemma_byte_at_place(s, j, top - 1)
    } else {
        top - 1
    }
}

/// Every place has its entry.
pub proof fn lemma_source(s: Seq<u8>, j: int)
    requires
        0 <= j < s.len(),
    ensures
        0 <= source(s, j) < s.len(),
        sorted_place(s, source(s, j)) == j,
{
    lemma_count_bound(s, 256, s.len());
    let b = lemma_byte_at_place(s, j, 256);
    let i = lemma_nth_equal(s, b, (j - count_less(s, b, s.len())) as nat, s.len());
    assert(sorted_place(s, i) == j);
}

/// Every row on the way is a row.
pub proof fn lemma_row_after(s: Seq<u8>, start: int, k: nat)
    requires
        0 <= start < s.len(),
    ensures
        0 <= row_after(s, start, k) < s.len(),
    decreases k,
{
    if k > 0 {
        lemma_row_after(s, start, (k - 1) as nat);
        lemma_source(s, row_after(s, start, (k - 1) as nat));
    }
}

/// Links the rows of the sorted table: with a byte of the last column in the low
/// bits of each entry, the upper 24 bits of entry `j` become the row that follows
/// row `j`. The result is the row that follows `orig_ptr`, with which the reading
/// of the text starts.
pub fn inverse_bwt(tt: &mut [u32], orig_ptr: usize, c: [u32; 256]) -> (t_pos: u32)
    requires
        orig_ptr < old(tt)@.len(),
        old(tt)@.len() <= u32::MAX,
        counts_of(low_bytes(old(tt)@), c@),
    ensures
        final(tt)@.len() == old(tt)@.len(),
        forall|j: int|
            0 <= j < old(tt)@.len() ==> #[trigger] final(tt)@[j] == old(tt)@[j] | ((source(
                low_bytes(old(tt)@),
                j,
            ) as u32) << 8u32),
        t_pos == final(tt)@[orig_ptr as int] >> 8u32,
{
    let ghost before = tt@;
    let ghost s = low_bytes(tt@);
    let n: usize = tt.len();
    let mut c: [u32; 256] = c;
    let mut sum: u32 = 0;
    let mut b: usize = 0;
    proof {
        lemma_count_bound(s, 0, s.len());
    }
    while b < 256
        invariant
            b <= 256,
            s.len() == n,
            n <= u32::MAX,
            sum == count_less(s, b as int, s.len()),
            forall|x: int| 0 <= x < b ==> #[trigger] c@[x] == count_less(s, x, s.len()),
            forall|x: int| b <= x < 256 ==> #[trigger] c@[x] == count_equal(s, x, s.len()),
        decreases 256 - b,
    {
        proof {
            lemma_count_step(s, b as int, s.len());
            lemma_count_bound(s, b as int, s.len());
        }
        let count: u32 = c[b];
        c[b] = sum;
        sum = sum + count;
        b = b + 1;
    }
    let mut i: usize = 0;
    while i < n
        invariant
            i <= n,
            tt@.len() == n,
            before.len() == n,
            n <= u32::MAX,
            s == low_bytes(before),
            forall|x: int|
                0 <= x < 256 ==> #[trigger] c@[x] == count_less(s, x, s.len()) + count_equal(
                    s,
                    x,
                    i as nat,
                ),
            forall|j: int| 0 <= j < n ==> #[trigger] tt@[j] % 256 == before[j] % 256,
            forall|k: int|
                #![trigger sorted_place(s, k)]
                0 <= k < i ==> tt@[sorted_place(s, k)] == before[sorted_place(s, k)] | ((k as u32)
                    << 8u32),
            forall|j: int|
                #![trigger tt@[j]]
                0 <= j < n && (forall|k: int| 0 <= k < i ==> #[trigger] sorted_place(s, k) != j)
                    ==> tt@[j] == before[j],
        decreases n - i,
    {
        let entry: u32 = tt[i];
        assert(entry & 0xffu32 == entry % 256u32) by (bit_vector);
        let b: usize = (entry & 0xffu32) as usize;
        assert(b == s[i as int]);
        let place: usize = c[b] as usize;
        proof {
            lemma_sorted_place_bound(s, i as int);
            assert(place == sorted_place(s, i as int));
            assert forall|k: int| 0 <= k < i implies 0 <= #[trigger] sorted_place(s, k) < n
                && sorted_place(s, k) != place by {
                lemma_sorted_place_bound(s, k);
                if sorted_place(s, k) == place {
                    lemma_sorted_place_unique(s, k, i as int);
                }
            }
            lemma_count_equal_grows(s, b as int, i as nat, s.len());
            lemma_count_bound(s, b as int, s.len());
        }
        let old_entry: u32 = tt[place];
        let shifted: u32 = (i as u32) << 8u32;
        let ghost iu = i as u32;
        assert((old_entry | (iu << 8u32)) % 256u32 == old_entry % 256u32) by (bit_vector);
        tt[place] = old_entry | shifted;
        c[b] = c[b] + 1;
        i = i + 1;
    }
    proof {
        assert forall|j: int| 0 <= j < n implies #[trigger] tt@[j] == before[j] | ((source(s, j)
            as u32) << 8u32) by {
            lemma_source(s, j);
            assert(sorted_place(s, source(s, j)) == j);
        }
    }
    tt[orig_ptr] >> 8u32
}

/// Reads the byte of the row that `t_pos` names, and names the next row.
pub fn next_byte(tt: &[u32], t_pos: &mut u32) -> (b: u8)
    requires
        *old(t_pos) < tt@.len(),
    ensures
        b == tt@[*old(t_pos) as int] % 256,
        *final(t_pos) == tt@[*old(t_pos) as int] >> 8u32,
{
    let entry: u32 = tt[*t_pos as usize];
    *t_pos = entry >> 8u32;
    (entry % 256) as u8
}

/// The places sort the entries of any column, and equal ones keep their order.
pub proof fn places_are_sorted(s: Seq<u8>, i: int, j: int)
    requires
        0 <= i < s.len(),
        0 <= j < s.len(),
        s[i] < s[j] || (s[i] == s[j] && i < j),
    ensures
        0 <= sorted_place(s, i) < sorted_place(s, j) < s.len(),
{
    lemma_sorted_place_bound(s, i);
    lemma_sorted_place_bound(s, j);
    if s[i] < s[j] {
        lemma_count_less_grows(s, s[i] as int, s[j] as int, s.len());
        lemma_count_equal_grows(s, s[i] as int, i as nat, s.len());
    } else {
        lemma_count_equal_grows(s, s[i] as int, i as nat, j as nat);
    }
}

/// The entry at the place of an entry is that entry.
pub proof fn place_has_its_entry(s: Seq<u8>, i: int)
    requires
        0 <= i < s.len(),
    ensures
        source(s, sorted_place(s, i)) == i,
{
    lemma_sorted_place_bound(s, i);
    lemma_source(s, sorted_place(s, i));
    lemma_sorted_place_unique(s, i, source(s, sorted_place(s, i)));
}

/// The text of any column, be it that of a text or not, is read along its rows:
/// first the entry whose place is the row of the text, and then each time the entry
/// whose place is the row just read.
pub proof fn text_follows_rows(s: Seq<u8>, start: int, rows: Seq<int>)
    requires
        s.len() <= 0x100_0000,
        0 <= start < s.len(),
        rows.len() == s.len(),
        forall|k: int| 0 <= k < rows.len() ==> 0 <= #[trigger] rows[k] < s.len(),
        sorted_place(s, rows[0]) == start,
        forall|k: int|
            #![trigger rows[k]]
            0 < k < rows.len() ==> sorted_place(s, rows[k]) == rows[k - 1],
    ensures
        untransform(s, start) == rows.map_values(|r: int| s[r]),
{
    assert forall|k: int| 0 <= k < s.len() implies #[trigger] untransform(s, start)[k]
        == s[rows[k]] by {
        lemma_row_is(s, start, rows, k);
    }
}

proof fn lemma_row_is(s: Seq<u8>, start: int, rows: Seq<int>, k: int)
    requires
        s.len() <= 0x100_0000,
        0 <= start < s.len(),
        rows.len() == s.len(),
        forall|k: int| 0 <= k < rows.len() ==> 0 <= #[trigger] rows[k] < s.len(),
        sorted_place(s, rows[0]) == start,
        forall|k: int|
            #![trigger rows[k]]
            0 < k < rows.len() ==> sorted_place(s, rows[k]) == rows[k - 1],
        0 <= k < rows.len(),
    ensures
        row_after(s, start, (k + 1) as nat) == rows[k],
    decreases k,
{
    if k > 0 {
        lemma_row_is(s, start, rows, k - 1);
        place_has_its_entry(s, rows[k]);
        assert(row_after(s, start, k as nat) == rows[k - 1]);
        assert(row_after(s, start, (k + 1) as nat) == link(s, row_after(s, start, k as nat)));
    } else {
        place_has_its_entry(s, rows[0]);
        assert(row_after(s, start, 0) == start);
        assert(row_after(s, start, 1) == link(s, row_after(s, start, 0)));
    }
}

/// What is counted of a byte is how often it occurs.
pub proof fn bytes_are_counted(s: Seq<u8>, b: u8)
    ensures
        count_equal(s, b as int, s.len()) == s.filter(|x: u8| x == b).len(),
        count_less(s, b as int, s.len()) == s.filter(|x: u8| x < b).len(),
    decreases s.len(),
{
    reveal(Seq::filter);
    if s.len() > 0 {
        let before = s.drop_last();
        bytes_are_counted(before, b);
        lemma_count_equal_same(s, before, b as int, before.len());
        lemma_count_less_same(s, before, b as int, before.len());
    }
}

proof fn lemma_count_less_same(s: Seq<u8>, t: Seq<u8>, b: int, n: nat)
    requires
        forall|i: int| 0 <= i < n ==> s[i] == t[i],
    ensures
        count_less(s, b, n) == count_less(t, b, n),
    decreases n,
{
    if n > 0 {
        lemma_count_less_same(s, t, b, (n - 1) as nat);
    }
}

} // verus!
