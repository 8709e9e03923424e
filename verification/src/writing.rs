//! How a block is put down, bit by bit, and that reading gives it back.
//!
//! The functions here say what a compressor writes. They do not use what
//! [`crate::grammar`] says of reading.
use vstd::arithmetic::power2::*;
use vstd::prelude::*;

use crate::bits;
use crate::codes;
use crate::grammar;
use crate::grammar::{Coding, Parsed};
use crate::mtf;

verus! {

/// The bits stand in `all` from `pos` on.
pub open spec fn stands_at(all: Seq<bool>, pos: int, written: Seq<bool>) -> bool {
    &&& 0 <= pos
    &&& pos + written.len() <= all.len()
    &&& forall|i: int|
        #![trigger written[i]]
        0 <= i < written.len() ==> all[pos + i] == written[i]
}

/// What is written one behind the other stands one behind the other.
pub proof fn lemma_stands_apart(all: Seq<bool>, pos: int, a: Seq<bool>, b: Seq<bool>)
    requires
        stands_at(all, pos, a + b),
    ensures
        stands_at(all, pos, a),
        stands_at(all, pos + a.len(), b),
{
    let both = a + b;
    assert forall|i: int| #![trigger a[i]] 0 <= i < a.len() implies all[pos + i] == a[i] by {
        assert(both[i] == a[i]);
    }
    assert forall|i: int|
        #![trigger b[i]]
        0 <= i < b.len() implies all[pos + a.len() + i] == b[i] by {
        assert(both[a.len() + i] == b[i]);
        assert(pos + a.len() + i == pos + (a.len() + i));
    }
}

// Numbers.

/// A number, written with `n` bits.
pub open spec fn number_bits(v: nat, n: nat) -> Seq<bool>
    decreases n,
{
    if n == 0 {
        Seq::empty()
    } else {
        number_bits(v / 2, (n - 1) as nat).push(v % 2 == 1)
    }
}

pub proof fn lemma_number_len(v: nat, n: nat)
    ensures
        number_bits(v, n).len() == n,
    decreases n,
{
    if n > 0 {
        lemma_number_len(v / 2, (n - 1) as nat);
    }
}

/// A number is read back.
pub proof fn number_is_read_back(all: Seq<bool>, pos: int, v: nat, n: nat)
    requires
        stands_at(all, pos, number_bits(v, n)),
        v < pow2(n),
    ensures
        bits::bits_value(all, pos, n) == v,
        pos + n <= all.len(),
    decreases n,
{
    lemma2_to64();
    lemma_number_len(v, n);
    if n > 0 {
        let m = (n - 1) as nat;
        lemma_number_len(v / 2, m);
        lemma_pow2_unfold(n);
        let front = number_bits(v / 2, m);
        let written = number_bits(v, n);
        assert(written == front + seq![v % 2 == 1]);
        lemma_stands_apart(all, pos, front, seq![v % 2 == 1]);
        number_is_read_back(all, pos, v / 2, m);
        assert(written[m as int] == (v % 2 == 1));
    }
}

// The bytes that occur.

/// A byte of range `r` occurs.
pub open spec fn range_used(bytes: Seq<u8>, r: int) -> bool {
    exists|i: int| 0 <= i < bytes.len() && (#[trigger] bytes[i]) as int / 16 == r
}

/// One flag for each range of 16 byte values.
pub open spec fn range_flags(bytes: Seq<u8>) -> Seq<bool> {
    Seq::new(16, |r: int| range_used(bytes, r))
}

/// One flag for each byte value of a range.
pub open spec fn range_map(bytes: Seq<u8>, r: int) -> Seq<bool> {
    Seq::new(16, |k: int| bytes.contains((16 * r + k) as u8))
}

/// The maps of those of the first `n` ranges whose flag is set.
pub open spec fn range_maps(bytes: Seq<u8>, ranges: Seq<bool>, n: nat) -> Seq<bool>
    decreases n,
{
    if n == 0 {
        Seq::empty()
    } else if ranges[n - 1] {
        range_maps(bytes, ranges, (n - 1) as nat) + range_map(bytes, n - 1)
    } else {
        range_maps(bytes, ranges, (n - 1) as nat)
    }
}

/// The flag of each range in which a byte occurs is set. That of another can be.
pub open spec fn ranges_cover(bytes: Seq<u8>, ranges: Seq<bool>) -> bool {
    &&& ranges.len() == 16
    &&& forall|r: int| 0 <= r < 16 && range_flags(bytes)[r] ==> #[trigger] ranges[r]
}

/// The bytes in ascending order.
pub open spec fn ascending(bytes: Seq<u8>) -> bool {
    forall|i: int, j: int| 0 <= i < j < bytes.len() ==> bytes[i] < bytes[j]
}

/// The flags of the ranges are read back.
pub proof fn lemma_flags_read(
    all: Seq<bool>,
    pos: int,
    bytes: Seq<u8>,
    ranges: Seq<bool>,
    n: nat,
)
    requires
        ranges.len() == 16,
        stands_at(all, pos, ranges),
        n <= 16,
    ensures
        16 * grammar::ranges_before(all, pos, n) == range_maps(bytes, ranges, n).len(),
    decreases n,
{
    if n > 0 {
        lemma_flags_read(all, pos, bytes, ranges, (n - 1) as nat);
        assert(all[pos + (n - 1)] == ranges[n - 1]);
        assert(pos + n - 1 == pos + (n - 1));
    }
}

/// Where the map of a range stands among the maps.
proof fn lemma_map_place(bytes: Seq<u8>, ranges: Seq<bool>, r: nat, n: nat, k: int)
    requires
        r < n,
        ranges[r as int],
        0 <= k < 16,
    ensures
        range_maps(bytes, ranges, r).len() + k < range_maps(bytes, ranges, n).len(),
        range_maps(bytes, ranges, n)[range_maps(bytes, ranges, r).len() + k] == bytes.contains(
            (16 * r + k) as u8,
        ),
    decreases n,
{
    let before = range_maps(bytes, ranges, (n - 1) as nat);
    let place = range_maps(bytes, ranges, r).len() + k;
    if r < n - 1 {
        lemma_map_place(bytes, ranges, r, (n - 1) as nat, k);
        if ranges[n - 1] {
            assert((before + range_map(bytes, n - 1))[place] == before[place]);
        }
    } else {
        assert(range_map(bytes, r as int)[k] == bytes.contains((16 * r + k) as u8));
        assert((before + range_map(bytes, r as int))[place] == range_map(bytes, r as int)[k]);
    }
}

/// How many of the bytes are below `n`.
spec fn bytes_under(bytes: Seq<u8>, n: nat) -> nat
    decreases n,
{
    if n == 0 {
        0
    } else {
        bytes_under(bytes, (n - 1) as nat) + if bytes.contains((n - 1) as u8) {
            1nat
        } else {
            0
        }
    }
}

proof fn lemma_bytes_under(bytes: Seq<u8>, n: nat)
    requires
        ascending(bytes),
        n <= 256,
    ensures
        bytes_under(bytes, n) <= bytes.len(),
        forall|i: int| 0 <= i < bytes_under(bytes, n) ==> #[trigger] bytes[i] < n,
        forall|i: int| bytes_under(bytes, n) <= i < bytes.len() ==> #[trigger] bytes[i] >= n,
        n > 0 && bytes.contains((n - 1) as u8) ==> bytes[bytes_under(bytes, (n - 1) as nat) as int]
            == n - 1,
    decreases n,
{
    if n > 0 {
        let m = (n - 1) as nat;
        let k = bytes_under(bytes, m);
        lemma_bytes_under(bytes, m);
        if bytes.contains(m as u8) {
            let j = choose|j: int| 0 <= j < bytes.len() && bytes[j] == m as u8;
            assert(j >= k);
            if j > k {
                assert(bytes[k as int] < bytes[j]);
            }
            assert forall|i: int| k < i < bytes.len() implies #[trigger] bytes[i] >= n by {
                assert(bytes[k as int] < bytes[i]);
            }
        } else {
            assert forall|i: int| k <= i < bytes.len() implies #[trigger] bytes[i] >= n by {
                if bytes[i] == m {
                    assert(bytes.contains(bytes[i]));
                }
            }
        }
    }
}

/// The bytes are read back.
proof fn lemma_bytes_read(all: Seq<bool>, pos: int, bytes: Seq<u8>, ranges: Seq<bool>, n: nat)
    requires
        ascending(bytes),
        ranges_cover(bytes, ranges),
        stands_at(all, pos, ranges),
        stands_at(all, pos + 16, range_maps(bytes, ranges, 16)),
        n <= 256,
    ensures
        grammar::bytes_below(all, pos, n) == bytes.take(bytes_under(bytes, n) as int),
    decreases n,
{
    lemma_bytes_under(bytes, n);
    if n == 0 {
        assert(bytes.take(0) == Seq::<u8>::empty());
    } else {
        let b = (n - 1) as int;
        let r = (b / 16) as nat;
        let k = b % 16;
        lemma_bytes_read(all, pos, bytes, ranges, b as nat);
        lemma_bytes_under(bytes, b as nat);
        lemma_flags_read(all, pos, bytes, ranges, r);
        assert(all[pos + r] == ranges[r as int]);
        assert(16 * r + k == b);
        if ranges[r as int] {
            lemma_map_place(bytes, ranges, r, 16, k);
            let place = range_maps(bytes, ranges, r).len() + k;
            assert(all[pos + 16 + place] == range_maps(bytes, ranges, 16)[place]);
            assert(grammar::byte_flag(all, pos, b) == pos + 16 + place);
        } else if bytes.contains(b as u8) {
            let i = choose|i: int| 0 <= i < bytes.len() && bytes[i] == b as u8;
            assert(bytes[i] as int / 16 == r);
            assert(range_flags(bytes)[r as int]);
        }
        assert(grammar::byte_occurs(all, pos, b) == bytes.contains(b as u8));
        let under = bytes_under(bytes, b as nat) as int;
        if bytes.contains(b as u8) {
            assert(bytes.take(under).push(b as u8) == bytes.take(under + 1));
        }
    }
}

/// The list of bytes that occur is read back, and refused where it is empty.
pub proof fn lemma_bytes_read_back(all: Seq<bool>, pos: int, bytes: Seq<u8>, ranges: Seq<bool>)
    requires
        ascending(bytes),
        ranges_cover(bytes, ranges),
        stands_at(all, pos, ranges + range_maps(bytes, ranges, 16)),
    ensures
        bytes.len() > 0 ==> grammar::bytes_at(all, pos) == Parsed::Done(
            bytes,
            pos + 16 + range_maps(bytes, ranges, 16).len(),
        ),
        bytes.len() == 0 ==> grammar::bytes_at(all, pos) == Parsed::<Seq<u8>>::Fail(
            "no symbols in block"@,
            pos + 16 + range_maps(bytes, ranges, 16).len(),
        ),
{
    lemma_stands_apart(all, pos, ranges, range_maps(bytes, ranges, 16));
    lemma_flags_read(all, pos, bytes, ranges, 16);
    lemma_bytes_read(all, pos, bytes, ranges, 256);
    lemma_bytes_under(bytes, 256);
    assert(bytes_under(bytes, 256) == bytes.len()) by {
        if bytes_under(bytes, 256) < bytes.len() {
            assert(bytes[bytes_under(bytes, 256) as int] >= 256);
        }
    }
    assert(bytes.take(bytes.len() as int) == bytes);
}

// The codes that the groups choose.

/// A number in unary: that many ones, and a zero.
pub open spec fn unary_bits(n: nat) -> Seq<bool> {
    Seq::new(n, |i: int| true).push(false)
}

/// The choices, each as its place in the list `order`, from which it moves to the
/// front.
pub open spec fn selector_bits(order: Seq<u8>, selectors: Seq<u8>) -> Seq<bool>
    decreases selectors.len(),
{
    if selectors.len() == 0 {
        Seq::empty()
    } else {
        let i = order.index_of(selectors[0]);
        unary_bits(i as nat) + selector_bits(mtf::move_to_front(order, i), selectors.drop_first())
    }
}

pub proof fn lemma_unary_read(all: Seq<bool>, pos: int, limit: nat, n: nat, i: nat)
    requires
        stands_at(all, pos, unary_bits(i)),
        n + i < limit,
    ensures
        grammar::unary_at(all, pos, limit, n) == Parsed::Done(n + i, pos + i + 1),
    decreases i,
{
    assert(all[pos + 0] == unary_bits(i)[0]);
    if i > 0 {
        let rest = unary_bits((i - 1) as nat);
        assert forall|k: int| #![trigger rest[k]] 0 <= k < rest.len() implies all[pos + 1 + k]
            == rest[k] by {
            assert(unary_bits(i)[k + 1] == rest[k]);
            assert(pos + 1 + k == pos + (k + 1));
        }
        lemma_unary_read(all, pos + 1, limit, n + 1, (i - 1) as nat);
    }
}

pub proof fn lemma_selectors_read(
    all: Seq<bool>,
    pos: int,
    order: Seq<u8>,
    selectors: Seq<u8>,
    chosen: Seq<u8>,
)
    requires
        stands_at(all, pos, selector_bits(order, selectors)),
        forall|i: int| 0 <= i < selectors.len() ==> order.contains(#[trigger] selectors[i]),
    ensures
        grammar::selectors_at(all, pos, selectors.len(), order, chosen) == Parsed::Done(
            chosen + selectors,
            pos + selector_bits(order, selectors).len(),
        ),
    decreases selectors.len(),
{
    if selectors.len() == 0 {
        assert(chosen + selectors == chosen);
    } else {
        let first = selectors[0];
        let rest = selectors.drop_first();
        assert(order.contains(selectors[0]));
        let i = order.index_of(first);
        assert(0 <= i < order.len() && order[i] == first);
        let moved = mtf::move_to_front(order, i);
        lemma_stands_apart(all, pos, unary_bits(i as nat), selector_bits(moved, rest));
        lemma_unary_read(all, pos, order.len(), 0, i as nat);
        mtf::move_to_front_keeps_symbols(order, i);
        assert forall|k: int| 0 <= k < rest.len() implies moved.contains(#[trigger] rest[k]) by {
            assert(rest[k] == selectors[k + 1]);
            mtf::lemma_still_there(order, moved, rest[k]);
        }
        lemma_selectors_read(all, pos + i + 1, moved, rest, chosen.push(first));
        assert(chosen.push(first) + rest == chosen + selectors);
    }
}

// The codes.

/// The steps from one length to another: each a one and then a zero for one more
/// or a one for one less, and a zero behind the last.
pub open spec fn step_bits(from: int, to: int) -> Seq<bool>
    decreases if from < to { to - from } else { from - to },
{
    if from == to {
        seq![false]
    } else if from < to {
        seq![true, false] + step_bits(from + 1, to)
    } else {
        seq![true, true] + step_bits(from - 1, to)
    }
}

/// The lengths, each as the steps from the one before.
pub open spec fn length_bits(from: int, lengths: Seq<u8>) -> Seq<bool>
    decreases lengths.len(),
{
    if lengths.len() == 0 {
        Seq::empty()
    } else {
        step_bits(from, lengths[0] as int) + length_bits(
            lengths[0] as int,
            lengths.drop_first(),
        )
    }
}

/// One code: the length from which the steps begin, and the steps.
pub open spec fn code_bits(first: nat, lengths: Seq<u8>) -> Seq<bool> {
    number_bits(first, 5) + length_bits(first as int, lengths)
}

/// The codes, one behind the other.
pub open spec fn codes_bits(firsts: Seq<nat>, codes: Seq<Seq<u8>>) -> Seq<bool>
    decreases codes.len(),
{
    if codes.len() == 0 {
        Seq::empty()
    } else {
        code_bits(firsts[0], codes[0]) + codes_bits(firsts.drop_first(), codes.drop_first())
    }
}

pub proof fn lemma_steps_read(all: Seq<bool>, pos: int, from: int, to: int)
    requires
        stands_at(all, pos, step_bits(from, to)),
        1 <= from <= 20,
        1 <= to <= 20,
    ensures
        grammar::length_at(all, pos, from) == Parsed::Done(to, pos + step_bits(from, to).len()),
    decreases if from < to { to - from } else { from - to },
{
    let written = step_bits(from, to);
    assert(all[pos + 0] == written[0]);
    if from != to {
        let next = if from < to {
            from + 1
        } else {
            from - 1
        };
        let step = seq![true, from > to];
        assert(written == step + step_bits(next, to));
        lemma_stands_apart(all, pos, step, step_bits(next, to));
        assert(all[pos + 1] == written[1]);
        lemma_steps_read(all, pos + 2, next, to);
    }
}

pub proof fn lemma_lengths_read(
    all: Seq<bool>,
    pos: int,
    from: int,
    lengths: Seq<u8>,
    known: Seq<u8>,
)
    requires
        stands_at(all, pos, length_bits(from, lengths)),
        1 <= from <= 20,
        forall|i: int| 0 <= i < lengths.len() ==> 1 <= #[trigger] lengths[i] <= 20,
    ensures
        grammar::lengths_at(all, pos, lengths.len(), from, known) == Parsed::Done(
            known + lengths,
            pos + length_bits(from, lengths).len(),
        ),
    decreases lengths.len(),
{
    if lengths.len() == 0 {
        assert(known + lengths == known);
    } else {
        let first = lengths[0] as int;
        let rest = lengths.drop_first();
        let steps = step_bits(from, first);
        assert(1 <= lengths[0] <= 20);
        lemma_stands_apart(all, pos, steps, length_bits(first, rest));
        lemma_steps_read(all, pos, from, first);
        assert forall|i: int| 0 <= i < rest.len() implies 1 <= #[trigger] rest[i] <= 20 by {
            assert(rest[i] == lengths[i + 1]);
        }
        lemma_lengths_read(all, pos + steps.len(), first, rest, known.push(lengths[0]));
        assert(known.push(lengths[0]) + rest == known + lengths);
    }
}

/// A code can be written: no length is out of range, the steps begin within it,
/// and the sum over all words of up to twelve bits of `2^-length` is at most 1.
pub open spec fn code_valid(first: nat, lengths: Seq<u8>, symbols: nat) -> bool {
    &&& lengths.len() == symbols
    &&& 1 <= first <= 20
    &&& forall|i: int| 0 <= i < lengths.len() ==> 1 <= #[trigger] lengths[i] <= 20
    &&& codes::kraft_sum(lengths, 12, lengths.len()) <= pow2(12)
}

pub proof fn lemma_code_read(all: Seq<bool>, pos: int, first: nat, lengths: Seq<u8>)
    requires
        code_valid(first, lengths, lengths.len()),
        stands_at(all, pos, code_bits(first, lengths)),
    ensures
        grammar::code_at(all, pos, lengths.len()) == Parsed::Done(
            lengths,
            pos + code_bits(first, lengths).len(),
        ),
{
    lemma2_to64();
    codes::short_words_decide(lengths);
    lemma_number_len(first, 5);
    lemma_stands_apart(all, pos, number_bits(first, 5), length_bits(first as int, lengths));
    number_is_read_back(all, pos, first, 5);
    lemma_lengths_read(all, pos + 5, first as int, lengths, Seq::empty());
    assert(Seq::<u8>::empty() + lengths == lengths);
}

pub proof fn lemma_codes_read(
    all: Seq<bool>,
    pos: int,
    firsts: Seq<nat>,
    codes: Seq<Seq<u8>>,
    symbols: nat,
    known: Seq<Seq<u8>>,
)
    requires
        firsts.len() == codes.len(),
        forall|i: int|
            0 <= i < codes.len() ==> code_valid(firsts[i], #[trigger] codes[i], symbols),
        stands_at(all, pos, codes_bits(firsts, codes)),
    ensures
        grammar::codes_at(all, pos, codes.len(), symbols, known) == Parsed::Done(
            known + codes,
            pos + codes_bits(firsts, codes).len(),
        ),
    decreases codes.len(),
{
    if codes.len() == 0 {
        assert(known + codes == known);
    } else {
        let rest = codes.drop_first();
        let others = firsts.drop_first();
        let one = code_bits(firsts[0], codes[0]);
        assert(code_valid(firsts[0], codes[0], symbols));
        lemma_stands_apart(all, pos, one, codes_bits(others, rest));
        lemma_code_read(all, pos, firsts[0], codes[0]);
        assert forall|i: int| 0 <= i < rest.len() implies code_valid(
            others[i],
            #[trigger] rest[i],
            symbols,
        ) by {
            assert(rest[i] == codes[i + 1]);
        }
        lemma_codes_read(all, pos + one.len(), others, rest, symbols, known.push(codes[0]));
        assert(known.push(codes[0]) + rest == known + codes);
    }
}

// The head.

/// What the head of a block says.
pub struct Head {
    /// The checksum of the text.
    pub checksum: nat,
    /// The row of the text in the sorted table.
    pub start: nat,
    /// The bytes that occur, in ascending order.
    pub bytes: Seq<u8>,
    /// Which ranges of 16 byte values have a map.
    pub ranges: Seq<bool>,
    /// The code that each group is written in.
    pub selectors: Seq<u8>,
    /// The word lengths of each code.
    pub codes: Seq<Seq<u8>>,
    /// The length from which the steps of each code begin.
    pub firsts: Seq<nat>,
}

impl Head {
    /// The head can be written.
    pub open spec fn valid(self) -> bool {
        &&& self.checksum < pow2(32)
        &&& self.start < pow2(24)
        &&& self.bytes.len() > 0
        &&& ascending(self.bytes)
        &&& ranges_cover(self.bytes, self.ranges)
        &&& self.selectors.len() < pow2(15)
        &&& 2 <= self.codes.len() <= 6
        &&& forall|i: int|
            0 <= i < self.selectors.len() ==> #[trigger] self.selectors[i] < self.codes.len()
        &&& self.firsts.len() == self.codes.len()
        &&& forall|i: int|
            0 <= i < self.codes.len() ==> code_valid(
                self.firsts[i],
                #[trigger] self.codes[i],
                self.bytes.len() + 2,
            )
    }

    /// The head as a compressor puts it down.
    pub open spec fn bits(self) -> Seq<bool> {
        number_bits(self.checksum, 32) + (seq![false] + (number_bits(self.start, 24) + ((
        self.ranges + range_maps(self.bytes, self.ranges, 16)) + (number_bits(
            self.codes.len(),
            3,
        ) + (number_bits(self.selectors.len(), 15) + (selector_bits(
            Seq::new(self.codes.len(), |i: int| i as u8),
            self.selectors,
        ) + codes_bits(self.firsts, self.codes)))))))
    }

    /// How the body behind the head is coded, in a block of at most `max` bytes.
    pub open spec fn coding(self, max: nat) -> Coding {
        Coding { codes: self.codes, selectors: self.selectors, end: self.bytes.len() + 1, max }
    }
}

/// The front of a head, up to the list of bytes.
pub proof fn lemma_start_read(all: Seq<bool>, pos: int, head: Head, rest: Seq<bool>)
    requires
        head.valid(),
        stands_at(
            all,
            pos,
            number_bits(head.checksum, 32) + (seq![false] + (number_bits(head.start, 24) + rest)),
        ),
    ensures
        grammar::start_at(all, pos) == Parsed::Done(head.start, pos + 57),
        stands_at(all, pos + 57, rest),
{
    lemma_number_len(head.checksum, 32);
    lemma_number_len(head.start, 24);
    let a = number_bits(head.checksum, 32);
    let b = number_bits(head.start, 24);
    lemma_stands_apart(all, pos, a, seq![false] + (b + rest));
    lemma_stands_apart(all, pos + 32, seq![false], b + rest);
    assert(all[pos + 32 + 0] == seq![false][0]);
    lemma_stands_apart(all, pos + 33, b, rest);
    number_is_read_back(all, pos + 33, head.start, 24);
}

/// The number of codes and of groups.
pub proof fn lemma_groups_read(all: Seq<bool>, pos: int, groups: nat, count: nat, rest: Seq<bool>)
    requires
        2 <= groups <= 6,
        count < pow2(15),
        stands_at(all, pos, number_bits(groups, 3) + (number_bits(count, 15) + rest)),
    ensures
        grammar::groups_at(all, pos) == Parsed::Done((groups, count), pos + 18),
        stands_at(all, pos + 18, rest),
{
    lemma2_to64();
    lemma_number_len(groups, 3);
    lemma_number_len(count, 15);
    lemma_stands_apart(all, pos, number_bits(groups, 3), number_bits(count, 15) + rest);
    lemma_stands_apart(all, pos + 3, number_bits(count, 15), rest);
    number_is_read_back(all, pos, groups, 3);
    number_is_read_back(all, pos + 3, count, 15);
}

/// A head is read back: where it stands as a compressor puts it down, reading
/// gives the row, the bytes, the choices and the codes that it was written from,
/// and the position behind it.
pub proof fn head_is_read_back(all: Seq<bool>, pos: int, max: nat, head: Head)
    requires
        head.valid(),
        stands_at(all, pos, head.bits()),
    ensures
        grammar::head_at(all, pos, max) == Some(
            (head.start, head.bytes, head.coding(max), pos + head.bits().len()),
        ),
{
    let groups = head.codes.len();
    let count = head.selectors.len();
    let order = grammar::first_numbers(groups);
    let selectors = selector_bits(order, head.selectors);
    let codes = codes_bits(head.firsts, head.codes);
    let numbers = number_bits(groups, 3) + (number_bits(count, 15) + (selectors + codes));
    let maps = head.ranges + range_maps(head.bytes, head.ranges, 16);
    assert(order == Seq::new(groups, |i: int| i as u8));
    lemma_number_len(head.checksum, 32);
    lemma_number_len(head.start, 24);
    lemma_number_len(groups, 3);
    lemma_number_len(count, 15);
    lemma_start_read(all, pos, head, maps + numbers);
    let p1 = pos + 57;
    lemma_stands_apart(all, p1, maps, numbers);
    lemma_bytes_read_back(all, p1, head.bytes, head.ranges);
    let p2 = p1 + maps.len();
    lemma_groups_read(all, p2, groups, count, selectors + codes);
    let p3 = p2 + 18;
    lemma_stands_apart(all, p3, selectors, codes);
    assert forall|i: int| 0 <= i < count implies order.contains(
        #[trigger] head.selectors[i],
    ) by {
        assert(order[head.selectors[i] as int] == head.selectors[i]);
    }
    lemma_selectors_read(all, p3, order, head.selectors, Seq::empty());
    assert(Seq::<u8>::empty() + head.selectors == head.selectors);
    let p4 = p3 + selectors.len();
    lemma_codes_read(all, p4, head.firsts, head.codes, head.bytes.len() + 2, Seq::empty());
    assert(Seq::<Seq<u8>>::empty() + head.codes == head.codes);
}

} // verus!
