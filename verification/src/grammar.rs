//! The bzip2 format: what the bits of a block say.
//!
//! Every part of a block is described by a function from the bits and the
//! position at which the part begins to what it holds and the position behind it,
//! or to the reason why it cannot be read and the position that was reached.
use vstd::prelude::*;

use crate::bits;
use crate::bwt;
use crate::codes;
use crate::mtf;
use crate::rle;

verus! {

/// The longest run that a block can hold: nine times 100,000 bytes.
pub const MAX_BLOCKSIZE: usize = 900_000;

/// How many symbols are read with one code before the next is chosen.
pub const GROUP_SIZE: usize = 50;

/// What a part of the bits holds and the position behind it, or why it cannot be
/// read and the position that was reached.
pub enum Parsed<T> {
    Done(T, int),
    Fail(Seq<char>, int),
}

// The head of a block.

/// The row of the text in the sorted table, behind a checksum and a flag that
/// has to be off.
pub open spec fn start_at(all: Seq<bool>, pos: int) -> Parsed<nat> {
    if pos + 32 > all.len() {
        Parsed::Fail("block CRC truncated"@, pos)
    } else if pos + 33 > all.len() {
        Parsed::Fail("randomised flag truncated"@, pos + 32)
    } else if all[pos + 32] {
        Parsed::Fail("randomised blocks not supported"@, pos + 33)
    } else if pos + 57 > all.len() {
        Parsed::Fail("orig_ptr truncated"@, pos + 33)
    } else {
        Parsed::Done(bits::bits_value(all, pos + 33, 24), pos + 57)
    }
}

/// How many of the first `r` ranges of 16 byte values have a map, where the flags
/// of the ranges stand at `pos`.
pub open spec fn ranges_before(all: Seq<bool>, pos: int, r: nat) -> nat
    decreases r,
{
    if r == 0 {
        0
    } else {
        ranges_before(all, pos, (r - 1) as nat) + bits::bit_value(all[pos + r - 1])
    }
}

/// Where the flag of byte value `b` stands, if its range has a map.
pub open spec fn byte_flag(all: Seq<bool>, pos: int, b: int) -> int {
    pos + 16 + 16 * ranges_before(all, pos, (b / 16) as nat) + b % 16
}

/// Byte value `b` occurs in the block.
pub open spec fn byte_occurs(all: Seq<bool>, pos: int, b: int) -> bool {
    all[pos + b / 16] && all[byte_flag(all, pos, b)]
}

/// The byte values below `n` that occur in the block, in ascending order.
pub open spec fn bytes_below(all: Seq<bool>, pos: int, n: nat) -> Seq<u8>
    decreases n,
{
    if n == 0 {
        Seq::empty()
    } else if byte_occurs(all, pos, n - 1) {
        bytes_below(all, pos, (n - 1) as nat).push((n - 1) as u8)
    } else {
        bytes_below(all, pos, (n - 1) as nat)
    }
}

/// The byte values that occur in the block.
pub open spec fn bytes_at(all: Seq<bool>, pos: int) -> Parsed<Seq<u8>> {
    let end = pos + 16 + 16 * ranges_before(all, pos, 16);
    if pos + 16 > all.len() {
        Parsed::Fail("symbol range truncated"@, all.len() as int)
    } else if end > all.len() {
        Parsed::Fail("symbol bitmap truncated"@, all.len() as int)
    } else if bytes_below(all, pos, 256).len() == 0 {
        Parsed::Fail("no symbols in block"@, end)
    } else {
        Parsed::Done(bytes_below(all, pos, 256), end)
    }
}

/// The number of codes and the number of groups that choose one.
pub open spec fn groups_at(all: Seq<bool>, pos: int) -> Parsed<(nat, nat)> {
    let groups = bits::bits_value(all, pos, 3);
    if pos + 3 > all.len() {
        Parsed::Fail("huffman groups truncated"@, pos)
    } else if groups < 2 || groups > 6 {
        Parsed::Fail("invalid number of huffman groups"@, pos + 3)
    } else if pos + 18 > all.len() {
        Parsed::Fail("selectors_used truncated"@, pos + 3)
    } else {
        Parsed::Done((groups, bits::bits_value(all, pos + 3, 15)), pos + 18)
    }
}

/// A number below `limit`, written as that many ones and a zero, of which `n` ones
/// have been read.
pub open spec fn unary_at(all: Seq<bool>, pos: int, limit: nat, n: nat) -> Parsed<nat>
    decreases all.len() - pos,
{
    if pos >= all.len() {
        Parsed::Fail("selector bit truncated"@, pos)
    } else if !all[pos] {
        Parsed::Done(n, pos + 1)
    } else if n + 1 >= limit {
        Parsed::Fail("selector tree index too large"@, pos + 1)
    } else {
        unary_at(all, pos + 1, limit, n + 1)
    }
}

/// The codes that the groups choose: `left` further ones behind those in `chosen`,
/// each written as its place in the list `order`, from which it moves to the front.
pub open spec fn selectors_at(
    all: Seq<bool>,
    pos: int,
    left: nat,
    order: Seq<u8>,
    chosen: Seq<u8>,
) -> Parsed<Seq<u8>>
    decreases left,
{
    if left == 0 {
        Parsed::Done(chosen, pos)
    } else {
        match unary_at(all, pos, order.len(), 0) {
            Parsed::Fail(why, at) => Parsed::Fail(why, at),
            Parsed::Done(i, next) => selectors_at(
                all,
                next,
                (left - 1) as nat,
                mtf::move_to_front(order, i as int),
                chosen.push(order[i as int]),
            ),
        }
    }
}

/// A word length, written as the steps that lead to it from `len`.
pub open spec fn length_at(all: Seq<bool>, pos: int, len: int) -> Parsed<int>
    decreases all.len() - pos,
{
    if len < 1 || len > 20 {
        Parsed::Fail("huffman code length out of range"@, pos)
    } else if pos >= all.len() {
        Parsed::Fail("length adjust bit1 truncated"@, pos)
    } else if !all[pos] {
        Parsed::Done(len, pos + 1)
    } else if pos + 1 >= all.len() {
        Parsed::Fail("length adjust bit2 truncated"@, pos + 1)
    } else {
        length_at(
            all,
            pos + 2,
            if all[pos + 1] {
                len - 1
            } else {
                len + 1
            },
        )
    }
}

/// The word lengths of one code: `left` further ones behind those in `known`, the
/// first of which is written as the steps from `len`.
pub open spec fn lengths_at(
    all: Seq<bool>,
    pos: int,
    left: nat,
    len: int,
    known: Seq<u8>,
) -> Parsed<Seq<u8>>
    decreases left,
{
    if left == 0 {
        Parsed::Done(known, pos)
    } else {
        match length_at(all, pos, len) {
            Parsed::Fail(why, at) => Parsed::Fail(why, at),
            Parsed::Done(l, next) => lengths_at(
                all,
                next,
                (left - 1) as nat,
                l,
                known.push(l as u8),
            ),
        }
    }
}

/// The word lengths of one code of `symbols` symbols.
pub open spec fn code_at(all: Seq<bool>, pos: int, symbols: nat) -> Parsed<Seq<u8>> {
    if pos + 5 > all.len() {
        Parsed::Fail("huffman start length truncated"@, pos)
    } else {
        match lengths_at(
            all,
            pos + 5,
            symbols,
            bits::bits_value(all, pos, 5) as int,
            Seq::empty(),
        ) {
            Parsed::Fail(why, at) => Parsed::Fail(why, at),
            Parsed::Done(lengths, next) => if codes::table_fits(lengths) {
                Parsed::Done(lengths, next)
            } else {
                Parsed::Fail("invalid huffman tree"@, next)
            },
        }
    }
}

/// The codes of a block: `left` further ones behind those in `known`.
pub open spec fn codes_at(
    all: Seq<bool>,
    pos: int,
    left: nat,
    symbols: nat,
    known: Seq<Seq<u8>>,
) -> Parsed<Seq<Seq<u8>>>
    decreases left,
{
    if left == 0 {
        Parsed::Done(known, pos)
    } else {
        match code_at(all, pos, symbols) {
            Parsed::Fail(why, at) => Parsed::Fail(why, at),
            Parsed::Done(lengths, next) => codes_at(
                all,
                next,
                (left - 1) as nat,
                symbols,
                known.push(lengths),
            ),
        }
    }
}

// The body of a block.

/// What the head of a block says of its body.
pub struct Coding {
    /// The word lengths of each code.
    pub codes: Seq<Seq<u8>>,
    /// The code that each group is written in.
    pub selectors: Seq<u8>,
    /// The symbol behind the last byte.
    pub end: nat,
    /// How many bytes a block can have.
    pub max: nat,
}

/// How far the body of a block has been read.
pub struct Progress {
    /// The number of symbols read.
    pub count: nat,
    /// The length of the run that the last symbols give.
    pub run: nat,
    /// What the next digit of that length counts.
    pub weight: nat,
    /// The bytes in the order of their last use.
    pub order: Seq<u8>,
    /// The column read so far.
    pub column: Seq<u8>,
}

impl Progress {
    /// Nothing of the body has been read.
    pub open spec fn start(order: Seq<u8>) -> Progress {
        Progress { count: 0, run: 0, weight: 1, order, column: Seq::empty() }
    }

    /// The column once the pending run has been written out.
    pub open spec fn flushed(self) -> Seq<u8> {
        self.column + rle::run_of(self.order[0], self.run)
    }

    /// One more digit of the length of a run has been read: symbol 0 counts the
    /// weight of its place once, symbol 1 twice.
    pub open spec fn with_digit(self, sym: int) -> Progress {
        let weight = if self.run == 0 {
            1
        } else {
            self.weight
        };
        Progress {
            count: self.count + 1,
            run: self.run + weight * (sym + 1) as nat,
            weight: 2 * weight,
            ..self
        }
    }

    /// The byte at place `i` has been read.
    pub open spec fn with_byte(self, i: int) -> Progress {
        Progress {
            count: self.count + 1,
            run: 0,
            weight: 1,
            order: mtf::move_to_front(self.order, i),
            column: self.flushed().push(self.order[i]),
        }
    }
}

/// The column that the symbols from `pos` on give.
pub open spec fn column_at(all: Seq<bool>, pos: int, coding: Coding, so_far: Progress) -> Parsed<
    Seq<u8>,
>
    decreases all.len() - pos,
{
    let group = (so_far.count / GROUP_SIZE as nat) as int;
    if group >= coding.selectors.len() {
        Parsed::Fail(
            if so_far.count == 0 {
                "no selectors"@
            } else {
                "ran out of selectors"@
            },
            pos,
        )
    } else {
        let lengths = coding.codes[coding.selectors[group] as int];
        proof {
            codes::lemma_decode_at(lengths, all, pos);
        }
        match codes::decode_at(lengths, all, pos) {
            None => Parsed::Fail("huffman bitstream truncated"@, all.len() as int),
            Some((sym, next)) => if sym < 2 {
                if so_far.with_digit(sym).run > MAX_BLOCKSIZE {
                    Parsed::Fail("repeat count too large"@, next)
                } else {
                    column_at(all, next, coding, so_far.with_digit(sym))
                }
            } else if so_far.run > 0 && so_far.flushed().len() > coding.max {
                Parsed::Fail("data exceeds block size"@, next)
            } else if sym == coding.end {
                Parsed::Done(so_far.flushed(), next)
            } else if so_far.flushed().len() >= coding.max {
                Parsed::Fail("data exceeds block size"@, next)
            } else {
                column_at(all, next, coding, so_far.with_byte(sym - 1))
            },
        }
    }
}

/// The body of a block whose text stands in row `start` of the sorted table.
pub open spec fn body_at(
    all: Seq<bool>,
    pos: int,
    coding: Coding,
    bytes: Seq<u8>,
    start: nat,
) -> Parsed<Seq<u8>> {
    match column_at(all, pos, coding, Progress::start(bytes)) {
        Parsed::Fail(why, at) => Parsed::Fail(why, at),
        Parsed::Done(column, next) => if start >= column.len() {
            Parsed::Fail("orig_ptr out of bounds"@, next)
        } else {
            Parsed::Done(rle::unrun(bwt::untransform(column, start as int)), next)
        },
    }
}

/// The numbers below `n`, in ascending order.
pub open spec fn first_numbers(n: nat) -> Seq<u8> {
    Seq::new(n, |i: int| i as u8)
}

/// The text of a block of at most `max` bytes that begins at `pos`, behind the
/// number that marks a block.
pub open spec fn block_at(all: Seq<bool>, pos: int, max: nat) -> Parsed<Seq<u8>> {
    match start_at(all, pos) {
        Parsed::Fail(why, at) => Parsed::Fail(why, at),
        Parsed::Done(start, p1) => match bytes_at(all, p1) {
            Parsed::Fail(why, at) => Parsed::Fail(why, at),
            Parsed::Done(bytes, p2) => match groups_at(all, p2) {
                Parsed::Fail(why, at) => Parsed::Fail(why, at),
                Parsed::Done((groups, count), p3) => match selectors_at(
                    all,
                    p3,
                    count,
                    first_numbers(groups),
                    Seq::empty(),
                ) {
                    Parsed::Fail(why, at) => Parsed::Fail(why, at),
                    Parsed::Done(selectors, p4) => match codes_at(
                        all,
                        p4,
                        groups,
                        bytes.len() + 2,
                        Seq::empty(),
                    ) {
                        Parsed::Fail(why, at) => Parsed::Fail(why, at),
                        Parsed::Done(codes, p5) => body_at(
                            all,
                            p5,
                            Coding { codes, selectors, end: bytes.len() + 1, max },
                            bytes,
                            start,
                        ),
                    },
                },
            },
        },
    }
}

/// What the head of a block says: the row of the text, the bytes that occur, how
/// the body is coded, and where it begins.
pub open spec fn head_at(all: Seq<bool>, pos: int, max: nat) -> Option<
    (nat, Seq<u8>, Coding, int),
> {
    match start_at(all, pos) {
        Parsed::Fail(_, _) => None,
        Parsed::Done(start, p1) => match bytes_at(all, p1) {
            Parsed::Fail(_, _) => None,
            Parsed::Done(bytes, p2) => match groups_at(all, p2) {
                Parsed::Fail(_, _) => None,
                Parsed::Done((groups, count), p3) => match selectors_at(
                    all,
                    p3,
                    count,
                    first_numbers(groups),
                    Seq::empty(),
                ) {
                    Parsed::Fail(_, _) => None,
                    Parsed::Done(selectors, p4) => match codes_at(
                        all,
                        p4,
                        groups,
                        bytes.len() + 2,
                        Seq::empty(),
                    ) {
                        Parsed::Fail(_, _) => None,
                        Parsed::Done(codes, p5) => Some(
                            (
                                start,
                                bytes,
                                Coding { codes, selectors, end: bytes.len() + 1, max },
                                p5,
                            ),
                        ),
                    },
                },
            },
        },
    }
}

/// The flags of a byte whose range has a map stand within the maps.
pub proof fn lemma_ranges_grow(all: Seq<bool>, pos: int, r: nat, s: nat)
    requires
        r < s,
    ensures
        ranges_before(all, pos, r) + bits::bit_value(all[pos + r])
            <= ranges_before(all, pos, s),
    decreases s,
{
    if r + 1 < s {
        lemma_ranges_grow(all, pos, r, (s - 1) as nat);
    } else {
        assert(pos + s - 1 == pos + r);
    }
}

// Reading goes forward.

pub proof fn lemma_unary_end(all: Seq<bool>, pos: int, limit: nat, n: nat)
    ensures
        unary_at(all, pos, limit, n) matches Parsed::Done(v, next) ==> pos < next && n <= v,
    decreases all.len() - pos,
{
    if pos < all.len() && all[pos] && n + 1 < limit {
        lemma_unary_end(all, pos + 1, limit, n + 1);
    }
}

pub proof fn lemma_selectors_end(
    all: Seq<bool>,
    pos: int,
    left: nat,
    order: Seq<u8>,
    chosen: Seq<u8>,
)
    ensures
        selectors_at(all, pos, left, order, chosen) matches Parsed::Done(_, next) ==> pos <= next,
    decreases left,
{
    if left > 0 {
        lemma_unary_end(all, pos, order.len(), 0);
        if let Parsed::Done(i, next) = unary_at(all, pos, order.len(), 0) {
            lemma_selectors_end(
                all,
                next,
                (left - 1) as nat,
                mtf::move_to_front(order, i as int),
                chosen.push(order[i as int]),
            );
        }
    }
}

pub proof fn lemma_length_end(all: Seq<bool>, pos: int, len: int)
    ensures
        length_at(all, pos, len) matches Parsed::Done(_, next) ==> pos < next,
    decreases all.len() - pos,
{
    if 1 <= len <= 20 && pos + 1 < all.len() && all[pos] {
        lemma_length_end(
            all,
            pos + 2,
            if all[pos + 1] {
                len - 1
            } else {
                len + 1
            },
        );
    }
}

pub proof fn lemma_lengths_end(all: Seq<bool>, pos: int, left: nat, len: int, known: Seq<u8>)
    ensures
        lengths_at(all, pos, left, len, known) matches Parsed::Done(_, next) ==> pos <= next,
    decreases left,
{
    if left > 0 {
        lemma_length_end(all, pos, len);
        if let Parsed::Done(l, next) = length_at(all, pos, len) {
            lemma_lengths_end(all, next, (left - 1) as nat, l, known.push(l as u8));
        }
    }
}

pub proof fn lemma_codes_end(
    all: Seq<bool>,
    pos: int,
    left: nat,
    symbols: nat,
    known: Seq<Seq<u8>>,
)
    ensures
        codes_at(all, pos, left, symbols, known) matches Parsed::Done(_, next) ==> pos <= next,
    decreases left,
{
    if left > 0 {
        lemma_lengths_end(
            all,
            pos + 5,
            symbols,
            bits::bits_value(all, pos, 5) as int,
            Seq::empty(),
        );
        if let Parsed::Done(lengths, next) = code_at(all, pos, symbols) {
            lemma_codes_end(all, next, (left - 1) as nat, symbols, known.push(lengths));
        }
    }
}

pub proof fn lemma_column_end(all: Seq<bool>, pos: int, coding: Coding, so_far: Progress)
    ensures
        column_at(all, pos, coding, so_far) matches Parsed::Done(_, next) ==> pos < next
            <= all.len(),
    decreases all.len() - pos,
{
    let group = (so_far.count / GROUP_SIZE as nat) as int;
    if group < coding.selectors.len() {
        let lengths = coding.codes[coding.selectors[group] as int];
        codes::lemma_decode_at(lengths, all, pos);
        if let Some((sym, next)) = codes::decode_at(lengths, all, pos) {
            if sym < 2 {
                lemma_column_end(all, next, coding, so_far.with_digit(sym));
            } else {
                lemma_column_end(all, next, coding, so_far.with_byte(sym - 1));
            }
        }
    }
}

/// A block has at least the 57 bits of its head, and ends where the bits do or
/// before.
pub proof fn lemma_block_end(all: Seq<bool>, pos: int, max: nat)
    ensures
        block_at(all, pos, max) matches Parsed::Done(_, next) ==> pos + 57 <= next <= all.len(),
{
    if let Parsed::Done(start, p1) = start_at(all, pos) {
        if let Parsed::Done(bytes, p2) = bytes_at(all, p1) {
            if let Parsed::Done((groups, count), p3) = groups_at(all, p2) {
                lemma_selectors_end(all, p3, count, first_numbers(groups), Seq::empty());
                if let Parsed::Done(selectors, p4) = selectors_at(
                    all,
                    p3,
                    count,
                    first_numbers(groups),
                    Seq::empty(),
                ) {
                    lemma_codes_end(all, p4, groups, bytes.len() + 2, Seq::empty());
                    if let Parsed::Done(codes, p5) = codes_at(
                        all,
                        p4,
                        groups,
                        bytes.len() + 2,
                        Seq::empty(),
                    ) {
                        lemma_column_end(
                            all,
                            p5,
                            Coding { codes, selectors, end: bytes.len() + 1, max },
                            Progress::start(bytes),
                        );
                    }
                }
            }
        }
    }
}

/// A block holds at least one byte.
pub proof fn lemma_block_some(all: Seq<bool>, pos: int, max: nat)
    ensures
        block_at(all, pos, max) matches Parsed::Done(text, _) ==> text.len() > 0,
{
    if let Some((start, bytes, coding, behind)) = head_at(all, pos, max) {
        if let Parsed::Done(column, _) = column_at(all, behind, coding, Progress::start(bytes)) {
            if start < column.len() {
                rle::lemma_unrun_some(bwt::untransform(column, start as int));
            }
        }
    }
}

proof fn lemma_column_larger(
    all: Seq<bool>,
    pos: int,
    coding: Coding,
    so_far: Progress,
    larger: nat,
)
    requires
        coding.max <= larger,
        column_at(all, pos, coding, so_far) is Done,
    ensures
        column_at(all, pos, Coding { max: larger, ..coding }, so_far) == column_at(
            all,
            pos,
            coding,
            so_far,
        ),
    decreases all.len() - pos,
{
    let group = (so_far.count / GROUP_SIZE as nat) as int;
    let lengths = coding.codes[coding.selectors[group] as int];
    codes::lemma_decode_at(lengths, all, pos);
    if let Some((sym, next)) = codes::decode_at(lengths, all, pos) {
        if sym < 2 {
            lemma_column_larger(all, next, coding, so_far.with_digit(sym), larger);
        } else if sym != coding.end {
            lemma_column_larger(all, next, coding, so_far.with_byte(sym - 1), larger);
        }
    }
}

/// A block that can be decoded can be decoded where larger ones are allowed, and
/// is the same.
pub proof fn lemma_block_larger(all: Seq<bool>, pos: int, max: nat, larger: nat)
    requires
        max <= larger,
        block_at(all, pos, max) is Done,
    ensures
        block_at(all, pos, larger) == block_at(all, pos, max),
{
    let (_, bytes, coding, behind) = head_at(all, pos, max)->0;
    lemma_column_larger(all, behind, coding, Progress::start(bytes), larger);
}

} // verus!
