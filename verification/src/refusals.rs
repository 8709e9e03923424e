//! What the decoder refuses, and for which reason.
//!
//! A block is written as far as to where something is wrong with it, and from
//! there on in a way in which no compressor goes on.
use vstd::arithmetic::power2::*;
use vstd::prelude::*;

use crate::bits;
use crate::codes;
use crate::encoding;
use crate::encoding::Block;
use crate::grammar;
use crate::grammar::{Coding, Parsed, Progress, GROUP_SIZE, MAX_BLOCKSIZE};
use crate::locality;
use crate::mtf;
use crate::rle;
use crate::stream;
use crate::stream::Decoded;
use crate::writing;
use crate::writing::Head;

verus! {

/// The block at bit `pos` cannot be decoded, for the given reason.
pub open spec fn refused(all: Seq<bool>, pos: int, max: nat, why: Seq<char>) -> bool {
    grammar::block_at(all, pos, max) matches Parsed::Fail(reason, _) && reason == why
}

/// The block at bit `pos` cannot be decoded, for the given reason, and reading ends
/// at bit `at`.
pub open spec fn refused_at(all: Seq<bool>, pos: int, max: nat, why: Seq<char>, at: int) -> bool {
    grammar::block_at(all, pos, max) == Parsed::<Seq<u8>>::Fail(why, at)
}

// The front of the head.

/// A block that ends within its first 57 bits is refused, and so is one whose text
/// was shuffled before it was sorted.
pub proof fn short_start_is_refused(all: Seq<bool>, pos: int, max: nat)
    requires
        0 <= pos,
    ensures
        all.len() < pos + 32 ==> refused_at(all, pos, max, "block CRC truncated"@, pos),
        all.len() == pos + 32 ==> refused_at(all, pos, max, "randomised flag truncated"@, pos + 32),
        all.len() >= pos + 33 && all[pos + 32] ==> refused_at(
            all,
            pos,
            max,
            "randomised blocks not supported"@,
            pos + 33,
        ),
        pos + 33 <= all.len() < pos + 57 && !all[pos + 32] ==> refused_at(
            all,
            pos,
            max,
            "orig_ptr truncated"@,
            pos + 33,
        ),
{
}

/// The first numbers of a block, and how many codes and groups there are.
pub struct Front {
    pub checksum: nat,
    pub start: nat,
    pub bytes: Seq<u8>,
    pub ranges: Seq<bool>,
    pub groups: nat,
    pub count: nat,
}

impl Front {
    /// The checksum, the flag, and the row of the text stand at bit `pos`.
    pub open spec fn start_stands(self, all: Seq<bool>, pos: int) -> bool {
        &&& self.checksum < pow2(32)
        &&& self.start < pow2(24)
        &&& writing::stands_at(all, pos, writing::number_bits(self.checksum, 32))
        &&& writing::stands_at(all, pos + 32, seq![false])
        &&& writing::stands_at(all, pos + 33, writing::number_bits(self.start, 24))
    }

    /// The list of the bytes that occur.
    pub open spec fn byte_bits(self) -> Seq<bool> {
        self.ranges + writing::range_maps(self.bytes, self.ranges, 16)
    }

    /// The list of the bytes that occur stands behind that.
    pub open spec fn bytes_stand(self, all: Seq<bool>, pos: int) -> bool {
        &&& self.start_stands(all, pos)
        &&& writing::ascending(self.bytes)
        &&& writing::ranges_cover(self.bytes, self.ranges)
        &&& writing::stands_at(all, pos + 57, self.byte_bits())
    }

    /// The bit behind the list of bytes.
    pub open spec fn bytes_end(self, pos: int) -> int {
        pos + 57 + self.byte_bits().len()
    }

    /// The number of codes and that of groups stand behind that.
    pub open spec fn stands(self, all: Seq<bool>, pos: int) -> bool {
        &&& self.bytes_stand(all, pos)
        &&& self.bytes.len() > 0
        &&& 2 <= self.groups <= 6
        &&& self.count < pow2(15)
        &&& writing::stands_at(all, self.bytes_end(pos), writing::number_bits(self.groups, 3))
        &&& writing::stands_at(all, self.bytes_end(pos) + 3, writing::number_bits(self.count, 15))
    }

    /// The bit behind all of this.
    pub open spec fn end(self, pos: int) -> int {
        self.bytes_end(pos) + 18
    }
}

proof fn lemma_start_read(all: Seq<bool>, pos: int, front: Front)
    requires
        front.start_stands(all, pos),
    ensures
        grammar::start_at(all, pos) == Parsed::Done(front.start, pos + 57),
{
    writing::lemma_number_len(front.checksum, 32);
    writing::lemma_number_len(front.start, 24);
    assert(all[pos + 32 + 0] == seq![false][0]);
    writing::number_is_read_back(all, pos + 33, front.start, 24);
}

/// A block that ends within the list of its bytes is refused, and so is one without
/// a byte.
pub proof fn bytes_are_refused(all: Seq<bool>, pos: int, max: nat, front: Front)
    requires
        front.start_stands(all, pos),
    ensures
        all.len() < pos + 57 + 16 ==> refused_at(
            all,
            pos,
            max,
            "symbol range truncated"@,
            all.len() as int,
        ),
        front.ranges.len() == 16 && writing::stands_at(all, pos + 57, front.ranges) && all.len()
            < front.bytes_end(pos) ==> refused_at(
                all,
                pos,
                max,
                "symbol bitmap truncated"@,
                all.len() as int,
            ),
        front.bytes_stand(all, pos) && front.bytes.len() == 0 ==> refused_at(
            all,
            pos,
            max,
            "no symbols in block"@,
            front.bytes_end(pos),
        ),
{
    lemma_start_read(all, pos, front);
    if front.ranges.len() == 16 && writing::stands_at(all, pos + 57, front.ranges) {
        writing::lemma_flags_read(all, pos + 57, front.bytes, front.ranges, 16);
    }
    if front.bytes_stand(all, pos) {
        writing::lemma_bytes_read_back(all, pos + 57, front.bytes, front.ranges);
    }
}

/// A block is refused that has less than two codes or more than six, or ends within
/// these numbers.
pub proof fn groups_are_refused(all: Seq<bool>, pos: int, max: nat, front: Front)
    requires
        front.bytes_stand(all, pos),
        front.bytes.len() > 0,
    ensures
        ({
            let p = front.bytes_end(pos);
            let groups = bits::bits_value(all, p, 3);
            &&& all.len() < p + 3 ==> refused_at(all, pos, max, "huffman groups truncated"@, p)
            &&& all.len() >= p + 3 && (groups < 2 || groups > 6) ==> refused_at(
                all,
                pos,
                max,
                "invalid number of huffman groups"@,
                p + 3,
            )
            &&& p + 3 <= all.len() < p + 18 && 2 <= groups <= 6 ==> refused_at(
                all,
                pos,
                max,
                "selectors_used truncated"@,
                p + 3,
            )
        }),
{
    lemma_start_read(all, pos, front);
    writing::lemma_bytes_read_back(all, pos + 57, front.bytes, front.ranges);
}

proof fn lemma_front_read(all: Seq<bool>, pos: int, front: Front)
    requires
        front.stands(all, pos),
    ensures
        grammar::start_at(all, pos) == Parsed::Done(front.start, pos + 57),
        grammar::bytes_at(all, pos + 57) == Parsed::Done(front.bytes, front.bytes_end(pos)),
        grammar::groups_at(all, front.bytes_end(pos)) == Parsed::Done(
            (front.groups, front.count),
            front.end(pos),
        ),
{
    let p = front.bytes_end(pos);
    lemma2_to64();
    lemma_start_read(all, pos, front);
    writing::lemma_bytes_read_back(all, pos + 57, front.bytes, front.ranges);
    writing::lemma_number_len(front.groups, 3);
    writing::lemma_number_len(front.count, 15);
    writing::number_is_read_back(all, p, front.groups, 3);
    writing::number_is_read_back(all, p + 3, front.count, 15);
}

// The choices of the groups.

proof fn lemma_ones(all: Seq<bool>, pos: int, limit: nat, n: nat, ones: nat)
    requires
        writing::stands_at(all, pos, Seq::new(ones, |i: int| true)),
        n < limit,
        n + ones <= limit,
    ensures
        n + ones == limit ==> grammar::unary_at(all, pos, limit, n) == Parsed::<nat>::Fail(
            "selector tree index too large"@,
            pos + ones,
        ),
        n + ones < limit && pos + ones == all.len() ==> grammar::unary_at(all, pos, limit, n)
            == Parsed::<nat>::Fail("selector bit truncated"@, pos + ones),
    decreases ones,
{
    if ones > 0 {
        let written = Seq::new(ones, |i: int| true);
        let rest = Seq::new((ones - 1) as nat, |i: int| true);
        assert(all[pos + 0] == written[0]);
        assert forall|k: int| #![trigger rest[k]] 0 <= k < rest.len() implies all[pos + 1 + k]
            == rest[k] by {
            assert(written[k + 1]);
            assert(pos + 1 + k == pos + (k + 1));
        }
        if n + 1 < limit {
            lemma_ones(all, pos + 1, limit, n + 1, (ones - 1) as nat);
        }
    }
}

/// The choices that stand are read, and the others from where they end.
proof fn lemma_choices_read(
    all: Seq<bool>,
    pos: int,
    left: nat,
    order: Seq<u8>,
    selectors: Seq<u8>,
    chosen: Seq<u8>,
) -> (after: Seq<u8>)
    requires
        writing::stands_at(all, pos, writing::selector_bits(order, selectors)),
        forall|i: int| 0 <= i < selectors.len() ==> order.contains(#[trigger] selectors[i]),
        selectors.len() <= left,
    ensures
        after.len() == order.len(),
        grammar::selectors_at(all, pos, left, order, chosen) == grammar::selectors_at(
            all,
            pos + writing::selector_bits(order, selectors).len(),
            (left - selectors.len()) as nat,
            after,
            chosen + selectors,
        ),
    decreases selectors.len(),
{
    if selectors.len() == 0 {
        assert(chosen + selectors == chosen);
        order
    } else {
        let first = selectors[0];
        let rest = selectors.drop_first();
        assert(order.contains(selectors[0]));
        let i = order.index_of(first);
        assert(0 <= i < order.len() && order[i] == first);
        let moved = mtf::move_to_front(order, i);
        writing::lemma_stands_apart(
            all,
            pos,
            writing::unary_bits(i as nat),
            writing::selector_bits(moved, rest),
        );
        writing::lemma_unary_read(all, pos, order.len(), 0, i as nat);
        mtf::move_to_front_keeps_symbols(order, i);
        mtf::symbol_moves_to_front(order, i);
        assert forall|k: int| 0 <= k < rest.len() implies moved.contains(#[trigger] rest[k]) by {
            assert(rest[k] == selectors[k + 1]);
            mtf::lemma_still_there(order, moved, rest[k]);
        }
        let after = lemma_choices_read(
            all,
            pos + i + 1,
            (left - 1) as nat,
            moved,
            rest,
            chosen.push(first),
        );
        assert(chosen.push(first) + rest == chosen + selectors);
        assert(writing::selector_bits(order, selectors).len() == i + 1 + writing::selector_bits(
            moved,
            rest,
        ).len());
        after
    }
}

/// The choices of some groups stand behind the front.
pub open spec fn choices_stand(
    all: Seq<bool>,
    pos: int,
    front: Front,
    selectors: Seq<u8>,
) -> bool {
    &&& front.stands(all, pos)
    &&& selectors.len() <= front.count
    &&& forall|i: int| 0 <= i < selectors.len() ==> #[trigger] selectors[i] < front.groups
    &&& writing::stands_at(all, front.end(pos), choice_bits(front, selectors))
}

/// The choices, beginning with the codes in their order.
pub open spec fn choice_bits(front: Front, selectors: Seq<u8>) -> Seq<bool> {
    writing::selector_bits(Seq::new(front.groups, |i: int| i as u8), selectors)
}

proof fn lemma_choices_stand(all: Seq<bool>, pos: int, front: Front, selectors: Seq<u8>) -> (after:
    Seq<u8>)
    requires
        choices_stand(all, pos, front, selectors),
    ensures
        after.len() == front.groups,
        grammar::selectors_at(
            all,
            front.end(pos),
            front.count,
            grammar::first_numbers(front.groups),
            Seq::empty(),
        ) == grammar::selectors_at(
            all,
            front.end(pos) + choice_bits(front, selectors).len(),
            (front.count - selectors.len()) as nat,
            after,
            selectors,
        ),
{
    let order = grammar::first_numbers(front.groups);
    assert(order == Seq::new(front.groups, |i: int| i as u8));
    assert forall|i: int| 0 <= i < selectors.len() implies order.contains(
        #[trigger] selectors[i],
    ) by {
        assert(order[selectors[i] as int] == selectors[i]);
    }
    assert(Seq::<u8>::empty() + selectors == selectors);
    lemma_choices_read(all, front.end(pos), front.count, order, selectors, Seq::empty())
}

/// A block is refused in which a group chooses a code that there is not: as many
/// ones stand for its choice as there are codes. So is one that ends within a
/// choice.
pub proof fn choice_is_refused(
    all: Seq<bool>,
    pos: int,
    max: nat,
    front: Front,
    selectors: Seq<u8>,
    ones: nat,
)
    requires
        choices_stand(all, pos, front, selectors),
        selectors.len() < front.count,
        ones <= front.groups,
        writing::stands_at(
            all,
            front.end(pos) + choice_bits(front, selectors).len(),
            Seq::new(ones, |i: int| true),
        ),
    ensures
        ones == front.groups ==> refused_at(
            all,
            pos,
            max,
            "selector tree index too large"@,
            front.end(pos) + choice_bits(front, selectors).len() + ones,
        ),
        ones < front.groups && front.end(pos) + choice_bits(front, selectors).len() + ones
            == all.len() ==> refused_at(all, pos, max, "selector bit truncated"@, all.len() as int),
{
    lemma_front_read(all, pos, front);
    let after = lemma_choices_stand(all, pos, front, selectors);
    lemma_ones(
        all,
        front.end(pos) + choice_bits(front, selectors).len(),
        after.len(),
        0,
        ones,
    );
}

// The codes.

/// Where steps lead from a length, each one less or one more.
pub open spec fn path_end(from: int, path: Seq<bool>) -> int
    decreases path.len(),
{
    if path.len() == 0 {
        from
    } else {
        path_end(
            if path[0] {
                from - 1
            } else {
                from + 1
            },
            path.drop_first(),
        )
    }
}

/// No step is made from a length that is out of range.
pub open spec fn path_inside(from: int, path: Seq<bool>) -> bool
    decreases path.len(),
{
    path.len() == 0 || (1 <= from <= 20 && path_inside(
        if path[0] {
            from - 1
        } else {
            from + 1
        },
        path.drop_first(),
    ))
}

/// The steps as they are written: each a one, and then a one for one less or a zero
/// for one more.
pub open spec fn path_bits(path: Seq<bool>) -> Seq<bool>
    decreases path.len(),
{
    if path.len() == 0 {
        Seq::empty()
    } else {
        seq![true, path[0]] + path_bits(path.drop_first())
    }
}

proof fn lemma_path_read(all: Seq<bool>, pos: int, from: int, path: Seq<bool>)
    requires
        path_inside(from, path),
        writing::stands_at(all, pos, path_bits(path)),
    ensures
        path_bits(path).len() == 2 * path.len(),
        grammar::length_at(all, pos, from) == grammar::length_at(
            all,
            pos + 2 * path.len(),
            path_end(from, path),
        ),
    decreases path.len(),
{
    if path.len() > 0 {
        let rest = path.drop_first();
        let step = seq![true, path[0]];
        writing::lemma_stands_apart(all, pos, step, path_bits(rest));
        assert(all[pos + 0] == step[0]);
        assert(all[pos + 1] == step[1]);
        lemma_path_read(
            all,
            pos + 2,
            if path[0] {
                from - 1
            } else {
                from + 1
            },
            rest,
        );
    }
}

/// A word length can be written by any steps that stay in range, and is where they
/// lead to. The first step out of range is refused, and so is a length that ends
/// within its steps.
pub proof fn any_steps_are_read(all: Seq<bool>, pos: int, from: int, path: Seq<bool>)
    requires
        path_inside(from, path),
        writing::stands_at(all, pos, path_bits(path)),
    ensures
        ({
            let to = path_end(from, path);
            let end = pos + 2 * path.len();
            let found = grammar::length_at(all, pos, from);
            &&& to < 1 || to > 20 ==> found == Parsed::<int>::Fail(
                "huffman code length out of range"@,
                end,
            )
            &&& 1 <= to <= 20 && end < all.len() && !all[end] ==> found == Parsed::Done(to, end + 1)
            &&& 1 <= to <= 20 && end == all.len() ==> found == Parsed::<int>::Fail(
                "length adjust bit1 truncated"@,
                end,
            )
            &&& 1 <= to <= 20 && end + 1 == all.len() && all[end] ==> found == Parsed::<int>::Fail(
                "length adjust bit2 truncated"@,
                end + 1,
            )
        }),
{
    lemma_path_read(all, pos, from, path);
}

/// The lengths that stand are read, and the others from where they end.
proof fn lemma_lengths_read(
    all: Seq<bool>,
    pos: int,
    left: nat,
    from: int,
    lengths: Seq<u8>,
    known: Seq<u8>,
)
    requires
        writing::stands_at(all, pos, writing::length_bits(from, lengths)),
        lengths.len() > 0 ==> 1 <= from <= 20,
        forall|i: int| 0 <= i < lengths.len() ==> 1 <= #[trigger] lengths[i] <= 20,
        lengths.len() <= left,
    ensures
        grammar::lengths_at(all, pos, left, from, known) == grammar::lengths_at(
            all,
            pos + writing::length_bits(from, lengths).len(),
            (left - lengths.len()) as nat,
            last_length(from, lengths),
            known + lengths,
        ),
    decreases lengths.len(),
{
    if lengths.len() == 0 {
        assert(known + lengths == known);
    } else {
        let first = lengths[0] as int;
        let rest = lengths.drop_first();
        let steps = writing::step_bits(from, first);
        writing::lemma_stands_apart(all, pos, steps, writing::length_bits(first, rest));
        writing::lemma_steps_read(all, pos, from, first);
        assert forall|i: int| 0 <= i < rest.len() implies 1 <= #[trigger] rest[i] <= 20 by {
            assert(rest[i] == lengths[i + 1]);
        }
        lemma_lengths_read(
            all,
            pos + steps.len(),
            (left - 1) as nat,
            first,
            rest,
            known.push(lengths[0]),
        );
        assert(known.push(lengths[0]) + rest == known + lengths);
        assert(last_length(from, lengths) == last_length(first, rest));
    }
}

/// The length from which the steps of the next begin.
pub open spec fn last_length(from: int, lengths: Seq<u8>) -> int {
    if lengths.len() == 0 {
        from
    } else {
        lengths.last() as int
    }
}

/// The codes that stand are read, and the others from where they end.
proof fn lemma_codes_read(
    all: Seq<bool>,
    pos: int,
    left: nat,
    symbols: nat,
    firsts: Seq<nat>,
    codes: Seq<Seq<u8>>,
    known: Seq<Seq<u8>>,
)
    requires
        firsts.len() == codes.len(),
        codes.len() <= left,
        forall|i: int|
            0 <= i < codes.len() ==> writing::code_valid(firsts[i], #[trigger] codes[i], symbols),
        writing::stands_at(all, pos, writing::codes_bits(firsts, codes)),
    ensures
        grammar::codes_at(all, pos, left, symbols, known) == grammar::codes_at(
            all,
            pos + writing::codes_bits(firsts, codes).len(),
            (left - codes.len()) as nat,
            symbols,
            known + codes,
        ),
    decreases codes.len(),
{
    if codes.len() == 0 {
        assert(known + codes == known);
    } else {
        let rest = codes.drop_first();
        let others = firsts.drop_first();
        let one = writing::code_bits(firsts[0], codes[0]);
        assert(writing::code_valid(firsts[0], codes[0], symbols));
        writing::lemma_stands_apart(all, pos, one, writing::codes_bits(others, rest));
        writing::lemma_code_read(all, pos, firsts[0], codes[0]);
        assert forall|i: int| 0 <= i < rest.len() implies writing::code_valid(
            others[i],
            #[trigger] rest[i],
            symbols,
        ) by {
            assert(rest[i] == codes[i + 1]);
        }
        lemma_codes_read(
            all,
            pos + one.len(),
            (left - 1) as nat,
            symbols,
            others,
            rest,
            known.push(codes[0]),
        );
        assert(known.push(codes[0]) + rest == known + codes);
    }
}

/// The choices of all groups, and some of the codes, stand behind the front.
pub open spec fn codes_stand(
    all: Seq<bool>,
    pos: int,
    front: Front,
    selectors: Seq<u8>,
    firsts: Seq<nat>,
    codes: Seq<Seq<u8>>,
) -> bool {
    &&& choices_stand(all, pos, front, selectors)
    &&& selectors.len() == front.count
    &&& firsts.len() == codes.len()
    &&& codes.len() <= front.groups
    &&& forall|i: int|
        0 <= i < codes.len() ==> writing::code_valid(
            firsts[i],
            #[trigger] codes[i],
            front.bytes.len() + 2,
        )
    &&& writing::stands_at(
        all,
        front.end(pos) + choice_bits(front, selectors).len(),
        writing::codes_bits(firsts, codes),
    )
}

/// The bit behind the codes that stand.
pub open spec fn codes_end(
    pos: int,
    front: Front,
    selectors: Seq<u8>,
    firsts: Seq<nat>,
    codes: Seq<Seq<u8>>,
) -> int {
    front.end(pos) + choice_bits(front, selectors).len() + writing::codes_bits(firsts, codes).len()
}

/// The block fails where the next of its codes does.
proof fn lemma_next_code(
    all: Seq<bool>,
    pos: int,
    max: nat,
    front: Front,
    selectors: Seq<u8>,
    firsts: Seq<nat>,
    codes: Seq<Seq<u8>>,
)
    requires
        codes_stand(all, pos, front, selectors, firsts, codes),
        codes.len() < front.groups,
    ensures
        grammar::code_at(
            all,
            codes_end(pos, front, selectors, firsts, codes),
            front.bytes.len() + 2,
        ) matches Parsed::Fail(why, at) ==> refused_at(all, pos, max, why, at),
{
    let at = front.end(pos) + choice_bits(front, selectors).len();
    lemma_front_read(all, pos, front);
    let after = lemma_choices_stand(all, pos, front, selectors);
    assert(grammar::selectors_at(all, at, 0, after, selectors) == Parsed::Done(selectors, at));
    lemma_codes_read(
        all,
        at,
        front.groups,
        front.bytes.len() + 2,
        firsts,
        codes,
        Seq::empty(),
    );
    let known = Seq::<Seq<u8>>::empty() + codes;
    let end = codes_end(pos, front, selectors, firsts, codes);
    if grammar::code_at(all, end, front.bytes.len() + 2) is Fail {
        let failed = grammar::code_at(all, end, front.bytes.len() + 2);
        assert(grammar::codes_at(
            all,
            end,
            (front.groups - codes.len()) as nat,
            front.bytes.len() + 2,
            known,
        ) == Parsed::<Seq<Seq<u8>>>::Fail(failed->Fail_0, failed->Fail_1));
    }
}

/// A block that ends within the first length of a code is refused.
pub proof fn short_code_is_refused(
    all: Seq<bool>,
    pos: int,
    max: nat,
    front: Front,
    selectors: Seq<u8>,
    firsts: Seq<nat>,
    codes: Seq<Seq<u8>>,
)
    requires
        codes_stand(all, pos, front, selectors, firsts, codes),
        codes.len() < front.groups,
        all.len() < codes_end(pos, front, selectors, firsts, codes) + 5,
    ensures
        refused_at(
            all,
            pos,
            max,
            "huffman start length truncated"@,
            codes_end(pos, front, selectors, firsts, codes),
        ),
{
    lemma_next_code(all, pos, max, front, selectors, firsts, codes);
}

/// A block is refused in which a word length is out of range, or that ends within
/// the steps of one: the first length of a code is `first`, some of its lengths
/// stand behind it, and then the steps `path` of the next.
pub proof fn length_is_refused(
    all: Seq<bool>,
    pos: int,
    max: nat,
    front: Front,
    selectors: Seq<u8>,
    firsts: Seq<nat>,
    codes: Seq<Seq<u8>>,
    first: nat,
    lengths: Seq<u8>,
    path: Seq<bool>,
)
    requires
        codes_stand(all, pos, front, selectors, firsts, codes),
        codes.len() < front.groups,
        first < 32,
        lengths.len() > 0 ==> 1 <= first <= 20,
        forall|i: int| 0 <= i < lengths.len() ==> 1 <= #[trigger] lengths[i] <= 20,
        lengths.len() < front.bytes.len() + 2,
        path_inside(last_length(first as int, lengths), path),
        ({
            let p = codes_end(pos, front, selectors, firsts, codes);
            let written = writing::length_bits(first as int, lengths);
            &&& writing::stands_at(all, p, writing::number_bits(first, 5))
            &&& writing::stands_at(all, p + 5, written)
            &&& writing::stands_at(all, p + 5 + written.len(), path_bits(path))
        }),
    ensures
        ({
            let to = path_end(last_length(first as int, lengths), path);
            let end = codes_end(pos, front, selectors, firsts, codes) + 5 + writing::length_bits(
                first as int,
                lengths,
            ).len() + 2 * path.len();
            &&& to < 1 || to > 20 ==> refused_at(
                all,
                pos,
                max,
                "huffman code length out of range"@,
                end,
            )
            &&& 1 <= to <= 20 && end == all.len() ==> refused_at(
                all,
                pos,
                max,
                "length adjust bit1 truncated"@,
                end,
            )
            &&& 1 <= to <= 20 && end + 1 == all.len() && all[end] ==> refused_at(
                all,
                pos,
                max,
                "length adjust bit2 truncated"@,
                end + 1,
            )
        }),
{
    let p = codes_end(pos, front, selectors, firsts, codes);
    let from = last_length(first as int, lengths);
    let at = p + 5 + writing::length_bits(first as int, lengths).len();
    lemma2_to64();
    writing::lemma_number_len(first, 5);
    writing::number_is_read_back(all, p, first, 5);
    lemma_lengths_read(
        all,
        p + 5,
        front.bytes.len() + 2,
        first as int,
        lengths,
        Seq::empty(),
    );
    any_steps_are_read(all, at, from, path);
    let found = grammar::length_at(all, at, from);
    let known = Seq::<u8>::empty() + lengths;
    if found is Fail {
        assert(grammar::lengths_at(
            all,
            at,
            (front.bytes.len() + 2 - lengths.len()) as nat,
            from,
            known,
        ) == Parsed::<Seq<u8>>::Fail(found->Fail_0, found->Fail_1));
        lemma_next_code(all, pos, max, front, selectors, firsts, codes);
    }
}

/// A block is refused in which the words of up to twelve bits of a code leave no
/// room for each other.
pub proof fn full_code_is_refused(
    all: Seq<bool>,
    pos: int,
    max: nat,
    front: Front,
    selectors: Seq<u8>,
    firsts: Seq<nat>,
    codes: Seq<Seq<u8>>,
    first: nat,
    lengths: Seq<u8>,
)
    requires
        codes_stand(all, pos, front, selectors, firsts, codes),
        codes.len() < front.groups,
        1 <= first <= 20,
        forall|i: int| 0 <= i < lengths.len() ==> 1 <= #[trigger] lengths[i] <= 20,
        lengths.len() == front.bytes.len() + 2,
        codes::kraft_sum(lengths, 12, lengths.len()) > pow2(12),
        writing::stands_at(
            all,
            codes_end(pos, front, selectors, firsts, codes),
            writing::code_bits(first, lengths),
        ),
    ensures
        refused_at(
            all,
            pos,
            max,
            "invalid huffman tree"@,
            codes_end(pos, front, selectors, firsts, codes) + writing::code_bits(first, lengths).len(),
        ),
{
    let p = codes_end(pos, front, selectors, firsts, codes);
    lemma2_to64();
    writing::lemma_number_len(first, 5);
    writing::lemma_stands_apart(
        all,
        p,
        writing::number_bits(first, 5),
        writing::length_bits(first as int, lengths),
    );
    writing::number_is_read_back(all, p, first, 5);
    writing::lemma_lengths_read(all, p + 5, first as int, lengths, Seq::empty());
    assert(Seq::<u8>::empty() + lengths == lengths);
    codes::short_words_decide(lengths);
    lemma_next_code(all, pos, max, front, selectors, firsts, codes);
}

// The body.

/// A head, and the words of the symbols, stand at bit `pos`.
pub open spec fn body_stands(all: Seq<bool>, pos: int, head: Head, symbols: Seq<int>) -> bool {
    &&& head.valid()
    &&& encoding::all_room(head, symbols.len())
    &&& encoding::symbols_coded(head, 0, symbols)
    &&& writing::stands_at(all, pos, head.bits())
    &&& writing::stands_at(
        all,
        pos + head.bits().len(),
        encoding::word_bits(head, 0, symbols),
    )
}

/// The bit behind the words.
pub open spec fn body_end(pos: int, head: Head, symbols: Seq<int>) -> int {
    pos + head.bits().len() + encoding::word_bits(head, 0, symbols).len()
}

/// The symbols that write a column.
pub open spec fn column_symbols(head: Head, column: Seq<u8>) -> Seq<int> {
    encoding::symbols_of(head.bytes, column, 0, head.bytes.len() as int + 1)
}

/// What is read of a block whose head stands.
proof fn lemma_body_stands(all: Seq<bool>, pos: int, max: nat, head: Head, symbols: Seq<int>)
    requires
        body_stands(all, pos, head, symbols),
    ensures
        grammar::block_at(all, pos, max) == grammar::body_at(
            all,
            pos + head.bits().len(),
            head.coding(max),
            head.bytes,
            head.start,
        ),
        encoding::words_at(
            all,
            pos + head.bits().len(),
            head.coding(max),
            0,
            symbols,
            body_end(pos, head, symbols),
        ),
{
    writing::head_is_read_back(all, pos, max, head);
    locality::lemma_block_by_head(all, pos, max);
    encoding::lemma_words_stand(all, pos + head.bits().len(), max, head, 0, symbols);
}

/// A column that is too long is not read.
proof fn lemma_column_too_long(
    all: Seq<bool>,
    pos: int,
    coding: Coding,
    before: Progress,
    run: nat,
    column: Seq<u8>,
    end: int,
)
    requires
        before.run == 0,
        before.order.len() > 0,
        coding.end == before.order.len() + 1,
        forall|i: int| 0 <= i < column.len() ==> before.order.contains(#[trigger] column[i]),
        before.column.len() <= coding.max,
        before.column.len() + run + column.len() > coding.max,
        encoding::runs_countable(before.order, column, run),
        encoding::words_at(
            all,
            pos,
            coding,
            before.count,
            encoding::symbols_of(before.order, column, run, coding.end as int),
            end,
        ),
    ensures
        grammar::column_at(all, pos, coding, before) matches Parsed::Fail(why, _) && why
            == "data exceeds block size"@,
    decreases column.len(),
{
    let order = before.order;
    let last = coding.end as int;
    let digits = encoding::run_digits(run);
    let after = encoding::after_digits(before, digits);
    encoding::digits_give_run(before, run);
    encoding::lemma_run_digits(run);
    assert(after.flushed().len() == before.column.len() + run);
    if column.len() == 0 {
        let behind = encoding::lemma_digits_read(
            all,
            pos,
            coding,
            before,
            digits,
            seq![last],
            end,
        );
        let group = (after.count / GROUP_SIZE as nat) as int;
        let lengths = coding.codes[coding.selectors[group] as int];
        codes::decoding_undoes_coding(lengths, last, all, behind);
    } else if column[0] == order[0] {
        let rest = column.drop_first();
        assert forall|i: int| 0 <= i < rest.len() implies order.contains(#[trigger] rest[i]) by {
            assert(rest[i] == column[i + 1]);
        }
        lemma_column_too_long(all, pos, coding, before, run + 1, rest, end);
    } else {
        let rest = column.drop_first();
        assert(order.contains(column[0]));
        let i = order.index_of(column[0]);
        assert(0 <= i < order.len() && order[i] == column[0]);
        let sym = i + 1;
        let moved = mtf::move_to_front(order, i);
        let more = encoding::symbols_of(moved, rest, 0, last);
        let behind = encoding::lemma_digits_read(
            all,
            pos,
            coding,
            before,
            digits,
            seq![sym] + more,
            end,
        );
        let group = (after.count / GROUP_SIZE as nat) as int;
        let lengths = coding.codes[coding.selectors[group] as int];
        assert((seq![sym] + more)[0] == sym);
        assert((seq![sym] + more).drop_first() == more);
        codes::decoding_undoes_coding(lengths, sym, all, behind);
        let next = after.with_byte(i);
        mtf::move_to_front_keeps_symbols(order, i);
        assert forall|k: int| 0 <= k < rest.len() implies moved.contains(#[trigger] rest[k]) by {
            assert(rest[k] == column[k + 1]);
            mtf::lemma_still_there(order, moved, rest[k]);
        }
        if after.flushed().len() < coding.max {
            lemma_column_too_long(all, behind + lengths[sym], coding, next, 0, rest, end);
        }
    }
}

/// A block is refused whose column has more bytes than are allowed, be it by one,
/// and one whose text does not stand in any row of its table.
pub proof fn column_is_judged(all: Seq<bool>, pos: int, max: nat, head: Head, column: Seq<u8>)
    requires
        body_stands(all, pos, head, column_symbols(head, column)),
        forall|i: int| 0 <= i < column.len() ==> head.bytes.contains(#[trigger] column[i]),
        encoding::runs_countable(head.bytes, column, 0),
    ensures
        column.len() > max ==> refused(all, pos, max, "data exceeds block size"@),
        column.len() <= max && head.start >= column.len() ==> refused_at(
            all,
            pos,
            max,
            "orig_ptr out of bounds"@,
            body_end(pos, head, column_symbols(head, column)),
        ),
{
    let symbols = column_symbols(head, column);
    let behind = pos + head.bits().len();
    let end = body_end(pos, head, symbols);
    lemma_body_stands(all, pos, max, head, symbols);
    if column.len() > max {
        lemma_column_too_long(
            all,
            behind,
            head.coding(max),
            Progress::start(head.bytes),
            0,
            column,
            end,
        );
    } else {
        encoding::lemma_column_read(
            all,
            behind,
            head.coding(max),
            Progress::start(head.bytes),
            0,
            column,
            end,
        );
        assert(Seq::<u8>::empty() + rle::run_of(head.bytes[0], 0) + column == column);
    }
}

proof fn lemma_run_too_long(
    all: Seq<bool>,
    pos: int,
    coding: Coding,
    before: Progress,
    digits: Seq<int>,
    rest: Seq<int>,
    end: int,
)
    requires
        encoding::words_at(all, pos, coding, before.count, digits + rest, end),
        forall|i: int| 0 <= i < digits.len() ==> 0 <= #[trigger] digits[i] < 2,
        before.run <= MAX_BLOCKSIZE,
        encoding::after_digits(before, digits).run > MAX_BLOCKSIZE,
    ensures
        grammar::column_at(all, pos, coding, before) matches Parsed::Fail(why, _) && why
            == "repeat count too large"@,
    decreases digits.len(),
{
    let d = digits[0];
    let group = (before.count / GROUP_SIZE as nat) as int;
    let lengths = coding.codes[coding.selectors[group] as int];
    assert(digits.len() > 0);
    assert((digits + rest)[0] == d);
    assert((digits + rest).drop_first() == digits.drop_first() + rest);
    codes::decoding_undoes_coding(lengths, d, all, pos);
    let next = before.with_digit(d);
    if next.run <= MAX_BLOCKSIZE {
        lemma_run_too_long(
            all,
            pos + lengths[d],
            coding,
            next,
            digits.drop_first(),
            rest,
            end,
        );
    }
}

/// A block is refused that begins with a run of more than 900,000 bytes, however
/// large blocks can be.
pub proof fn long_run_is_refused(
    all: Seq<bool>,
    pos: int,
    max: nat,
    head: Head,
    n: nat,
    rest: Seq<int>,
)
    requires
        body_stands(all, pos, head, encoding::run_digits(n) + rest),
        n > 900_000,
    ensures
        refused(all, pos, max, "repeat count too large"@),
{
    let digits = encoding::run_digits(n);
    let before = Progress::start(head.bytes);
    lemma_body_stands(all, pos, max, head, digits + rest);
    encoding::digits_give_run(before, n);
    encoding::lemma_run_digits(n);
    lemma_run_too_long(
        all,
        pos + head.bits().len(),
        head.coding(max),
        before,
        digits,
        rest,
        body_end(pos, head, digits + rest),
    );
}

proof fn lemma_run_uncountable(
    all: Seq<bool>,
    pos: int,
    coding: Coding,
    before: Progress,
    run: nat,
    column: Seq<u8>,
    end: int,
)
    requires
        before.run == 0,
        before.order.len() > 0,
        coding.end == before.order.len() + 1,
        forall|i: int| 0 <= i < column.len() ==> before.order.contains(#[trigger] column[i]),
        before.column.len() + run + column.len() <= coding.max,
        !encoding::runs_countable(before.order, column, run),
        encoding::words_at(
            all,
            pos,
            coding,
            before.count,
            encoding::symbols_of(before.order, column, run, coding.end as int),
            end,
        ),
    ensures
        grammar::column_at(all, pos, coding, before) matches Parsed::Fail(why, _) && why
            == "repeat count too large"@,
    decreases column.len(),
{
    let order = before.order;
    let last = coding.end as int;
    let digits = encoding::run_digits(run);
    let after = encoding::after_digits(before, digits);
    encoding::digits_give_run(before, run);
    encoding::lemma_run_digits(run);
    if column.len() == 0 {
        lemma_run_too_long(all, pos, coding, before, digits, seq![last], end);
    } else if column[0] == order[0] {
        let rest = column.drop_first();
        assert forall|i: int| 0 <= i < rest.len() implies order.contains(#[trigger] rest[i]) by {
            assert(rest[i] == column[i + 1]);
        }
        lemma_run_uncountable(all, pos, coding, before, run + 1, rest, end);
    } else {
        let rest = column.drop_first();
        assert(order.contains(column[0]));
        let i = order.index_of(column[0]);
        assert(0 <= i < order.len() && order[i] == column[0]);
        let sym = i + 1;
        let moved = mtf::move_to_front(order, i);
        let more = encoding::symbols_of(moved, rest, 0, last);
        if run > 900_000 {
            lemma_run_too_long(all, pos, coding, before, digits, seq![sym] + more, end);
        } else {
            let behind = encoding::lemma_digits_read(
                all,
                pos,
                coding,
                before,
                digits,
                seq![sym] + more,
                end,
            );
            let group = (after.count / GROUP_SIZE as nat) as int;
            let lengths = coding.codes[coding.selectors[group] as int];
            assert((seq![sym] + more)[0] == sym);
            assert((seq![sym] + more).drop_first() == more);
            codes::decoding_undoes_coding(lengths, sym, all, behind);
            let next = after.with_byte(i);
            assert(after.flushed().len() == before.column.len() + run);
            mtf::move_to_front_keeps_symbols(order, i);
            assert forall|k: int| 0 <= k < rest.len() implies moved.contains(
                #[trigger] rest[k],
            ) by {
                assert(rest[k] == column[k + 1]);
                mtf::lemma_still_there(order, moved, rest[k]);
            }
            lemma_run_uncountable(all, behind + lengths[sym], coding, next, 0, rest, end);
        }
    }
}

/// A block is refused that holds a run of more than 900,000 bytes anywhere, though
/// larger blocks are allowed.
pub proof fn uncountable_run_is_refused(
    all: Seq<bool>,
    pos: int,
    max: nat,
    head: Head,
    column: Seq<u8>,
)
    requires
        body_stands(all, pos, head, column_symbols(head, column)),
        forall|i: int| 0 <= i < column.len() ==> head.bytes.contains(#[trigger] column[i]),
        column.len() <= max,
        !encoding::runs_countable(head.bytes, column, 0),
    ensures
        refused(all, pos, max, "repeat count too large"@),
{
    let symbols = column_symbols(head, column);
    lemma_body_stands(all, pos, max, head, symbols);
    lemma_run_uncountable(
        all,
        pos + head.bits().len(),
        head.coding(max),
        Progress::start(head.bytes),
        0,
        column,
        body_end(pos, head, symbols),
    );
}

proof fn lemma_digits_split(before: Progress, a: Seq<int>, b: Seq<int>)
    ensures
        encoding::after_digits(before, a + b) == encoding::after_digits(
            encoding::after_digits(before, a),
            b,
        ),
        encoding::after_digits(before, a).count == before.count + a.len(),
    decreases a.len(),
{
    if a.len() == 0 {
        assert(a + b == b);
    } else {
        assert((a + b)[0] == a[0]);
        assert((a + b).drop_first() == a.drop_first() + b);
        lemma_digits_split(before.with_digit(a[0]), a.drop_first(), b);
    }
}

/// The first of the symbols that write a column are read, and the others from
/// where they end.
proof fn lemma_symbols_read(
    all: Seq<bool>,
    pos: int,
    coding: Coding,
    before: Progress,
    run: nat,
    column: Seq<u8>,
    k: int,
    end: int,
) -> (after: Progress)
    requires
        before.run == 0,
        before.order.len() > 0,
        coding.end == before.order.len() + 1,
        forall|i: int| 0 <= i < column.len() ==> before.order.contains(#[trigger] column[i]),
        before.column.len() + run + column.len() <= coding.max,
        encoding::runs_countable(before.order, column, run),
        0 <= k < encoding::symbols_of(before.order, column, run, coding.end as int).len(),
        encoding::words_at(
            all,
            pos,
            coding,
            before.count,
            encoding::symbols_of(before.order, column, run, coding.end as int).take(k),
            end,
        ),
    ensures
        after.count == before.count + k,
        grammar::column_at(all, pos, coding, before) == grammar::column_at(
            all,
            end,
            coding,
            after,
        ),
    decreases column.len(),
{
    let order = before.order;
    let last = coding.end as int;
    let digits = encoding::run_digits(run);
    let symbols = encoding::symbols_of(order, column, run, last);
    encoding::digits_give_run(before, run);
    encoding::lemma_run_digits(run);
    if column.len() > 0 && column[0] == order[0] {
        let rest = column.drop_first();
        assert forall|i: int| 0 <= i < rest.len() implies order.contains(#[trigger] rest[i]) by {
            assert(rest[i] == column[i + 1]);
        }
        assert(symbols == encoding::symbols_of(order, rest, run + 1, last));
        lemma_symbols_read(all, pos, coding, before, run + 1, rest, k, end)
    } else if k <= digits.len() {
        let part = digits.take(k);
        let none = Seq::<int>::empty();
        assert(symbols.take(k) == part + none);
        lemma_digits_split(before, part, digits.skip(k));
        assert(part + digits.skip(k) == digits);
        let after = encoding::after_digits(before, part);
        assert forall|i: int| 0 <= i < digits.skip(k).len() implies 0
            <= #[trigger] digits.skip(k)[i] < 2 by {
            assert(digits.skip(k)[i] == digits[i + k]);
        }
        encoding::lemma_run_grows(after, digits.skip(k));
        let behind = encoding::lemma_digits_read(all, pos, coding, before, part, none, end);
        assert(encoding::words_at(all, behind, coding, after.count, none, end));
        after
    } else {
        let rest = column.drop_first();
        assert(column.len() > 0);
        assert(order.contains(column[0]));
        let i = order.index_of(column[0]);
        assert(0 <= i < order.len() && order[i] == column[0]);
        let sym = i + 1;
        let moved = mtf::move_to_front(order, i);
        let more = encoding::symbols_of(moved, rest, 0, last);
        let j = k - digits.len() - 1;
        let part = more.take(j);
        assert(symbols == digits + (seq![sym] + more));
        assert(symbols.take(k) == digits + (seq![sym] + part));
        let behind = encoding::lemma_digits_read(
            all,
            pos,
            coding,
            before,
            digits,
            seq![sym] + part,
            end,
        );
        let after = encoding::after_digits(before, digits);
        let group = (after.count / GROUP_SIZE as nat) as int;
        let lengths = coding.codes[coding.selectors[group] as int];
        assert((seq![sym] + part)[0] == sym);
        assert((seq![sym] + part).drop_first() == part);
        codes::decoding_undoes_coding(lengths, sym, all, behind);
        let next = after.with_byte(i);
        assert(after.flushed().len() == before.column.len() + run);
        mtf::move_to_front_keeps_symbols(order, i);
        assert forall|m: int| 0 <= m < rest.len() implies moved.contains(#[trigger] rest[m]) by {
            assert(rest[m] == column[m + 1]);
            mtf::lemma_still_there(order, moved, rest[m]);
        }
        lemma_symbols_read(all, behind + lengths[sym], coding, next, 0, rest, j, end)
    }
}

/// A block is refused that has fewer groups than its symbols need: fifty of them
/// are read with each.
pub proof fn missing_group_is_refused(
    all: Seq<bool>,
    pos: int,
    max: nat,
    head: Head,
    column: Seq<u8>,
)
    requires
        forall|i: int| 0 <= i < column.len() ==> head.bytes.contains(#[trigger] column[i]),
        encoding::runs_countable(head.bytes, column, 0),
        column.len() <= max,
        50 * head.selectors.len() < column_symbols(head, column).len(),
        body_stands(
            all,
            pos,
            head,
            column_symbols(head, column).take(50 * head.selectors.len() as int),
        ),
    ensures
        head.selectors.len() == 0 ==> refused_at(
            all,
            pos,
            max,
            "no selectors"@,
            pos + head.bits().len() as int,
        ),
        head.selectors.len() > 0 ==> refused_at(
            all,
            pos,
            max,
            "ran out of selectors"@,
            body_end(pos, head, column_symbols(head, column).take(50 * head.selectors.len() as int)),
        ),
{
    let k = 50 * head.selectors.len() as int;
    let part = column_symbols(head, column).take(k);
    lemma_body_stands(all, pos, max, head, part);
    let after = lemma_symbols_read(
        all,
        pos + head.bits().len(),
        head.coding(max),
        Progress::start(head.bytes),
        0,
        column,
        k,
        body_end(pos, head, part),
    );
    assert(after.count / 50 == head.selectors.len());
}

/// A block is refused that ends within one of its words.
pub proof fn cut_body_is_refused(
    all: Seq<bool>,
    pos: int,
    max: nat,
    head: Head,
    column: Seq<u8>,
    k: nat,
)
    requires
        forall|i: int| 0 <= i < column.len() ==> head.bytes.contains(#[trigger] column[i]),
        encoding::runs_countable(head.bytes, column, 0),
        column.len() <= max,
        k < column_symbols(head, column).len(),
        k < 50 * head.selectors.len(),
        encoding::all_room(head, k + 1),
        body_stands(all, pos, head, column_symbols(head, column).take(k as int)),
        ({
            let symbols = column_symbols(head, column);
            let lengths = head.codes[head.selectors[(k / 50) as int] as int];
            let end = body_end(pos, head, symbols.take(k as int));
            let left = (all.len() - end) as nat;
            all.len() - end < lengths[symbols[k as int]] && codes::begins_word(
                lengths,
                symbols[k as int],
                all,
                end,
                left,
            )
        }),
    ensures
        refused_at(all, pos, max, "huffman bitstream truncated"@, all.len() as int),
{
    let symbols = column_symbols(head, column);
    let part = symbols.take(k as int);
    let end = body_end(pos, head, part);
    let lengths = head.codes[head.selectors[(k / 50) as int] as int];
    lemma_body_stands(all, pos, max, head, part);
    let after = lemma_symbols_read(
        all,
        pos + head.bits().len(),
        head.coding(max),
        Progress::start(head.bytes),
        0,
        column,
        k as int,
        end,
    );
    assert(head.selectors[(k / 50) as int] < head.codes.len());
    assert(codes::kraft(lengths, 20));
    codes::kraft_gives_room(lengths, 20);
    codes::cut_word_is_not_read(lengths, symbols[k as int], all, end);
}

// The stream.

/// The blocks of a stream, each behind the number that marks it.
pub open spec fn marked_bits(blocks: Seq<Block>) -> Seq<bool>
    decreases blocks.len(),
{
    if blocks.len() == 0 {
        Seq::empty()
    } else {
        writing::number_bits(0x314159265359, 48) + (blocks[0].bits() + marked_bits(
            blocks.drop_first(),
        ))
    }
}

proof fn lemma_marked_read(
    all: Seq<bool>,
    pos: int,
    max: nat,
    blocks: Seq<Block>,
    text: Seq<u8>,
)
    requires
        forall|i: int| 0 <= i < blocks.len() ==> (#[trigger] blocks[i]).valid(max),
        writing::stands_at(all, pos, marked_bits(blocks)),
    ensures
        stream::blocks_at(all, pos, max, text) == stream::blocks_at(
            all,
            pos + marked_bits(blocks).len(),
            max,
            text + encoding::texts_of(blocks).flatten(),
        ),
    decreases blocks.len(),
{
    let texts = encoding::texts_of(blocks);
    lemma2_to64();
    lemma2_to64_rest();
    if blocks.len() == 0 {
        assert(text + texts.flatten() == text);
    } else {
        let block = blocks[0];
        let rest = blocks.drop_first();
        let mark = writing::number_bits(0x314159265359, 48);
        writing::lemma_number_len(0x314159265359, 48);
        writing::lemma_stands_apart(all, pos, mark, block.bits() + marked_bits(rest));
        writing::lemma_stands_apart(all, pos + 48, block.bits(), marked_bits(rest));
        writing::number_is_read_back(all, pos, 0x314159265359, 48);
        assert(blocks[0].valid(max));
        encoding::block_is_read_back(all, pos + 48, max, block);
        grammar::lemma_block_end(all, pos + 48, max);
        assert forall|i: int| 0 <= i < rest.len() implies (#[trigger] rest[i]).valid(max) by {
            assert(rest[i] == blocks[i + 1]);
        }
        lemma_marked_read(
            all,
            pos + 48 + block.bits().len(),
            max,
            rest,
            text + block.text(),
        );
        assert(texts.drop_first() == encoding::texts_of(rest));
        assert(texts[0] == block.text());
        assert(text + block.text() + encoding::texts_of(rest).flatten() == text + (block.text()
            + encoding::texts_of(rest).flatten()));
    }
}

/// What becomes of a stream is decided by what stands behind the last of its blocks
/// that can be decoded: fewer than 48 bits, the number that ends the stream, the
/// number that marks a block, or another.
pub proof fn stream_is_judged(data: Seq<u8>, d: nat, blocks: Seq<Block>)
    requires
        1 <= d <= 9,
        data.len() >= 4,
        data.take(4) == encoding::head_bytes(d),
        forall|i: int| 0 <= i < blocks.len() ==> (#[trigger] blocks[i]).valid(100_000 * d),
        writing::stands_at(bits::bits_of(data), 32, marked_bits(blocks)),
    ensures
        ({
            let all = bits::bits_of(data);
            let p = 32 + marked_bits(blocks).len() as int;
            let mark = bits::bits_value(all, p, 48);
            let found = stream::stream_text(data);
            &&& 8 * data.len() < p + 48 ==> found == Decoded::Error("unexpected end of stream"@)
            &&& 8 * data.len() >= p + 48 && mark == 0x177245385090 ==> found == Decoded::Text(
                encoding::texts_of(blocks).flatten(),
            )
            &&& 8 * data.len() >= p + 48 && mark != 0x177245385090 && mark != 0x314159265359
                ==> found == Decoded::Error("invalid block magic"@)
            &&& 8 * data.len() >= p + 48 && mark == 0x314159265359 ==> (grammar::block_at(
                all,
                p + 48,
                100_000 * d,
            ) matches Parsed::Fail(why, _) ==> found == Decoded::Error(why))
        }),
{
    let all = bits::bits_of(data);
    let text = encoding::texts_of(blocks).flatten();
    encoding::head_is_accepted(data, d);
    lemma_marked_read(all, 32, 100_000 * d, blocks, Seq::empty());
    assert(Seq::<u8>::empty() + text == text);
}

} // verus!
