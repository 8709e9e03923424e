//! What a block holds depends on its own bits alone, from behind its checksum to
//! the end of its last word: not on where it stands, nor on what stands in front
//! of it or behind it.
//!
//! What stands behind a block matters in one case: where a code of the block has
//! no room for all its words, the table and the tree can lead to different
//! symbols, and the table is used only where enough bits are left to look at.
use vstd::prelude::*;

use crate::bits;
use crate::codes;
use crate::grammar;
use crate::grammar::Parsed;
use crate::mtf;

verus! {

/// The bits of `a` from `from` to `limit` stand in `b` too, `shift` bits further
/// on.
pub open spec fn alike(a: Seq<bool>, b: Seq<bool>, shift: int, from: int, limit: int) -> bool {
    &&& limit <= a.len()
    &&& limit + shift <= b.len()
    &&& 0 <= from
    &&& 0 <= from + shift
    &&& forall|i: int| from <= i < limit ==> #[trigger] a[i] == b[i + shift]
}

/// Nothing stands behind the bits that are alike.
pub open spec fn both_end(a: Seq<bool>, b: Seq<bool>, shift: int, limit: int) -> bool {
    limit == a.len() && limit + shift == b.len()
}

pub proof fn lemma_value_alike(
    a: Seq<bool>,
    b: Seq<bool>,
    shift: int,
    from: int,
    limit: int,
    pos: int,
    n: nat,
)
    requires
        alike(a, b, shift, from, limit),
        from <= pos,
        pos + n <= limit,
    ensures
        bits::bits_value(a, pos, n) == bits::bits_value(b, pos + shift, n),
    decreases n,
{
    if n > 0 {
        lemma_value_alike(a, b, shift, from, limit, pos, (n - 1) as nat);
        assert(a[pos + n - 1] == b[pos + n - 1 + shift]);
        assert(pos + shift + n - 1 == pos + n - 1 + shift);
    }
}

proof fn lemma_start_alike(a: Seq<bool>, b: Seq<bool>, shift: int, from: int, limit: int, pos: int)
    requires
        alike(a, b, shift, from, limit),
        from <= pos + 32,
        grammar::start_at(a, pos) is Done,
        grammar::start_at(a, pos)->Done_1 <= limit,
    ensures
        grammar::start_at(b, pos + shift) == Parsed::Done(
            grammar::start_at(a, pos)->Done_0,
            pos + 57 + shift,
        ),
{
    lemma_value_alike(a, b, shift, from, limit, pos + 33, 24);
    assert(a[pos + 32] == b[pos + 32 + shift]);
    assert(pos + shift + 32 == pos + 32 + shift);
    assert(pos + shift + 33 == pos + 33 + shift);
}

proof fn lemma_ranges_alike(
    a: Seq<bool>,
    b: Seq<bool>,
    shift: int,
    from: int,
    limit: int,
    pos: int,
    r: nat,
)
    requires
        alike(a, b, shift, from, limit),
        from <= pos,
        pos + r <= limit,
    ensures
        grammar::ranges_before(a, pos, r) == grammar::ranges_before(b, pos + shift, r),
    decreases r,
{
    if r > 0 {
        lemma_ranges_alike(a, b, shift, from, limit, pos, (r - 1) as nat);
        assert(a[pos + r - 1] == b[pos + r - 1 + shift]);
        assert(pos + shift + r - 1 == pos + r - 1 + shift);
    }
}

proof fn lemma_bytes_alike(
    a: Seq<bool>,
    b: Seq<bool>,
    shift: int,
    from: int,
    limit: int,
    pos: int,
    n: nat,
)
    requires
        alike(a, b, shift, from, limit),
        from <= pos,
        n <= 256,
        pos + 16 + 16 * grammar::ranges_before(a, pos, 16) <= limit,
    ensures
        grammar::bytes_below(a, pos, n) == grammar::bytes_below(b, pos + shift, n),
    decreases n,
{
    if n > 0 {
        lemma_bytes_alike(a, b, shift, from, limit, pos, (n - 1) as nat);
        let v = n - 1;
        let r = (v / 16) as nat;
        lemma_ranges_alike(a, b, shift, from, limit, pos, r);
        assert(a[pos + r] == b[pos + r + shift]);
        assert(pos + shift + v / 16 == pos + r + shift);
        if a[pos + r] {
            grammar::lemma_ranges_grow(a, pos, r, 16);
            let flag = grammar::byte_flag(a, pos, v);
            assert(a[flag] == b[flag + shift]);
            assert(grammar::byte_flag(b, pos + shift, v) == flag + shift);
        }
    }
}

proof fn lemma_bytes_at_alike(
    a: Seq<bool>,
    b: Seq<bool>,
    shift: int,
    from: int,
    limit: int,
    pos: int,
)
    requires
        alike(a, b, shift, from, limit),
        from <= pos,
        grammar::bytes_at(a, pos) is Done,
        grammar::bytes_at(a, pos)->Done_1 <= limit,
    ensures
        grammar::bytes_at(b, pos + shift) == Parsed::Done(
            grammar::bytes_at(a, pos)->Done_0,
            grammar::bytes_at(a, pos)->Done_1 + shift,
        ),
{
    lemma_ranges_alike(a, b, shift, from, limit, pos, 16);
    lemma_bytes_alike(a, b, shift, from, limit, pos, 256);
}

proof fn lemma_groups_alike(a: Seq<bool>, b: Seq<bool>, shift: int, from: int, limit: int, pos: int)
    requires
        alike(a, b, shift, from, limit),
        from <= pos,
        grammar::groups_at(a, pos) is Done,
        pos + 18 <= limit,
    ensures
        grammar::groups_at(b, pos + shift) == Parsed::Done(
            grammar::groups_at(a, pos)->Done_0,
            pos + 18 + shift,
        ),
{
    lemma_value_alike(a, b, shift, from, limit, pos, 3);
    lemma_value_alike(a, b, shift, from, limit, pos + 3, 15);
    assert(pos + shift + 3 == pos + 3 + shift);
}

proof fn lemma_unary_alike(
    a: Seq<bool>,
    b: Seq<bool>,
    shift: int,
    from: int,
    limit: int,
    pos: int,
    bound: nat,
    n: nat,
)
    requires
        alike(a, b, shift, from, limit),
        from <= pos,
        grammar::unary_at(a, pos, bound, n) is Done,
        grammar::unary_at(a, pos, bound, n)->Done_1 <= limit,
    ensures
        grammar::unary_at(b, pos + shift, bound, n) == Parsed::Done(
            grammar::unary_at(a, pos, bound, n)->Done_0,
            grammar::unary_at(a, pos, bound, n)->Done_1 + shift,
        ),
    decreases a.len() - pos,
{
    grammar::lemma_unary_end(a, pos, bound, n);
    assert(a[pos] == b[pos + shift]);
    if a[pos] {
        lemma_unary_alike(a, b, shift, from, limit, pos + 1, bound, n + 1);
        assert(pos + 1 + shift == pos + shift + 1);
    }
}

proof fn lemma_selectors_alike(
    a: Seq<bool>,
    b: Seq<bool>,
    shift: int,
    from: int,
    limit: int,
    pos: int,
    left: nat,
    order: Seq<u8>,
    chosen: Seq<u8>,
)
    requires
        alike(a, b, shift, from, limit),
        from <= pos,
        grammar::selectors_at(a, pos, left, order, chosen) is Done,
        grammar::selectors_at(a, pos, left, order, chosen)->Done_1 <= limit,
    ensures
        grammar::selectors_at(b, pos + shift, left, order, chosen) == Parsed::Done(
            grammar::selectors_at(a, pos, left, order, chosen)->Done_0,
            grammar::selectors_at(a, pos, left, order, chosen)->Done_1 + shift,
        ),
    decreases left,
{
    if left > 0 {
        if let Parsed::Done(i, next) = grammar::unary_at(a, pos, order.len(), 0) {
            let moved = mtf::move_to_front(order, i as int);
            let more = chosen.push(order[i as int]);
            grammar::lemma_unary_end(a, pos, order.len(), 0);
            grammar::lemma_selectors_end(a, next, (left - 1) as nat, moved, more);
            lemma_unary_alike(a, b, shift, from, limit, pos, order.len(), 0);
            lemma_selectors_alike(a, b, shift, from, limit, next, (left - 1) as nat, moved, more);
        }
    }
}

proof fn lemma_length_alike(
    a: Seq<bool>,
    b: Seq<bool>,
    shift: int,
    from: int,
    limit: int,
    pos: int,
    len: int,
)
    requires
        alike(a, b, shift, from, limit),
        from <= pos,
        grammar::length_at(a, pos, len) is Done,
        grammar::length_at(a, pos, len)->Done_1 <= limit,
    ensures
        grammar::length_at(b, pos + shift, len) == Parsed::Done(
            grammar::length_at(a, pos, len)->Done_0,
            grammar::length_at(a, pos, len)->Done_1 + shift,
        ),
    decreases a.len() - pos,
{
    grammar::lemma_length_end(a, pos, len);
    assert(a[pos] == b[pos + shift]);
    if a[pos] {
        let next = if a[pos + 1] {
            len - 1
        } else {
            len + 1
        };
        grammar::lemma_length_end(a, pos + 2, next);
        assert(a[pos + 1] == b[pos + 1 + shift]);
        assert(pos + 1 + shift == pos + shift + 1);
        assert(pos + 2 + shift == pos + shift + 2);
        lemma_length_alike(a, b, shift, from, limit, pos + 2, next);
    }
}

proof fn lemma_lengths_alike(
    a: Seq<bool>,
    b: Seq<bool>,
    shift: int,
    from: int,
    limit: int,
    pos: int,
    left: nat,
    len: int,
    known: Seq<u8>,
)
    requires
        alike(a, b, shift, from, limit),
        from <= pos,
        grammar::lengths_at(a, pos, left, len, known) is Done,
        grammar::lengths_at(a, pos, left, len, known)->Done_1 <= limit,
    ensures
        grammar::lengths_at(b, pos + shift, left, len, known) == Parsed::Done(
            grammar::lengths_at(a, pos, left, len, known)->Done_0,
            grammar::lengths_at(a, pos, left, len, known)->Done_1 + shift,
        ),
    decreases left,
{
    if left > 0 {
        if let Parsed::Done(l, next) = grammar::length_at(a, pos, len) {
            let more = known.push(l as u8);
            grammar::lemma_length_end(a, pos, len);
            grammar::lemma_lengths_end(a, next, (left - 1) as nat, l, more);
            lemma_length_alike(a, b, shift, from, limit, pos, len);
            lemma_lengths_alike(a, b, shift, from, limit, next, (left - 1) as nat, l, more);
        }
    }
}

proof fn lemma_codes_alike(
    a: Seq<bool>,
    b: Seq<bool>,
    shift: int,
    from: int,
    limit: int,
    pos: int,
    left: nat,
    symbols: nat,
    known: Seq<Seq<u8>>,
)
    requires
        alike(a, b, shift, from, limit),
        from <= pos,
        grammar::codes_at(a, pos, left, symbols, known) is Done,
        grammar::codes_at(a, pos, left, symbols, known)->Done_1 <= limit,
    ensures
        grammar::codes_at(b, pos + shift, left, symbols, known) == Parsed::Done(
            grammar::codes_at(a, pos, left, symbols, known)->Done_0,
            grammar::codes_at(a, pos, left, symbols, known)->Done_1 + shift,
        ),
    decreases left,
{
    if left > 0 {
        if let Parsed::Done(lengths, next) = grammar::code_at(a, pos, symbols) {
            let more = known.push(lengths);
            let first = bits::bits_value(a, pos, 5) as int;
            grammar::lemma_lengths_end(a, pos + 5, symbols, first, Seq::empty());
            grammar::lemma_codes_end(a, next, (left - 1) as nat, symbols, more);
            lemma_value_alike(a, b, shift, from, limit, pos, 5);
            lemma_lengths_alike(a, b, shift, from, limit, pos + 5, symbols, first, Seq::empty());
            assert(pos + 5 + shift == pos + shift + 5);
            lemma_codes_alike(a, b, shift, from, limit, next, (left - 1) as nat, symbols, more);
        }
    }
}

proof fn lemma_walk_alike(
    a: Seq<bool>,
    b: Seq<bool>,
    shift: int,
    from: int,
    limit: int,
    lengths: Seq<u8>,
    pos: int,
    d: int,
    v: nat,
)
    requires
        alike(a, b, shift, from, limit),
        from <= pos,
        codes::walk(lengths, a, pos, d, v) matches Some((_, next)) && next <= limit,
    ensures
        codes::walk(lengths, b, pos + shift, d, v) == Some(
            (
                (codes::walk(lengths, a, pos, d, v)->0).0,
                (codes::walk(lengths, a, pos, d, v)->0).1 + shift,
            ),
        ),
    decreases a.len() - pos,
{
    let w = 2 * v + bits::bit_value(a[pos]);
    codes::lemma_walk(lengths, a, pos, d, v);
    codes::lemma_walk(lengths, a, pos + 1, d + 1, w);
    codes::lemma_walk(lengths, a, pos + 1, 0, 0);
    assert(a[pos] == b[pos + shift]);
    assert(pos + 1 + shift == pos + shift + 1);
    match codes::node(lengths, d + 1, w) {
        codes::Node::Leaf(_) => {},
        codes::Node::Inner => {
            lemma_walk_alike(a, b, shift, from, limit, lengths, pos + 1, d + 1, w);
        },
        codes::Node::Missing => {
            lemma_walk_alike(a, b, shift, from, limit, lengths, pos + 1, 0, 0);
        },
    }
}

proof fn lemma_decode_alike(
    a: Seq<bool>,
    b: Seq<bool>,
    shift: int,
    from: int,
    limit: int,
    lengths: Seq<u8>,
    pos: int,
)
    requires
        alike(a, b, shift, from, limit),
        from <= pos,
        pos + codes::FAST_BITS <= limit || both_end(a, b, shift, limit) || codes::code_fits(
            lengths,
        ),
        codes::decode_at(lengths, a, pos) matches Some((_, next)) && next <= limit,
    ensures
        codes::decode_at(lengths, b, pos + shift) == Some(
            (
                (codes::decode_at(lengths, a, pos)->0).0,
                (codes::decode_at(lengths, a, pos)->0).1 + shift,
            ),
        ),
{
    if pos + codes::FAST_BITS <= limit {
        lemma_value_alike(a, b, shift, from, limit, pos, codes::FAST_BITS as nat);
        if codes::short_symbol(lengths, bits::bits_value(a, pos, codes::FAST_BITS as nat)) is None {
            lemma_walk_alike(a, b, shift, from, limit, lengths, pos, 0, 0);
        }
    } else {
        if codes::code_fits(lengths) {
            codes::table_agrees_with_tree(lengths, a, pos);
            codes::table_agrees_with_tree(lengths, b, pos + shift);
        }
        lemma_walk_alike(a, b, shift, from, limit, lengths, pos, 0, 0);
    }
}

/// There is room for every word in each code that a group chooses.
pub open spec fn codes_fit(coding: grammar::Coding) -> bool {
    forall|g: int|
        #![trigger coding.selectors[g]]
        0 <= g < coding.selectors.len() ==> codes::code_fits(
            coding.codes[coding.selectors[g] as int],
        )
}

/// The head of the block at `pos` can be read, and there is room for every word in
/// each of its codes that a group chooses.
pub open spec fn block_codes_fit(all: Seq<bool>, pos: int, max: nat) -> bool {
    grammar::head_at(all, pos, max) matches Some((_, _, coding, _)) && codes_fit(coding)
}

proof fn lemma_column_alike(
    a: Seq<bool>,
    b: Seq<bool>,
    shift: int,
    from: int,
    limit: int,
    pos: int,
    coding: grammar::Coding,
    so_far: grammar::Progress,
)
    requires
        alike(a, b, shift, from, limit),
        from <= pos,
        grammar::column_at(a, pos, coding, so_far) is Done,
        grammar::column_at(a, pos, coding, so_far)->Done_1 <= limit,
        grammar::column_at(a, pos, coding, so_far)->Done_1 + codes::FAST_BITS <= limit || both_end(
            a,
            b,
            shift,
            limit,
        ) || codes_fit(coding),
    ensures
        grammar::column_at(b, pos + shift, coding, so_far) == Parsed::Done(
            grammar::column_at(a, pos, coding, so_far)->Done_0,
            grammar::column_at(a, pos, coding, so_far)->Done_1 + shift,
        ),
    decreases a.len() - pos,
{
    let group = (so_far.count / grammar::GROUP_SIZE as nat) as int;
    let lengths = coding.codes[coding.selectors[group] as int];
    assert(codes_fit(coding) && group < coding.selectors.len() ==> codes::code_fits(lengths));
    codes::lemma_decode_at(lengths, a, pos);
    grammar::lemma_column_end(a, pos, coding, so_far);
    if let Some((sym, next)) = codes::decode_at(lengths, a, pos) {
        if sym < 2 {
            grammar::lemma_column_end(a, next, coding, so_far.with_digit(sym));
            lemma_decode_alike(a, b, shift, from, limit, lengths, pos);
            lemma_column_alike(a, b, shift, from, limit, next, coding, so_far.with_digit(sym));
        } else if sym == coding.end {
            lemma_decode_alike(a, b, shift, from, limit, lengths, pos);
        } else {
            grammar::lemma_column_end(a, next, coding, so_far.with_byte(sym - 1));
            lemma_decode_alike(a, b, shift, from, limit, lengths, pos);
            lemma_column_alike(a, b, shift, from, limit, next, coding, so_far.with_byte(sym - 1));
        }
    }
}

/// What the head of a block says depends on its own bits alone.
proof fn lemma_head_alike(
    a: Seq<bool>,
    b: Seq<bool>,
    shift: int,
    from: int,
    limit: int,
    pos: int,
    max: nat,
)
    requires
        alike(a, b, shift, from, limit),
        from <= pos + 32,
        grammar::head_at(a, pos, max) matches Some((_, _, _, behind)) && behind <= limit,
    ensures
        ({
            let (start, bytes, coding, behind) = grammar::head_at(a, pos, max)->0;
            grammar::head_at(b, pos + shift, max) == Some((start, bytes, coding, behind + shift))
        }),
{
    let p1 = pos + 57;
    let (bytes, p2) = (grammar::bytes_at(a, p1)->Done_0, grammar::bytes_at(a, p1)->Done_1);
    let (groups, count) = grammar::groups_at(a, p2)->Done_0;
    let p3 = p2 + 18;
    let order = grammar::first_numbers(groups);
    let p4 = grammar::selectors_at(a, p3, count, order, Seq::empty())->Done_1;
    let symbols = bytes.len() + 2;
    grammar::lemma_selectors_end(a, p3, count, order, Seq::empty());
    grammar::lemma_codes_end(a, p4, groups, symbols, Seq::empty());
    lemma_start_alike(a, b, shift, from, limit, pos);
    lemma_bytes_at_alike(a, b, shift, from, limit, p1);
    lemma_groups_alike(a, b, shift, from, limit, p2);
    lemma_selectors_alike(a, b, shift, from, limit, p3, count, order, Seq::empty());
    lemma_codes_alike(a, b, shift, from, limit, p4, groups, symbols, Seq::empty());
}

/// A block is its head and its body.
pub proof fn lemma_block_by_head(all: Seq<bool>, pos: int, max: nat)
    ensures
        match grammar::head_at(all, pos, max) {
            None => grammar::block_at(all, pos, max) is Fail,
            Some((start, bytes, coding, behind)) => pos + 57 <= behind && grammar::block_at(
                all,
                pos,
                max,
            ) == grammar::body_at(all, behind, coding, bytes, start),
        },
{
    if let Parsed::Done(start, p1) = grammar::start_at(all, pos) {
        if let Parsed::Done(bytes, p2) = grammar::bytes_at(all, p1) {
            if let Parsed::Done((groups, count), p3) = grammar::groups_at(all, p2) {
                let order = grammar::first_numbers(groups);
                grammar::lemma_selectors_end(all, p3, count, order, Seq::empty());
                if let Parsed::Done(_, p4) = grammar::selectors_at(
                    all,
                    p3,
                    count,
                    order,
                    Seq::empty(),
                ) {
                    grammar::lemma_codes_end(all, p4, groups, bytes.len() + 2, Seq::empty());
                }
            }
        }
    }
}

/// A block depends on its own bits alone: where those from behind its checksum to
/// the end of its last word stand elsewhere too, the same block stands there, and
/// ends as many bits further on. What stands behind it does not matter where
/// there is room for every word in its codes. Where there is not, bits enough for
/// one look into the table have to be the same, or nothing may follow.
pub proof fn block_is_local(
    a: Seq<bool>,
    b: Seq<bool>,
    shift: int,
    limit: int,
    pos: int,
    max: nat,
)
    requires
        0 <= pos,
        0 <= pos + shift,
        alike(a, b, shift, pos + 32, limit),
        grammar::block_at(a, pos, max) is Done,
        grammar::block_at(a, pos, max)->Done_1 <= limit,
        ({
            ||| block_codes_fit(a, pos, max)
            ||| grammar::block_at(a, pos, max)->Done_1 + codes::FAST_BITS <= limit
            ||| both_end(a, b, shift, limit)
        }),
    ensures
        grammar::block_at(b, pos + shift, max) == Parsed::Done(
            grammar::block_at(a, pos, max)->Done_0,
            grammar::block_at(a, pos, max)->Done_1 + shift,
        ),
{
    lemma_block_by_head(a, pos, max);
    lemma_block_by_head(b, pos + shift, max);
    let (_, bytes, coding, behind) = grammar::head_at(a, pos, max)->0;
    let before = grammar::Progress::start(bytes);
    grammar::lemma_column_end(a, behind, coding, before);
    lemma_head_alike(a, b, shift, pos + 32, limit, pos, max);
    lemma_column_alike(a, b, shift, pos + 32, limit, behind, coding, before);
}

/// A block that is cut short is never decoded: where the bits end in front of the
/// end of its last word, decoding fails. This holds of blocks in whose codes there
/// is room for every word.
pub proof fn cut_block_fails(all: Seq<bool>, pos: int, max: nat, len: int)
    requires
        0 <= pos,
        grammar::block_at(all, pos, max) matches Parsed::Done(_, next) && 0 <= len < next,
        block_codes_fit(all, pos, max),
    ensures
        grammar::block_at(all.take(len), pos, max) is Fail,
{
    let cut = all.take(len);
    if let Parsed::Done(_, end) = grammar::block_at(cut, pos, max) {
        grammar::lemma_block_end(all, pos, max);
        grammar::lemma_block_end(cut, pos, max);
        lemma_block_by_head(cut, pos, max);
        let (_, bytes, coding, behind) = grammar::head_at(cut, pos, max)->0;
        grammar::lemma_column_end(cut, behind, coding, grammar::Progress::start(bytes));
        assert(alike(cut, all, 0, pos + 32, len));
        lemma_head_alike(cut, all, 0, pos + 32, len, pos, max);
        block_is_local(cut, all, 0, len, pos, max);
    }
}

} // verus!
