//! Canonical prefix codes: which code word each symbol has, and which symbol a
//! run of bits stands for.
//!
//! A code is given by the length of each symbol's word. Words are handed out in
//! the order of their lengths, and among equal lengths in the order of the
//! symbols, each time the next number that is free.
use vstd::arithmetic::div_mod::*;
use vstd::arithmetic::mul::*;
use vstd::arithmetic::power2::*;
use vstd::prelude::*;

use crate::bits;

verus! {

/// The width of the table that decodes short words at once.
pub const FAST_BITS: u8 = 12;

/// The longest word that a code can have.
pub const MAX_CODE_LEN: u8 = 32;

/// Symbol `s` has a word.
pub open spec fn used(lengths: Seq<u8>, s: int) -> bool {
    0 <= s < lengths.len() && lengths[s] > 0
}

/// Symbol `s` gets its word before the point at which those of length `len` are
/// handed out down to, but not including, symbol `sym`.
pub open spec fn precedes(lengths: Seq<u8>, s: int, len: int, sym: int) -> bool {
    used(lengths, s) && (lengths[s] < len || (lengths[s] == len && s < sym))
}

/// The room that the words of the symbols below `n` take up at the point given by
/// `len` and `sym`, counted in words of length `len`.
pub open spec fn room_taken(lengths: Seq<u8>, len: int, sym: int, n: nat) -> nat
    decreases n,
{
    if n == 0 {
        0
    } else {
        room_taken(lengths, len, sym, (n - 1) as nat) + if precedes(lengths, n - 1, len, sym) {
            pow2((len - lengths[n - 1]) as nat)
        } else {
            0
        }
    }
}

/// The number of the word of symbol `s`: the room that the words before it take up.
pub open spec fn code(lengths: Seq<u8>, s: int) -> nat {
    room_taken(lengths, lengths[s] as int, s, lengths.len())
}

/// The bits of the word of symbol `s`, as a number: its last `lengths[s]` bits
/// where the number has more.
pub open spec fn word(lengths: Seq<u8>, s: int) -> nat {
    code(lengths, s) % pow2(lengths[s] as nat)
}

/// The first `d` bits of the word of symbol `s`.
pub open spec fn word_prefix(lengths: Seq<u8>, s: int, d: int) -> nat {
    word(lengths, s) / pow2((lengths[s] - d) as nat)
}

/// The word of symbol `s` starts with the `d` bits that write `v`.
pub open spec fn extends(lengths: Seq<u8>, s: int, d: int, v: nat) -> bool {
    used(lengths, s) && d <= lengths[s] && word_prefix(lengths, s, d) == v
}

/// No word that the table could hold is too large for its length.
pub open spec fn table_fits(lengths: Seq<u8>) -> bool {
    forall|s: int|
        used(lengths, s) && lengths[s] <= FAST_BITS ==> #[trigger] code(lengths, s) < pow2(
            lengths[s] as nat,
        )
}

/// No word at all is too large for its length: there is room for every word.
pub open spec fn code_fits(lengths: Seq<u8>) -> bool {
    forall|s: int| used(lengths, s) ==> #[trigger] code(lengths, s) < pow2(lengths[s] as nat)
}

/// Some symbol has a word.
pub open spec fn has_symbols(lengths: Seq<u8>) -> bool {
    exists|s: int| used(lengths, s)
}

/// What stands at the end of a path through the decoding tree.
pub enum Node {
    /// No word starts with this path.
    Missing,
    /// The path is the beginning of a longer word.
    Inner,
    /// The path is the word of this symbol.
    Leaf(int),
}

/// The word of `s` goes on behind the path of `d` bits that write `v`.
pub open spec fn passes(lengths: Seq<u8>, len: int, sym: int, d: int, v: nat, s: int) -> bool {
    precedes(lengths, s, len, sym) && lengths[s] > d && extends(lengths, s, d, v)
}

/// The word of `s` is the path of `d` bits that write `v`.
pub open spec fn ends(lengths: Seq<u8>, len: int, sym: int, d: int, v: nat, s: int) -> bool {
    precedes(lengths, s, len, sym) && lengths[s] == d && extends(lengths, s, d, v)
}

/// The last symbol below `n` whose word is the path.
pub open spec fn last_ending(lengths: Seq<u8>, len: int, sym: int, d: int, v: nat, n: nat) -> Option<
    int,
>
    decreases n,
{
    if n == 0 {
        None
    } else if ends(lengths, len, sym, d, v, n - 1) {
        Some(n - 1)
    } else {
        last_ending(lengths, len, sym, d, v, (n - 1) as nat)
    }
}

/// What stands at the end of the path of `d` bits that write `v`, once the words
/// before the point given by `len` and `sym` have been entered. A longer word
/// that goes through the path takes precedence over one that ends there.
pub open spec fn node_before(lengths: Seq<u8>, len: int, sym: int, d: int, v: nat) -> Node {
    if exists|s: int| passes(lengths, len, sym, d, v, s) {
        Node::Inner
    } else {
        match last_ending(lengths, len, sym, d, v, lengths.len()) {
            Some(s) => Node::Leaf(s),
            None => Node::Missing,
        }
    }
}

/// What stands at the end of the path of `d` bits that write `v`.
pub open spec fn node(lengths: Seq<u8>, d: int, v: nat) -> Node {
    node_before(lengths, 256, 0, d, v)
}

/// The symbol that is reached by following the bits from `pos` on through the
/// tree, and the position behind it, once the path of `d` bits that write `v` has
/// been followed. Where no word goes on with the next bit the search begins anew
/// behind that bit.
pub open spec fn walk(lengths: Seq<u8>, all: Seq<bool>, pos: int, d: int, v: nat) -> Option<
    (int, int),
>
    decreases all.len() - pos,
{
    if pos < 0 || pos >= all.len() {
        None
    } else {
        let w = 2 * v + bits::bit_value(all[pos]);
        match node(lengths, d + 1, w) {
            Node::Leaf(s) => Some((s, pos + 1)),
            Node::Inner => walk(lengths, all, pos + 1, d + 1, w),
            Node::Missing => walk(lengths, all, pos + 1, 0, 0),
        }
    }
}

/// The word of `s` is short, and the window of `FAST_BITS` bits starts with it.
pub open spec fn short_match(lengths: Seq<u8>, s: int, window: nat) -> bool {
    used(lengths, s) && lengths[s] <= FAST_BITS && window / pow2((FAST_BITS - lengths[s]) as nat)
        == code(lengths, s)
}

/// The symbol whose short word the window starts with.
pub open spec fn short_symbol(lengths: Seq<u8>, window: nat) -> Option<int> {
    if exists|s: int| short_match(lengths, s, window) {
        Some(choose|s: int| short_match(lengths, s, window))
    } else {
        None
    }
}

/// The symbol that the bits from `pos` on start with, and the position behind it:
/// the one with a short word, where a whole window of bits is left and starts
/// with one, and the one that the tree leads to otherwise.
pub open spec fn decode_at(lengths: Seq<u8>, all: Seq<bool>, pos: int) -> Option<(int, int)> {
    if pos + FAST_BITS <= all.len() && short_symbol(
        lengths,
        bits::bits_value(all, pos, FAST_BITS as nat),
    ) is Some {
        let s = short_symbol(lengths, bits::bits_value(all, pos, FAST_BITS as nat))->0;
        Some((s, pos + lengths[s]))
    } else {
        walk(lengths, all, pos, 0, 0)
    }
}

// How the room grows as words are handed out.

pub proof fn lemma_room_same(lengths: Seq<u8>, len: int, sym: int, n: nat)
    requires
        0 <= sym < lengths.len(),
        n <= lengths.len(),
    ensures
        room_taken(lengths, len, sym + 1, n) == room_taken(lengths, len, sym, n) + if sym < n
            && lengths[sym] == len && len > 0 {
            1nat
        } else {
            0
        },
    decreases n,
{
    lemma2_to64();
    if n > 0 {
        lemma_room_same(lengths, len, sym, (n - 1) as nat);
    }
}

pub proof fn lemma_room_longer(lengths: Seq<u8>, len: int, n: nat)
    requires
        n <= lengths.len(),
    ensures
        room_taken(lengths, len + 1, 0, n) == 2 * room_taken(lengths, len, lengths.len() as int, n),
    decreases n,
{
    if n > 0 {
        lemma_room_longer(lengths, len, (n - 1) as nat);
        if precedes(lengths, n - 1, len + 1, 0) {
            lemma_pow2_unfold((len + 1 - lengths[n - 1]) as nat);
        }
    }
}

pub proof fn lemma_room_start(lengths: Seq<u8>, n: nat)
    requires
        n <= lengths.len(),
    ensures
        room_taken(lengths, 1, 0, n) == 0,
    decreases n,
{
    if n > 0 {
        lemma_room_start(lengths, (n - 1) as nat);
    }
}

/// The room is bounded by that of as many words of one bit.
pub proof fn lemma_room_bound(lengths: Seq<u8>, len: int, sym: int, n: nat)
    requires
        1 <= len <= MAX_CODE_LEN + 1,
        n <= lengths.len(),
    ensures
        room_taken(lengths, len, sym, n) <= n * 0x1_0000_0000,
    decreases n,
{
    if n > 0 {
        lemma_room_bound(lengths, len, sym, (n - 1) as nat);
        if precedes(lengths, n - 1, len, sym) {
            lemma2_to64();
            if len - lengths[n - 1] < 32 {
                lemma_pow2_strictly_increases((len - lengths[n - 1]) as nat, 32);
            }
        }
    }
}

/// A point behind the word of `t` has at least the room of that word and of all
/// before it taken up.
proof fn lemma_room_behind(lengths: Seq<u8>, t: int, len: int, sym: int, n: nat)
    requires
        precedes(lengths, t, len, sym),
        n <= lengths.len(),
    ensures
        room_taken(lengths, len, sym, n) >= (room_taken(lengths, lengths[t] as int, t, n) + if t < n {
            1nat
        } else {
            0
        }) * pow2((len - lengths[t]) as nat),
    decreases n,
{
    let k = (len - lengths[t]) as nat;
    if n == 0 {
        assert((0nat + 0nat) * pow2(k) == 0) by (nonlinear_arith);
    } else {
        let m = (n - 1) as nat;
        lemma_room_behind(lengths, t, len, sym, m);
        let a = room_taken(lengths, lengths[t] as int, t, m);
        let p = pow2(k);
        if precedes(lengths, m as int, lengths[t] as int, t) {
            let q = pow2((lengths[t] - lengths[m as int]) as nat);
            lemma_pow2_adds((lengths[t] - lengths[m as int]) as nat, k);
            assert((a + q) * p == a * p + q * p) by (nonlinear_arith);
            assert((a + q + 1) * p == (a + 1) * p + q * p) by (nonlinear_arith);
        } else if m == t {
            assert((a + 1) * p == a * p + p) by (nonlinear_arith);
            assert((a + 0) * p == a * p);
        }
    }
}

proof fn lemma_code_behind(lengths: Seq<u8>, t: int, s: int)
    requires
        used(lengths, s),
        precedes(lengths, t, lengths[s] as int, s),
    ensures
        code(lengths, s) >= (code(lengths, t) + 1) * pow2((lengths[s] - lengths[t]) as nat),
{
    lemma_room_behind(lengths, t, lengths[s] as int, s, lengths.len());
}

/// No two words start with one another: where two numbers of the same width `n`
/// have words as their beginnings, these are the same.
proof fn lemma_one_word(lengths: Seq<u8>, s: int, t: int, n: nat, window: nat)
    requires
        used(lengths, s),
        used(lengths, t),
        lengths[s] <= n,
        lengths[t] <= n,
        window / pow2((n - lengths[s]) as nat) == code(lengths, s),
        window / pow2((n - lengths[t]) as nat) == code(lengths, t),
    ensures
        s == t,
{
    if s != t {
        if precedes(lengths, t, lengths[s] as int, s) {
            lemma_one_word_ordered(lengths, t, s, n, window);
        } else {
            lemma_one_word_ordered(lengths, s, t, n, window);
        }
    }
}

proof fn lemma_one_word_ordered(lengths: Seq<u8>, t: int, s: int, n: nat, window: nat)
    requires
        used(lengths, s),
        precedes(lengths, t, lengths[s] as int, s),
        lengths[s] <= n,
        window / pow2((n - lengths[t]) as nat) == code(lengths, t),
    ensures
        window / pow2((n - lengths[s]) as nat) < code(lengths, s),
{
    lemma_code_behind(lengths, t, s);
    let a = pow2((n - lengths[s]) as nat);
    let b = pow2((lengths[s] - lengths[t]) as nat);
    let c = pow2((n - lengths[t]) as nat);
    lemma_pow2_pos((n - lengths[s]) as nat);
    lemma_pow2_pos((n - lengths[t]) as nat);
    lemma_pow2_adds((n - lengths[s]) as nat, (lengths[s] - lengths[t]) as nat);
    let cs = code(lengths, s);
    let ct = code(lengths, t);
    let ws = window / a;
    lemma_fundamental_div_mod(window as int, a as int);
    lemma_fundamental_div_mod(window as int, c as int);
    assert(window >= ws * a) by (nonlinear_arith)
        requires
            window == a * ws + (window as int) % (a as int),
            (window as int) % (a as int) >= 0,
    ;
    assert(window < (ct + 1) * c) by (nonlinear_arith)
        requires
            window == c * ct + (window as int) % (c as int),
            (window as int) % (c as int) < c,
    ;
    assert(cs * a >= (ct + 1) * c) by (nonlinear_arith)
        requires
            cs >= (ct + 1) * b,
            c == a * b,
    ;
    assert(ws < cs) by (nonlinear_arith)
        requires
            ws * a < cs * a,
    ;
}

pub proof fn lemma_short_symbol(lengths: Seq<u8>, s: int, window: nat)
    requires
        short_match(lengths, s, window),
    ensures
        short_symbol(lengths, window) == Some(s),
{
    let t = choose|t: int| short_match(lengths, t, window);
    lemma_one_word(lengths, s, t, FAST_BITS as nat, window);
}

// What a path through the tree leads to.

pub proof fn lemma_last_ending(lengths: Seq<u8>, len: int, sym: int, d: int, v: nat, n: nat)
    requires
        n <= lengths.len(),
    ensures
        match last_ending(lengths, len, sym, d, v, n) {
            Some(s) => 0 <= s < n && ends(lengths, len, sym, d, v, s) && forall|t: int|
                s < t < n ==> !ends(lengths, len, sym, d, v, t),
            None => forall|t: int| 0 <= t < n ==> !ends(lengths, len, sym, d, v, t),
        },
    decreases n,
{
    if n > 0 {
        lemma_last_ending(lengths, len, sym, d, v, (n - 1) as nat);
    }
}

proof fn lemma_last_ending_is(
    lengths: Seq<u8>,
    len: int,
    sym: int,
    d: int,
    v: nat,
    n: nat,
    s: int,
)
    requires
        n <= lengths.len(),
        0 <= s < n,
        ends(lengths, len, sym, d, v, s),
        forall|t: int| s < t < n ==> !ends(lengths, len, sym, d, v, t),
    ensures
        last_ending(lengths, len, sym, d, v, n) == Some(s),
{
    lemma_last_ending(lengths, len, sym, d, v, n);
}

/// Points that the same words precede have the same tree.
pub proof fn lemma_node_same(
    lengths: Seq<u8>,
    len1: int,
    sym1: int,
    len2: int,
    sym2: int,
    d: int,
    v: nat,
)
    requires
        forall|t: int| precedes(lengths, t, len1, sym1) == precedes(lengths, t, len2, sym2),
    ensures
        node_before(lengths, len1, sym1, d, v) == node_before(lengths, len2, sym2, d, v),
{
    assert forall|t: int| passes(lengths, len1, sym1, d, v, t) == passes(
        lengths,
        len2,
        sym2,
        d,
        v,
        t,
    ) by {
        assert(precedes(lengths, t, len1, sym1) == precedes(lengths, t, len2, sym2));
    }
    lemma_last_ending_same(lengths, len1, sym1, len2, sym2, d, v, lengths.len());
    if exists|s: int| passes(lengths, len1, sym1, d, v, s) {
        let s = choose|s: int| passes(lengths, len1, sym1, d, v, s);
        assert(passes(lengths, len2, sym2, d, v, s));
    } else if exists|s: int| passes(lengths, len2, sym2, d, v, s) {
        let s = choose|s: int| passes(lengths, len2, sym2, d, v, s);
        assert(passes(lengths, len1, sym1, d, v, s));
    }
}

proof fn lemma_last_ending_same(
    lengths: Seq<u8>,
    len1: int,
    sym1: int,
    len2: int,
    sym2: int,
    d: int,
    v: nat,
    n: nat,
)
    requires
        forall|t: int| precedes(lengths, t, len1, sym1) == precedes(lengths, t, len2, sym2),
    ensures
        last_ending(lengths, len1, sym1, d, v, n) == last_ending(lengths, len2, sym2, d, v, n),
    decreases n,
{
    if n > 0 {
        lemma_last_ending_same(lengths, len1, sym1, len2, sym2, d, v, (n - 1) as nat);
        assert(precedes(lengths, n - 1, len1, sym1) == precedes(lengths, n - 1, len2, sym2));
    }
}

/// What entering the word of `sym` changes in the tree.
pub proof fn lemma_node_step(lengths: Seq<u8>, len: int, sym: int, d: int, v: nat)
    requires
        used(lengths, sym),
        lengths[sym] == len,
    ensures
        node_before(lengths, len, sym + 1, d, v) == if d < len && extends(lengths, sym, d, v) {
            Node::Inner
        } else if d == len && extends(lengths, sym, d, v) {
            Node::Leaf(sym)
        } else {
            node_before(lengths, len, sym, d, v)
        },
{
    let next = sym + 1;
    let n = lengths.len();
    assert forall|t: int| #[trigger]
        precedes(lengths, t, len, next) == (precedes(lengths, t, len, sym) || t == sym) by {}
    assert forall|t: int| #[trigger]
        passes(lengths, len, next, d, v, t) == (passes(lengths, len, sym, d, v, t) || (t == sym
            && d < len && extends(lengths, sym, d, v))) by {
        assert(precedes(lengths, t, len, next) == (precedes(lengths, t, len, sym) || t == sym));
    }
    assert forall|t: int| #[trigger]
        ends(lengths, len, next, d, v, t) == (ends(lengths, len, sym, d, v, t) || (t == sym && d
            == len && extends(lengths, sym, d, v))) by {
        assert(precedes(lengths, t, len, next) == (precedes(lengths, t, len, sym) || t == sym));
    }
    lemma_last_ending(lengths, len, sym, d, v, n);
    lemma_last_ending(lengths, len, next, d, v, n);
    if d < len && extends(lengths, sym, d, v) {
        assert(passes(lengths, len, next, d, v, sym));
    } else if d == len && extends(lengths, sym, d, v) {
        assert forall|t: int| !passes(lengths, len, next, d, v, t) by {}
        lemma_last_ending_is(lengths, len, next, d, v, n, sym);
    } else {
        if exists|s: int| passes(lengths, len, sym, d, v, s) {
            let s = choose|s: int| passes(lengths, len, sym, d, v, s);
            assert(passes(lengths, len, next, d, v, s));
        } else {
            assert forall|t: int| !passes(lengths, len, next, d, v, t) by {}
            match last_ending(lengths, len, sym, d, v, n) {
                Some(s) => {
                    assert forall|t: int| s < t < n implies !ends(
                        lengths,
                        len,
                        next,
                        d,
                        v,
                        t,
                    ) by {}
                    assert(ends(lengths, len, next, d, v, s));
                    lemma_last_ending_is(lengths, len, next, d, v, n, s);
                },
                None => {
                    match last_ending(lengths, len, next, d, v, n) {
                        Some(s) => {
                            assert(ends(lengths, len, sym, d, v, s));
                        },
                        None => {},
                    }
                },
            }
        }
    }
}

/// One more bit of a word is one more step of its path.
pub proof fn lemma_word_prefix_step(lengths: Seq<u8>, s: int, d: int)
    requires
        used(lengths, s),
        0 <= d < lengths[s],
    ensures
        word_prefix(lengths, s, d) == word_prefix(lengths, s, d + 1) / 2,
        word_prefix(lengths, s, d + 1) == 2 * word_prefix(lengths, s, d) + word_prefix(
            lengths,
            s,
            d + 1,
        ) % 2,
{
    let k = (lengths[s] - d - 1) as nat;
    lemma_pow2_unfold(k + 1);
    lemma_pow2_pos(k);
    lemma_div_denominator(word(lengths, s) as int, pow2(k) as int, 2);
    assert(pow2(k + 1) == pow2(k) * 2);
}

/// Where no longer word goes through a path, nothing stands behind it.
pub proof fn lemma_nothing_behind(lengths: Seq<u8>, len: int, sym: int, d: int, v: nat, b: nat)
    requires
        node_before(lengths, len, sym, d, v) !is Inner,
        b < 2,
        d >= 0,
    ensures
        node_before(lengths, len, sym, d + 1, 2 * v + b) is Missing,
{
    let deeper = d + 1;
    let path = 2 * v + b;
    assert forall|t: int| precedes(lengths, t, len, sym) && d < lengths[t] implies !extends(
        lengths,
        t,
        deeper,
        path,
    ) by {
        if extends(lengths, t, deeper, path) {
            lemma_word_prefix_step(lengths, t, d);
            assert(passes(lengths, len, sym, d, v, t));
        }
    }
    lemma_last_ending(lengths, len, sym, deeper, path, lengths.len());
    if exists|s: int| passes(lengths, len, sym, deeper, path, s) {
        let s = choose|s: int| passes(lengths, len, sym, deeper, path, s);
        assert(!extends(lengths, s, deeper, path));
    }
}

/// Before the first word the tree is empty.
pub proof fn lemma_node_start(lengths: Seq<u8>, d: int, v: nat)
    ensures
        node_before(lengths, 1, 0, d, v) is Missing,
{
    lemma_last_ending(lengths, 1, 0, d, v, lengths.len());
}

/// A word of `d` bits is no longer than itself.
pub proof fn lemma_word_prefix_ends(lengths: Seq<u8>, s: int)
    requires
        used(lengths, s),
    ensures
        word_prefix(lengths, s, 0) == 0,
        word_prefix(lengths, s, lengths[s] as int) == word(lengths, s),
{
    lemma2_to64();
    lemma_pow2_pos(lengths[s] as nat);
    lemma_mod_bound(code(lengths, s) as int, pow2(lengths[s] as nat) as int);
    lemma_basic_div(word(lengths, s) as int, pow2(lengths[s] as nat) as int);
    lemma_div_by_one(word(lengths, s) as int);
}

proof fn lemma_div_by_one(x: int)
    ensures
        x / 1 == x,
{
}

/// The bit of the word behind its first `d` bits is the bit of the number.
pub proof fn lemma_word_bit(lengths: Seq<u8>, s: int, d: int)
    requires
        used(lengths, s),
        0 <= d < lengths[s],
    ensures
        word_prefix(lengths, s, d + 1) % 2 == (code(lengths, s) / pow2(
            (lengths[s] - d - 1) as nat,
        )) % 2,
{
    let c = code(lengths, s) as int;
    let k = (lengths[s] - d - 1) as nat;
    let m = (d + 1) as nat;
    let a = pow2(k) as int;
    let b = pow2(m) as int;
    lemma_pow2_pos(k);
    lemma_pow2_pos(m);
    lemma_pow2_pos(lengths[s] as nat);
    lemma_pow2_adds(k, m);
    lemma_pow2_unfold(m);
    let h = pow2((m - 1) as nat) as int;
    let full = pow2(lengths[s] as nat) as int;
    assert(full == a * b);
    let q = c / full;
    let r = c % full;
    lemma_fundamental_div_mod(c, full);
    assert(c == a * (2 * (h * q)) + r) by (nonlinear_arith)
        requires
            c == full * q + r,
            full == a * b,
            b == 2 * h,
    ;
    lemma_hoist_over_denominator(r, 2 * (h * q), a as nat);
    assert(r / a + 2 * (h * q) == c / a) by {
        assert((r + 2 * (h * q) * a) / a == r / a + 2 * (h * q));
        assert(2 * (h * q) * a == a * (2 * (h * q))) by (nonlinear_arith);
    }
    assert((r / a) % 2 == (c / a) % 2);
}

/// A decoded symbol has a word, and at least one bit is passed.
pub proof fn lemma_decode_at(lengths: Seq<u8>, all: Seq<bool>, pos: int)
    ensures
        decode_at(lengths, all, pos) matches Some((s, p)) ==> used(lengths, s) && pos < p
            <= all.len(),
{
    lemma_walk(lengths, all, pos, 0, 0);
}

pub proof fn lemma_walk(lengths: Seq<u8>, all: Seq<bool>, pos: int, d: int, v: nat)
    ensures
        walk(lengths, all, pos, d, v) matches Some((s, p)) ==> used(lengths, s) && pos < p
            <= all.len(),
    decreases all.len() - pos,
{
    if 0 <= pos < all.len() {
        let w = 2 * v + bits::bit_value(all[pos]);
        lemma_last_ending(lengths, 256, 0, d + 1, w, lengths.len());
        match node(lengths, d + 1, w) {
            Node::Leaf(s) => {},
            Node::Inner => lemma_walk(lengths, all, pos + 1, d + 1, w),
            Node::Missing => lemma_walk(lengths, all, pos + 1, 0, 0),
        }
    }
}

// What a code is for.

/// Where there is room for every word, no word is the beginning of another.
pub proof fn words_are_apart(lengths: Seq<u8>, s: int, t: int)
    requires
        code_fits(lengths),
        used(lengths, s),
        used(lengths, t),
        s != t,
        lengths[s] <= lengths[t],
    ensures
        word_prefix(lengths, t, lengths[s] as int) != word(lengths, s),
{
    lemma_pow2_pos(lengths[s] as nat);
    lemma_pow2_pos(lengths[t] as nat);
    assert(code(lengths, s) < pow2(lengths[s] as nat));
    assert(code(lengths, t) < pow2(lengths[t] as nat));
    lemma_small_mod(code(lengths, s), pow2(lengths[s] as nat));
    lemma_small_mod(code(lengths, t), pow2(lengths[t] as nat));
    lemma2_to64();
    if word_prefix(lengths, t, lengths[s] as int) == word(lengths, s) {
        lemma_div_by_one(code(lengths, t) as int);
        lemma_one_word(lengths, s, t, lengths[t] as nat, code(lengths, t));
    }
}

/// The bits from `pos` on start with the word of symbol `s`.
pub open spec fn word_at(lengths: Seq<u8>, s: int, all: Seq<bool>, pos: int) -> bool {
    &&& used(lengths, s)
    &&& 0 <= pos
    &&& pos + lengths[s] <= all.len()
    &&& bits::bits_value(all, pos, lengths[s] as nat) == word(lengths, s)
}

/// The first bits of a word that stands in the bits.
proof fn lemma_word_at(lengths: Seq<u8>, s: int, all: Seq<bool>, pos: int, d: nat)
    requires
        word_at(lengths, s, all, pos),
        d <= lengths[s],
    ensures
        bits::bits_value(all, pos, d) == word_prefix(lengths, s, d as int),
{
    let k = (lengths[s] - d) as nat;
    bits::lemma_bits_value_split(all, pos, d, k);
    bits::lemma_bits_value_bound(all, pos + d, k);
    lemma_fundamental_div_mod_converse(
        word(lengths, s) as int,
        pow2(k) as int,
        bits::bits_value(all, pos, d) as int,
        bits::bits_value(all, pos + d, k) as int,
    );
}

/// The tree leads along a word to its symbol.
proof fn lemma_walk_word(lengths: Seq<u8>, s: int, all: Seq<bool>, pos: int, d: nat)
    requires
        code_fits(lengths),
        word_at(lengths, s, all, pos),
        d < lengths[s],
    ensures
        walk(lengths, all, pos + d, d as int, word_prefix(lengths, s, d as int)) == Some(
            (s, pos + lengths[s]),
        ),
    decreases lengths[s] - d,
{
    let v = word_prefix(lengths, s, d as int);
    let deeper = d + 1;
    let w = 2 * v + bits::bit_value(all[pos + d]);
    lemma_word_at(lengths, s, all, pos, d);
    lemma_word_at(lengths, s, all, pos, deeper);
    assert(w == word_prefix(lengths, s, deeper as int));
    assert(precedes(lengths, s, 256, 0));
    if deeper < lengths[s] {
        assert(passes(lengths, 256, 0, deeper as int, w, s));
        lemma_walk_word(lengths, s, all, pos, deeper);
        assert(pos + deeper == pos + d + 1);
    } else {
        lemma_word_prefix_ends(lengths, s);
        assert forall|t: int| !passes(lengths, 256, 0, deeper as int, w, t) by {
            if passes(lengths, 256, 0, deeper as int, w, t) {
                words_are_apart(lengths, s, t);
            }
        }
        assert(ends(lengths, 256, 0, deeper as int, w, s));
        assert forall|t: int| s < t < lengths.len() implies !ends(
            lengths,
            256,
            0,
            deeper as int,
            w,
            t,
        ) by {
            if ends(lengths, 256, 0, deeper as int, w, t) {
                words_are_apart(lengths, s, t);
            }
        }
        lemma_last_ending_is(lengths, 256, 0, deeper as int, w, lengths.len(), s);
    }
}

/// Decoding undoes coding: where the bits start with the word of a symbol, and
/// there is room for every word, the symbol is read, and no more than its word.
/// This holds by the table as well as by the tree, whatever follows the word.
pub proof fn decoding_undoes_coding(lengths: Seq<u8>, s: int, all: Seq<bool>, pos: int)
    requires
        code_fits(lengths),
        word_at(lengths, s, all, pos),
    ensures
        decode_at(lengths, all, pos) == Some((s, pos + lengths[s])),
        walk(lengths, all, pos, 0, 0) == Some((s, pos + lengths[s])),
{
    lemma_word_prefix_ends(lengths, s);
    lemma_walk_word(lengths, s, all, pos, 0);
    if pos + FAST_BITS <= all.len() {
        let window = bits::bits_value(all, pos, FAST_BITS as nat);
        lemma_pow2_pos(lengths[s] as nat);
        assert(code(lengths, s) < pow2(lengths[s] as nat));
        lemma_small_mod(code(lengths, s), pow2(lengths[s] as nat));
        if lengths[s] <= FAST_BITS {
            let k = (FAST_BITS - lengths[s]) as nat;
            bits::lemma_bits_value_split(all, pos, lengths[s] as nat, k);
            bits::lemma_bits_value_bound(all, pos + lengths[s], k);
            lemma_fundamental_div_mod_converse(
                window as int,
                pow2(k) as int,
                word(lengths, s) as int,
                bits::bits_value(all, pos + lengths[s], k) as int,
            );
            assert(short_match(lengths, s, window));
            lemma_short_symbol(lengths, s, window);
        } else {
            lemma_word_at(lengths, s, all, pos, FAST_BITS as nat);
            assert forall|t: int| !short_match(lengths, t, window) by {
                if short_match(lengths, t, window) {
                    let j = (lengths[s] - FAST_BITS) as nat;
                    let k = (FAST_BITS - lengths[t]) as nat;
                    lemma_pow2_pos(j);
                    lemma_pow2_pos(k);
                    lemma_pow2_adds(j, k);
                    lemma_div_denominator(
                        code(lengths, s) as int,
                        pow2(j) as int,
                        pow2(k) as int,
                    );
                    assert(code(lengths, t) < pow2(lengths[t] as nat));
                    lemma_small_mod(code(lengths, t), pow2(lengths[t] as nat));
                    words_are_apart(lengths, t, s);
                }
            }
        }
    }
}

/// The table and the tree agree: where there is room for every word, looking a
/// symbol up in the table and following the tree lead to the same symbol and the
/// same position, or both to none, whatever the bits are. A symbol that is found
/// has a word.
pub proof fn table_agrees_with_tree(lengths: Seq<u8>, all: Seq<bool>, pos: int)
    requires
        code_fits(lengths),
        0 <= pos,
    ensures
        decode_at(lengths, all, pos) == walk(lengths, all, pos, 0, 0),
        decode_at(lengths, all, pos) matches Some((s, _)) ==> used(lengths, s),
{
    lemma_decode_at(lengths, all, pos);
    let window = bits::bits_value(all, pos, FAST_BITS as nat);
    if pos + FAST_BITS <= all.len() && short_symbol(lengths, window) is Some {
        let s = short_symbol(lengths, window)->0;
        assert(short_match(lengths, s, window));
        let k = (FAST_BITS - lengths[s]) as nat;
        bits::lemma_bits_value_split(all, pos, lengths[s] as nat, k);
        bits::lemma_bits_value_bound(all, pos + lengths[s], k);
        lemma_fundamental_div_mod_converse(
            window as int,
            pow2(k) as int,
            bits::bits_value(all, pos, lengths[s] as nat) as int,
            bits::bits_value(all, pos + lengths[s], k) as int,
        );
        lemma_pow2_pos(lengths[s] as nat);
        assert(code(lengths, s) < pow2(lengths[s] as nat));
        lemma_small_mod(code(lengths, s), pow2(lengths[s] as nat));
        decoding_undoes_coding(lengths, s, all, pos);
    }
}

/// The room that the words of the first `n` symbols take up, counted in words of
/// length `len`: each halves with every bit more.
pub open spec fn kraft_sum(lengths: Seq<u8>, len: nat, n: nat) -> nat
    decreases n,
{
    if n == 0 {
        0
    } else {
        kraft_sum(lengths, len, (n - 1) as nat) + if 0 < lengths[n - 1] <= len {
            pow2((len - lengths[n - 1]) as nat)
        } else {
            0
        }
    }
}

/// The sum over all words of `2^-length` is at most 1, and no word is longer than
/// `len` bits.
pub open spec fn kraft(lengths: Seq<u8>, len: nat) -> bool {
    &&& forall|s: int| 0 <= s < lengths.len() ==> #[trigger] lengths[s] <= len
    &&& kraft_sum(lengths, len, lengths.len()) <= pow2(len)
}

proof fn lemma_kraft_sum(lengths: Seq<u8>, len: nat, n: nat)
    requires
        n <= lengths.len(),
    ensures
        kraft_sum(lengths, len, n) == room_taken(lengths, len as int, lengths.len() as int, n),
    decreases n,
{
    if n > 0 {
        lemma_kraft_sum(lengths, len, (n - 1) as nat);
    }
}

/// Where the sum over all words of `2^-length` is at most 1, there is room for
/// every word, and the code is one that can be read.
pub proof fn kraft_gives_room(lengths: Seq<u8>, len: nat)
    requires
        kraft(lengths, len),
    ensures
        code_fits(lengths),
        table_fits(lengths),
        forall|s: int|
            0 <= s < lengths.len() && lengths[s] > 0 ==> #[trigger] code(lengths, s) < pow2(
                lengths[s] as nat,
            ),
{
    lemma_kraft_sum(lengths, len, lengths.len());
    assert forall|s: int| 0 <= s < lengths.len() && lengths[s] > 0 implies #[trigger] code(
        lengths,
        s,
    ) < pow2(lengths[s] as nat) by {
        assert(lengths[s] <= len);
        let k = (len - lengths[s]) as nat;
        lemma_room_behind(lengths, s, len as int, lengths.len() as int, lengths.len());
        lemma_pow2_adds(lengths[s] as nat, k);
        lemma_pow2_pos(k);
        let c = code(lengths, s);
        let p = pow2(lengths[s] as nat);
        let q = pow2(k);
        assert(c + 1 <= p) by (nonlinear_arith)
            requires
                (c + 1) * q <= p * q,
                q > 0,
        ;
    }
}

/// The room at a point is that up to the last word before it, and its own.
proof fn lemma_room_exact(lengths: Seq<u8>, s: int, len: int, sym: int, n: nat)
    requires
        precedes(lengths, s, len, sym),
        forall|t: int|
            #[trigger] precedes(lengths, t, len, sym) ==> t == s || precedes(
                lengths,
                t,
                lengths[s] as int,
                s,
            ),
        n <= lengths.len(),
    ensures
        room_taken(lengths, len, sym, n) == (room_taken(lengths, lengths[s] as int, s, n) + if s
            < n {
            1nat
        } else {
            0
        }) * pow2((len - lengths[s]) as nat),
    decreases n,
{
    let k = (len - lengths[s]) as nat;
    if n == 0 {
        assert((0nat + 0nat) * pow2(k) == 0) by (nonlinear_arith);
    } else {
        let m = (n - 1) as nat;
        lemma_room_exact(lengths, s, len, sym, m);
        let a = room_taken(lengths, lengths[s] as int, s, m);
        let p = pow2(k);
        assert(precedes(lengths, m as int, len, sym) <==> m == s || precedes(
            lengths,
            m as int,
            lengths[s] as int,
            s,
        ));
        if precedes(lengths, m as int, lengths[s] as int, s) {
            let q = pow2((lengths[s] - lengths[m as int]) as nat);
            lemma_pow2_adds((lengths[s] - lengths[m as int]) as nat, k);
            assert((a + q) * p == a * p + q * p) by (nonlinear_arith);
            assert((a + q + 1) * p == (a + 1) * p + q * p) by (nonlinear_arith);
        } else if m == s {
            assert((a + 1) * p == a * p + p) by (nonlinear_arith);
            assert((a + 0) * p == a * p);
        }
    }
}

proof fn lemma_room_none(lengths: Seq<u8>, len: int, sym: int, n: nat)
    requires
        forall|t: int| !#[trigger] precedes(lengths, t, len, sym),
    ensures
        room_taken(lengths, len, sym, n) == 0,
    decreases n,
{
    if n > 0 {
        lemma_room_none(lengths, len, sym, (n - 1) as nat);
        assert(!precedes(lengths, n - 1, len, sym));
    }
}

/// Symbol `s` has a word, and it comes before that of `t`: it is shorter, or as
/// long and of a smaller symbol.
pub open spec fn word_before(lengths: Seq<u8>, s: int, t: int) -> bool {
    0 <= s < lengths.len() && 0 < lengths[s] && (lengths[s] < lengths[t] || (lengths[s]
        == lengths[t] && s < t))
}

/// The first word is all zeros.
pub proof fn first_word_is_zero(lengths: Seq<u8>, s: int)
    requires
        0 <= s < lengths.len(),
        lengths[s] > 0,
        forall|t: int| !#[trigger] word_before(lengths, t, s),
    ensures
        code(lengths, s) == 0,
        word(lengths, s) == 0,
{
    assert forall|t: int| !#[trigger] precedes(lengths, t, lengths[s] as int, s) by {
        assert(!word_before(lengths, t, s));
    }
    lemma_room_none(lengths, lengths[s] as int, s, lengths.len());
    lemma_pow2_pos(lengths[s] as nat);
    lemma_small_mod(0, pow2(lengths[s] as nat));
}

/// Each word is the number behind that of the one before, with zeros for the bits
/// that it is longer.
pub proof fn next_word_follows(lengths: Seq<u8>, s: int, t: int)
    requires
        0 <= t < lengths.len(),
        word_before(lengths, s, t),
        forall|u: int|
            #[trigger] word_before(lengths, u, t) ==> u == s || word_before(lengths, u, s),
    ensures
        code(lengths, t) == (code(lengths, s) + 1) * pow2((lengths[t] - lengths[s]) as nat),
{
    let len = lengths[t] as int;
    assert forall|u: int| #[trigger] precedes(lengths, u, len, t) implies u == s || precedes(
        lengths,
        u,
        lengths[s] as int,
        s,
    ) by {
        assert(word_before(lengths, u, t));
    }
    lemma_room_exact(lengths, s, len, t, lengths.len());
}

/// Of the words before a point, the last.
proof fn lemma_last_word(lengths: Seq<u8>, len: int, sym: int, n: nat) -> (s: int)
    requires
        n <= lengths.len(),
        exists|t: int| 0 <= t < n && #[trigger] precedes(lengths, t, len, sym),
    ensures
        0 <= s < n,
        precedes(lengths, s, len, sym),
        forall|t: int|
            0 <= t < n && #[trigger] precedes(lengths, t, len, sym) ==> t == s || precedes(
                lengths,
                t,
                lengths[s] as int,
                s,
            ),
    decreases n,
{
    let m = n - 1;
    if exists|t: int| 0 <= t < m && #[trigger] precedes(lengths, t, len, sym) {
        let before = lemma_last_word(lengths, len, sym, m as nat);
        if precedes(lengths, m, len, sym) && lengths[m] >= lengths[before] {
            m
        } else {
            before
        }
    } else {
        m
    }
}

/// A code can be read exactly where its words of up to twelve bits leave room for
/// each other: the sum over them of `2^-length` is at most 1. Longer words are not
/// asked about.
pub proof fn short_words_decide(lengths: Seq<u8>)
    ensures
        table_fits(lengths) <==> kraft_sum(lengths, 12, lengths.len()) <= pow2(12),
{
    let n = lengths.len();
    let sum = kraft_sum(lengths, 12, n);
    lemma_kraft_sum(lengths, 12, n);
    if sum <= pow2(12) {
        assert forall|s: int| used(lengths, s) && lengths[s] <= FAST_BITS implies #[trigger] code(
            lengths,
            s,
        ) < pow2(lengths[s] as nat) by {
            let k = (12 - lengths[s]) as nat;
            lemma_room_behind(lengths, s, 12, n as int, n);
            lemma_pow2_adds(lengths[s] as nat, k);
            lemma_pow2_pos(k);
            let c = code(lengths, s);
            let p = pow2(lengths[s] as nat);
            let q = pow2(k);
            assert(c + 1 <= p) by (nonlinear_arith)
                requires
                    (c + 1) * q <= p * q,
                    q > 0,
            ;
        }
    }
    if table_fits(lengths) {
        if exists|t: int| 0 <= t < n && #[trigger] precedes(lengths, t, 12, n as int) {
            let s = lemma_last_word(lengths, 12, n as int, n);
            let k = (12 - lengths[s]) as nat;
            assert forall|t: int| #[trigger] precedes(lengths, t, 12, n as int) implies t == s
                || precedes(lengths, t, lengths[s] as int, s) by {}
            lemma_room_exact(lengths, s, 12, n as int, n);
            lemma_pow2_adds(lengths[s] as nat, k);
            let c = code(lengths, s);
            let p = pow2(lengths[s] as nat);
            let q = pow2(k);
            assert(c < p);
            assert((c + 1) * q <= p * q) by (nonlinear_arith)
                requires
                    c + 1 <= p,
                    q >= 0,
            ;
        } else {
            assert forall|t: int| !#[trigger] precedes(lengths, t, 12, n as int) by {}
            lemma_room_none(lengths, 12, n as int, n);
        }
    }
}

/// A number that bits begin with, by a longer one.
proof fn lemma_first_bits(all: Seq<bool>, pos: int, d: nat, n: nat)
    requires
        d <= n,
    ensures
        bits::bits_value(all, pos, d) == bits::bits_value(all, pos, n) / pow2((n - d) as nat),
{
    let k = (n - d) as nat;
    bits::lemma_bits_value_split(all, pos, d, k);
    bits::lemma_bits_value_bound(all, pos + d, k);
    lemma_fundamental_div_mod_converse(
        bits::bits_value(all, pos, n) as int,
        pow2(k) as int,
        bits::bits_value(all, pos, d) as int,
        bits::bits_value(all, pos + d, k) as int,
    );
}

/// The first `d` of the `n` first bits of a word.
proof fn lemma_shorter_prefix(lengths: Seq<u8>, s: int, all: Seq<bool>, pos: int, d: nat, n: nat)
    requires
        used(lengths, s),
        d <= n <= lengths[s],
        bits::bits_value(all, pos, n) == word_prefix(lengths, s, n as int),
    ensures
        bits::bits_value(all, pos, d) == word_prefix(lengths, s, d as int),
{
    let j = (lengths[s] - n) as nat;
    let k = (n - d) as nat;
    lemma_first_bits(all, pos, d, n);
    lemma_pow2_pos(j);
    lemma_pow2_pos(k);
    lemma_pow2_adds(j, k);
    lemma_div_denominator(word(lengths, s) as int, pow2(j) as int, pow2(k) as int);
}

proof fn lemma_walk_inner(lengths: Seq<u8>, s: int, all: Seq<bool>, pos: int, d: nat, n: nat)
    requires
        used(lengths, s),
        lengths[s] < 256,
        d <= n < lengths[s],
        0 <= pos,
        pos + n <= all.len(),
        bits::bits_value(all, pos, n) == word_prefix(lengths, s, n as int),
    ensures
        walk(lengths, all, pos, 0, 0) == walk(
            lengths,
            all,
            pos + d,
            d as int,
            bits::bits_value(all, pos, d),
        ),
    decreases d,
{
    if d > 0 {
        let m = (d - 1) as nat;
        let v = bits::bits_value(all, pos, d);
        lemma_walk_inner(lengths, s, all, pos, m, n);
        lemma_shorter_prefix(lengths, s, all, pos, d, n);
        assert(precedes(lengths, s, 256, 0));
        assert(passes(lengths, 256, 0, d as int, v, s));
        assert(v == 2 * bits::bits_value(all, pos, m) + bits::bit_value(all[pos + m]));
    }
}

/// Where the bits end within a word, no symbol is read.
pub proof fn cut_word_is_not_read(lengths: Seq<u8>, s: int, all: Seq<bool>, pos: int)
    requires
        code_fits(lengths),
        0 <= s < lengths.len(),
        0 <= pos <= all.len(),
        all.len() - pos < lengths[s],
        bits::bits_value(all, pos, (all.len() - pos) as nat) == word(lengths, s) / pow2(
            (lengths[s] - (all.len() - pos)) as nat,
        ),
    ensures
        decode_at(lengths, all, pos) is None,
{
    let n = (all.len() - pos) as nat;
    table_agrees_with_tree(lengths, all, pos);
    lemma_walk_inner(lengths, s, all, pos, n, n);
}

/// The first `n` of the bits from `pos` on are what the word of symbol `s` begins
/// with.
pub open spec fn begins_word(
    lengths: Seq<u8>,
    s: int,
    all: Seq<bool>,
    pos: int,
    n: nat,
) -> bool {
    &&& 0 <= s < lengths.len()
    &&& 0 < lengths[s]
    &&& n <= lengths[s]
    &&& bits::bits_value(all, pos, n) == word(lengths, s) / pow2((lengths[s] - n) as nat)
}

/// Where the bits leave the words of a code, be there room for them or not, the
/// tree passes over those that led there, and the search begins anew behind the bit
/// with which they left.
pub proof fn dead_end_begins_anew(lengths: Seq<u8>, all: Seq<bool>, pos: int, n: nat, s: int)
    requires
        0 <= pos,
        0 < n,
        pos + n <= all.len(),
        n - 1 < lengths[s],
        begins_word(lengths, s, all, pos, (n - 1) as nat),
        forall|t: int| !#[trigger] begins_word(lengths, t, all, pos, n),
    ensures
        walk(lengths, all, pos, 0, 0) == walk(lengths, all, pos + n, 0, 0),
        code_fits(lengths) ==> decode_at(lengths, all, pos) == decode_at(lengths, all, pos + n),
{
    let m = (n - 1) as nat;
    let v = bits::bits_value(all, pos, n);
    lemma_walk_inner(lengths, s, all, pos, m, m);
    assert(v == 2 * bits::bits_value(all, pos, m) + bits::bit_value(all[pos + m]));
    assert(node(lengths, n as int, v) is Missing) by {
        lemma_last_ending(lengths, 256, 0, n as int, v, lengths.len());
        if let Some(t) = last_ending(lengths, 256, 0, n as int, v, lengths.len()) {
            assert(begins_word(lengths, t, all, pos, n));
        }
        if exists|t: int| passes(lengths, 256, 0, n as int, v, t) {
            let t = choose|t: int| passes(lengths, 256, 0, n as int, v, t);
            assert(begins_word(lengths, t, all, pos, n));
        }
    }
    if code_fits(lengths) {
        table_agrees_with_tree(lengths, all, pos);
        table_agrees_with_tree(lengths, all, pos + n);
    }
}

/// The tree reads a word, be there room for all of them or not, that no longer word
/// begins with and no later symbol has.
pub proof fn tree_reads_word(lengths: Seq<u8>, all: Seq<bool>, pos: int, s: int)
    requires
        word_at(lengths, s, all, pos),
        forall|t: int|
            #[trigger] begins_word(lengths, t, all, pos, lengths[s] as nat) ==> t <= s
                && lengths[t] <= lengths[s],
    ensures
        walk(lengths, all, pos, 0, 0) == Some((s, pos + lengths[s])),
{
    let n = lengths[s] as nat;
    let m = (n - 1) as nat;
    let v = bits::bits_value(all, pos, n);
    lemma_word_at(lengths, s, all, pos, m);
    lemma_word_prefix_ends(lengths, s);
    lemma_walk_inner(lengths, s, all, pos, m, m);
    assert(v == 2 * bits::bits_value(all, pos, m) + bits::bit_value(all[pos + m]));
    assert forall|t: int| !passes(lengths, 256, 0, n as int, v, t) by {
        if passes(lengths, 256, 0, n as int, v, t) {
            assert(begins_word(lengths, t, all, pos, n));
        }
    }
    assert(ends(lengths, 256, 0, n as int, v, s));
    assert forall|t: int| s < t < lengths.len() implies !ends(
        lengths,
        256,
        0,
        n as int,
        v,
        t,
    ) by {
        if ends(lengths, 256, 0, n as int, v, t) {
            assert(begins_word(lengths, t, all, pos, n));
        }
    }
    lemma_last_ending_is(lengths, 256, 0, n as int, v, lengths.len(), s);
}

/// A word of up to twelve bits is read at once where the short words leave room for
/// each other and twelve bits are left, whatever the longer words are. Where no
/// short word stands there, or fewer bits are left, the tree is followed.
pub proof fn short_word_is_read(lengths: Seq<u8>, all: Seq<bool>, pos: int)
    requires
        0 <= pos,
        kraft_sum(lengths, 12, lengths.len()) <= pow2(12),
    ensures
        forall|s: int| #[trigger]
            word_at(lengths, s, all, pos) && lengths[s] <= 12 && pos + 12 <= all.len()
                ==> decode_at(lengths, all, pos) == Some((s, pos + lengths[s])),
        pos + 12 > all.len() || (forall|s: int|
            #[trigger] word_at(lengths, s, all, pos) ==> lengths[s] > 12) ==> decode_at(
            lengths,
            all,
            pos,
        ) == walk(lengths, all, pos, 0, 0),
{
    short_words_decide(lengths);
    let window = bits::bits_value(all, pos, 12);
    assert forall|s: int| #[trigger]
        word_at(lengths, s, all, pos) && lengths[s] <= 12 && pos + 12
            <= all.len() implies decode_at(lengths, all, pos) == Some((s, pos + lengths[s])) by {
        lemma_first_bits(all, pos, lengths[s] as nat, 12);
        lemma_pow2_pos(lengths[s] as nat);
        assert(code(lengths, s) < pow2(lengths[s] as nat));
        lemma_small_mod(code(lengths, s), pow2(lengths[s] as nat));
        assert(short_match(lengths, s, window));
        lemma_short_symbol(lengths, s, window);
    }
    if pos + 12 <= all.len() && (forall|s: int| #[trigger]
        word_at(lengths, s, all, pos) ==> lengths[s] > 12) {
        if exists|s: int| short_match(lengths, s, window) {
            let s = choose|s: int| short_match(lengths, s, window);
            lemma_first_bits(all, pos, lengths[s] as nat, 12);
            lemma_pow2_pos(lengths[s] as nat);
            assert(code(lengths, s) < pow2(lengths[s] as nat));
            lemma_small_mod(code(lengths, s), pow2(lengths[s] as nat));
            assert(word_at(lengths, s, all, pos));
        }
    }
}

/// The bits of a word are the last ones of its number.
pub proof fn word_is_low_bits(lengths: Seq<u8>, s: int)
    requires
        0 <= s < lengths.len(),
    ensures
        word(lengths, s) < pow2(lengths[s] as nat),
        (code(lengths, s) - word(lengths, s)) % pow2(lengths[s] as nat) as int == 0,
{
    let c = code(lengths, s) as int;
    let p = pow2(lengths[s] as nat) as int;
    lemma_pow2_pos(lengths[s] as nat);
    lemma_mod_bound(c, p);
    lemma_fundamental_div_mod(c, p);
    lemma_mod_multiples_basic(c / p, p);
    lemma_mul_is_commutative(p, c / p);
}

} // verus!
