//! The move-to-front transform, undone.
//!
//! bzip2 writes each byte as its place in a list and then moves it to the front
//! of that list, so that bytes that were seen a short while ago have small
//! numbers.
use vstd::prelude::*;

verus! {

/// The list after the symbol at place `i` has moved to the front.
pub open spec fn move_to_front(order: Seq<u8>, i: int) -> Seq<u8> {
    seq![order[i]] + order.take(i) + order.skip(i + 1)
}

/// The list of symbols that a place is looked up in.
pub struct MtfDecoder {
    symbols: [u8; 256],
}

impl View for MtfDecoder {
    type V = Seq<u8>;

    closed spec fn view(&self) -> Seq<u8> {
        self.symbols@
    }
}

impl MtfDecoder {
    /// The decoder that starts with every byte at its own place.
    pub fn new() -> (r: Self)
        ensures
            r@ == Seq::new(256, |i: int| i as u8),
    {
        let mut symbols: [u8; 256] = [0u8; 256];
        let mut i: usize = 0;
        while i < 256
            invariant
                i <= 256,
                forall|j: int| 0 <= j < i ==> symbols@[j] == j as u8,
            decreases 256 - i,
        {
            symbols[i] = i as u8;
            i = i + 1;
        }
        assert(symbols@ =~= Seq::new(256, |i: int| i as u8));
        MtfDecoder { symbols }
    }

    /// The decoder that starts with the symbols in the given order.
    pub fn with_symbols(symbols: [u8; 256]) -> (r: Self)
        ensures
            r@ == symbols@,
    {
        MtfDecoder { symbols }
    }

    /// The symbol at place `n`, which moves to the front.
    pub fn decode(&mut self, n: u8) -> (b: u8)
        ensures
            b == old(self)@[n as int],
            final(self)@ == move_to_front(old(self)@, n as int),
    {
        let idx: usize = n as usize;
        let b: u8 = self.symbols[idx];
        let mut i: usize = idx;
        while i > 0
            invariant
                i <= idx < 256,
                forall|j: int|
                    0 <= j < 256 ==> #[trigger] self.symbols@[j] == if i < j <= idx {
                        old(self).symbols@[j - 1]
                    } else {
                        old(self).symbols@[j]
                    },
            decreases i,
        {
            self.symbols[i] = self.symbols[i - 1];
            i = i - 1;
        }
        self.symbols[0] = b;
        assert(self.symbols@ =~= move_to_front(old(self).symbols@, n as int));
        b
    }

    /// The symbol at the front.
    pub fn first(&self) -> (b: u8)
        ensures
            b == self@[0],
    {
        self.symbols[0]
    }
}

/// The list after each of the places has been looked up in turn.
pub open spec fn order_after(order: Seq<u8>, places: Seq<int>) -> Seq<u8>
    decreases places.len(),
{
    if places.len() == 0 {
        order
    } else {
        move_to_front(order_after(order, places.drop_last()), places.last())
    }
}

/// The symbols that a list of places stands for.
pub open spec fn symbols_at(order: Seq<u8>, places: Seq<int>) -> Seq<u8>
    decreases places.len(),
{
    if places.len() == 0 {
        Seq::empty()
    } else {
        symbols_at(order, places.drop_last()).push(
            order_after(order, places.drop_last())[places.last()],
        )
    }
}

/// The list after each of the symbols has moved to the front in turn.
pub open spec fn order_seen(order: Seq<u8>, text: Seq<u8>) -> Seq<u8>
    decreases text.len(),
{
    if text.len() == 0 {
        order
    } else {
        let before = order_seen(order, text.drop_last());
        move_to_front(before, before.index_of(text.last()))
    }
}

/// The places by which the transform writes a text.
pub open spec fn places_of(order: Seq<u8>, text: Seq<u8>) -> Seq<int>
    decreases text.len(),
{
    if text.len() == 0 {
        Seq::empty()
    } else {
        places_of(order, text.drop_last()).push(
            order_seen(order, text.drop_last()).index_of(text.last()),
        )
    }
}

/// Moving a symbol to the front keeps the symbols that are in the list: none is
/// lost and none is doubled.
pub proof fn move_to_front_keeps_symbols(order: Seq<u8>, i: int)
    requires
        0 <= i < order.len(),
    ensures
        move_to_front(order, i).len() == order.len(),
        move_to_front(order, i).to_multiset() == order.to_multiset(),
{
    broadcast use vstd::seq_lib::group_to_multiset_ensures;

    let a = order.take(i);
    let x = seq![order[i]];
    let c = order.skip(i + 1);
    assert(order =~= a + x + c);
    assert(move_to_front(order, i) =~= x + a + c);
    vstd::seq_lib::lemma_multiset_commutative(x, a);
    vstd::seq_lib::lemma_multiset_commutative(a, x);
    vstd::seq_lib::lemma_multiset_commutative(x + a, c);
    vstd::seq_lib::lemma_multiset_commutative(a + x, c);
    assert(x.to_multiset().add(a.to_multiset()) =~= a.to_multiset().add(x.to_multiset()));
}

/// Looking up the places by which a text was written gives the text back.
pub proof fn mtf_undoes_transform(order: Seq<u8>, text: Seq<u8>)
    requires
        forall|i: int| 0 <= i < text.len() ==> order.contains(#[trigger] text[i]),
    ensures
        symbols_at(order, places_of(order, text)) == text,
        order_after(order, places_of(order, text)) == order_seen(order, text),
        order_seen(order, text).to_multiset() == order.to_multiset(),
    decreases text.len(),
{
    broadcast use vstd::seq_lib::group_to_multiset_ensures;

    if text.len() > 0 {
        let init = text.drop_last();
        assert forall|i: int| 0 <= i < init.len() implies order.contains(#[trigger] init[i]) by {
            assert(init[i] == text[i]);
        }
        mtf_undoes_transform(order, init);
        let before = order_seen(order, init);
        let places = places_of(order, text);
        assert(places.drop_last() =~= places_of(order, init));
        assert(order.contains(text[text.len() - 1]));
        assert(before.contains(text.last())) by {
            assert(order.to_multiset().contains(text.last()));
            assert(before.to_multiset().contains(text.last()));
        }
        move_to_front_keeps_symbols(before, before.index_of(text.last()));
        assert(init.push(text.last()) =~= text);
    } else {
        assert(symbols_at(order, places_of(order, text)) =~= text);
    }
}

/// What is in a list is in every list with the same symbols.
pub proof fn lemma_still_there(a: Seq<u8>, b: Seq<u8>, x: u8)
    requires
        a.to_multiset() == b.to_multiset(),
        a.contains(x),
    ensures
        b.contains(x),
{
    broadcast use vstd::seq_lib::group_to_multiset_ensures;

    assert(a.to_multiset().count(x) > 0);
}

/// The symbol at place `i` becomes the first, those in front of it go one place
/// back, and the others stay.
pub proof fn symbol_moves_to_front(order: Seq<u8>, i: int)
    requires
        0 <= i < order.len(),
    ensures
        move_to_front(order, i).len() == order.len(),
        move_to_front(order, i)[0] == order[i],
        forall|j: int| 0 < j <= i ==> #[trigger] move_to_front(order, i)[j] == order[j - 1],
        forall|j: int| i < j < order.len() ==> #[trigger] move_to_front(order, i)[j] == order[j],
{
}

} // verus!
