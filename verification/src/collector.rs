//! Putting the results of workers back in order.
//!
//! Segments are decoded in any order. A chunk is in flight from the moment its
//! segments are handed out until all of them are back, and then leaves when
//! every chunk in front of it has left.
use vstd::prelude::*;

verus! {

/// The result of a worker.
pub struct SegmentResult {
    pub chunk_id: u64,
    pub segment_id: usize,
    pub output: Vec<u8>,
}

/// A chunk whose segments are being decoded. `slot` is the buffer that holds
/// its data, to be used again when the chunk has left.
pub struct InFlightSlot<S> {
    pub chunk_id: u64,
    pub slot: S,
    pub decode_segments: usize,
    pub results: Vec<Option<Vec<u8>>>,
    pub done_count: usize,
    pub is_last: bool,
}

/// A chunk in flight as contracts speak of it.
#[verifier::ext_equal]
pub struct InFlight<S> {
    pub chunk_id: u64,
    pub slot: S,
    pub decode_segments: int,
    pub results: Seq<Option<Seq<u8>>>,
    pub done_count: int,
    pub is_last: bool,
}

/// The text of a segment, where it is back.
pub open spec fn text_of(result: Option<Vec<u8>>) -> Option<Seq<u8>> {
    match result {
        Some(text) => Some(text@),
        None => None,
    }
}

impl<S> View for InFlightSlot<S> {
    type V = InFlight<S>;

    open spec fn view(&self) -> InFlight<S> {
        InFlight {
            chunk_id: self.chunk_id,
            slot: self.slot,
            decode_segments: self.decode_segments as int,
            results: self.results@.map_values(|r: Option<Vec<u8>>| text_of(r)),
            done_count: self.done_count as int,
            is_last: self.is_last,
        }
    }
}

/// The chunks as contracts speak of them.
pub open spec fn all_in_flight<S>(slots: Seq<InFlightSlot<S>>) -> Seq<InFlight<S>> {
    slots.map_values(|s: InFlightSlot<S>| s@)
}

impl<S> InFlight<S> {
    /// The chunk with one more result.
    pub open spec fn with_result(self, segment: int, text: Seq<u8>) -> InFlight<S> {
        InFlight {
            results: self.results.update(segment, Some(text)),
            done_count: self.done_count + 1,
            ..self
        }
    }

    /// As many results are back as segments were handed out.
    pub open spec fn complete(self) -> bool {
        self.done_count >= self.decode_segments
    }

    /// The results are counted.
    pub open spec fn counted(self) -> bool {
        &&& self.decode_segments == self.results.len()
        &&& self.done_count == results_back(self.results)
    }
}

/// How many results are there.
pub open spec fn results_back(results: Seq<Option<Seq<u8>>>) -> int
    decreases results.len(),
{
    if results.len() == 0 {
        0
    } else {
        results_back(results.drop_last()) + if results.last() is Some {
            1int
        } else {
            0
        }
    }
}

/// The texts that are not empty, in the order of their segments.
pub open spec fn texts_to_write(results: Seq<Option<Seq<u8>>>) -> Seq<Seq<u8>>
    decreases results.len(),
{
    if results.len() == 0 {
        Seq::empty()
    } else {
        let before = texts_to_write(results.drop_last());
        match results.last() {
            Some(text) => if text.len() > 0 {
                before.push(text)
            } else {
                before
            },
            None => before,
        }
    }
}

/// The first chunk with the given number.
pub open spec fn place_of<S>(slots: Seq<InFlight<S>>, id: u64, from: int) -> Option<int>
    decreases slots.len() - from,
{
    if from >= slots.len() {
        None
    } else if slots[from].chunk_id == id {
        Some(from)
    } else {
        place_of(slots, id, from + 1)
    }
}

pub proof fn lemma_place_of<S>(slots: Seq<InFlight<S>>, id: u64, from: int)
    requires
        0 <= from,
    ensures
        place_of(slots, id, from) matches Some(i) ==> from <= i < slots.len()
            && slots[i].chunk_id == id,
    decreases slots.len() - from,
{
    if from < slots.len() && slots[from].chunk_id != id {
        lemma_place_of(slots, id, from + 1);
    }
}

/// The place of the first chunk with the given number.
fn find_slot<S>(in_flight: &Vec<InFlightSlot<S>>, id: u64) -> (r: Option<usize>)
    ensures
        match place_of(all_in_flight(in_flight@), id, 0) {
            Some(i) => r matches Some(j) && j == i,
            None => r is None,
        },
        r matches Some(j) ==> j < in_flight@.len() && in_flight@[j as int].chunk_id == id,
{
    let ghost slots = all_in_flight(in_flight@);
    let mut i: usize = 0;
    while i < in_flight.len()
        invariant
            i <= in_flight@.len(),
            slots == all_in_flight(in_flight@),
            place_of(slots, id, 0) == place_of(slots, id, i as int),
        decreases in_flight.len() - i,
    {
        assert(slots[i as int] == in_flight@[i as int]@);
        if in_flight[i].chunk_id == id {
            return Some(i);
        }
        i = i + 1;
    }
    None
}

/// Files the result of a worker with its chunk. A result whose chunk is not in
/// flight is dropped.
pub fn apply_result<S>(in_flight: &mut Vec<InFlightSlot<S>>, result: SegmentResult)
    requires
        place_of(all_in_flight(old(in_flight)@), result.chunk_id, 0) matches Some(i) ==> {
            &&& result.segment_id < old(in_flight)@[i].results@.len()
            &&& old(in_flight)@[i].done_count < usize::MAX
        },
    ensures
        all_in_flight(final(in_flight)@) == {
            let slots = all_in_flight(old(in_flight)@);
            match place_of(slots, result.chunk_id, 0) {
                None => slots,
                Some(i) => slots.update(
                    i,
                    slots[i].with_result(result.segment_id as int, result.output@),
                ),
            }
        },
{
    let ghost before = in_flight@;
    match find_slot(in_flight, result.chunk_id) {
        None => {},
        Some(i) => {
            let SegmentResult { chunk_id: _, segment_id, output } = result;
            let ghost text = output@;
            let slot: &mut InFlightSlot<S> = &mut in_flight[i];
            slot.results[segment_id] = Some(output);
            slot.done_count = slot.done_count + 1;
            proof {
                let slots = all_in_flight(before);
                let after = in_flight@[i as int];
                assert(after@.results =~= slots[i as int].results.update(
                    segment_id as int,
                    Some(text),
                ));
                assert(after@ =~= slots[i as int].with_result(segment_id as int, text));
                assert(all_in_flight(in_flight@) =~= slots.update(i as int, after@));
            }
        },
    }
}

/// A chunk that has left: the texts to write, and the buffer to use again.
pub struct FlushedSlot<S> {
    pub segments: Vec<Vec<u8>>,
    pub slot: S,
}

/// The texts as contracts speak of them.
pub open spec fn texts_of(segments: Seq<Vec<u8>>) -> Seq<Seq<u8>> {
    segments.map_values(|v: Vec<u8>| v@)
}

/// The chunks that have left as contracts speak of them.
pub open spec fn all_flushed<S>(flushed: Seq<FlushedSlot<S>>) -> Seq<(Seq<Seq<u8>>, S)> {
    flushed.map_values(|f: FlushedSlot<S>| (texts_of(f.segments@), f.slot))
}

/// The chunks that leave when `next` is the number of the first that has not
/// left: one after the other, as long as the next one is complete.
pub open spec fn flushed_of<S>(slots: Seq<InFlight<S>>, next: u64) -> Seq<(Seq<Seq<u8>>, S)>
    decreases slots.len(),
{
    match place_of(slots, next, 0) {
        None => Seq::empty(),
        Some(i) => {
            proof {
                lemma_place_of(slots, next, 0);
            }
            if slots[i].complete() {
                seq![(texts_to_write(slots[i].results), slots[i].slot)] + flushed_of(
                    slots.remove(i),
                    (next + 1) as u64,
                )
            } else {
                Seq::empty()
            }
        },
    }
}

/// The chunks that stay in flight.
pub open spec fn kept_of<S>(slots: Seq<InFlight<S>>, next: u64) -> Seq<InFlight<S>>
    decreases slots.len(),
{
    match place_of(slots, next, 0) {
        None => slots,
        Some(i) => {
            proof {
                lemma_place_of(slots, next, 0);
            }
            if slots[i].complete() {
                kept_of(slots.remove(i), (next + 1) as u64)
            } else {
                slots
            }
        },
    }
}

/// Takes the texts that are not empty out of the results of a chunk.
fn take_texts(results: Vec<Option<Vec<u8>>>) -> (r: Vec<Vec<u8>>)
    ensures
        texts_of(r@) == texts_to_write(results@.map_values(|r: Option<Vec<u8>>| text_of(r))),
{
    let ghost all = results@.map_values(|r: Option<Vec<u8>>| text_of(r));
    let mut texts: Vec<Vec<u8>> = Vec::new();
    assert(texts_of(texts@) == texts_to_write(all.take(0)));
    for result in it: results.into_iter()
        invariant
            it.seq().map_values(|r: Option<Vec<u8>>| text_of(r)) == all,
            texts_of(texts@) == texts_to_write(all.take(it.index() as int)),
    {
        proof {
            let i = it.index() as int;
            assert(all.take(i + 1).drop_last() == all.take(i));
            assert(all.take(i + 1).last() == text_of(result));
        }
        match result {
            Some(text) => {
                if text.len() > 0 {
                    assert(texts_of(texts@.push(text)) == texts_of(texts@).push(text@));
                    texts.push(text);
                }
            },
            None => {},
        }
    }
    assert(all.take(all.len() as int) == all);
    texts
}

/// Lets every chunk leave whose turn it is and whose segments are all back, in
/// order.
pub fn flush_completed<S>(
    in_flight: &mut Vec<InFlightSlot<S>>,
    next_write_id: &mut u64,
) -> (r: Vec<FlushedSlot<S>>)
    requires
        *old(next_write_id) + old(in_flight)@.len() <= u64::MAX,
    ensures
        all_flushed(r@) == flushed_of(all_in_flight(old(in_flight)@), *old(next_write_id)),
        all_in_flight(final(in_flight)@) == kept_of(
            all_in_flight(old(in_flight)@),
            *old(next_write_id),
        ),
        *final(next_write_id) == *old(next_write_id) + r@.len(),
{
    let ghost first = *next_write_id;
    let ghost slots = all_in_flight(in_flight@);
    let mut flushed: Vec<FlushedSlot<S>> = Vec::new();
    assert(all_flushed(flushed@) + flushed_of(slots, first) == flushed_of(slots, first));
    loop
        invariant
            *next_write_id + in_flight@.len() <= u64::MAX,
            *next_write_id == first + flushed@.len(),
            all_flushed(flushed@) + flushed_of(all_in_flight(in_flight@), *next_write_id)
                == flushed_of(slots, first),
            kept_of(all_in_flight(in_flight@), *next_write_id) == kept_of(slots, first),
            slots == all_in_flight(old(in_flight)@),
            first == *old(next_write_id),
        decreases in_flight@.len(),
    {
        let ghost now = all_in_flight(in_flight@);
        let place: usize = match find_slot(in_flight, *next_write_id) {
            Some(i) => i,
            None => {
                assert(all_flushed(flushed@) + Seq::empty() == all_flushed(flushed@));
                return flushed;
            },
        };
        assert(now[place as int] == in_flight@[place as int]@);
        if in_flight[place].done_count < in_flight[place].decode_segments {
            assert(all_flushed(flushed@) + Seq::empty() == all_flushed(flushed@));
            return flushed;
        }
        let InFlightSlot {
            chunk_id: _,
            slot,
            decode_segments: _,
            results,
            done_count: _,
            is_last: _,
        } = in_flight.remove(place);
        assert(all_in_flight(in_flight@) == now.remove(place as int));
        let segments: Vec<Vec<u8>> = take_texts(results);
        let next: FlushedSlot<S> = FlushedSlot { segments, slot };
        proof {
            let item = (texts_to_write(now[place as int].results), now[place as int].slot);
            let rest = flushed_of(now.remove(place as int), (*next_write_id + 1) as u64);
            assert(all_flushed(flushed@.push(next)) == all_flushed(flushed@).push(item));
            assert(all_flushed(flushed@) + (seq![item] + rest) == all_flushed(flushed@).push(item)
                + rest);
        }
        flushed.push(next);
        *next_write_id = *next_write_id + 1;
    }
}

/// The order in which two results come back makes no difference.
pub proof fn results_commute<S>(slot: InFlight<S>, i: int, a: Seq<u8>, j: int, b: Seq<u8>)
    requires
        0 <= i < slot.results.len(),
        0 <= j < slot.results.len(),
        i != j,
    ensures
        slot.with_result(i, a).with_result(j, b) == slot.with_result(j, b).with_result(i, a),
{
    assert(slot.with_result(i, a).with_result(j, b) =~= slot.with_result(j, b).with_result(i, a));
}

/// The count of results stays right as long as each segment comes back once.
pub proof fn result_is_counted<S>(slot: InFlight<S>, i: int, text: Seq<u8>)
    requires
        slot.counted(),
        0 <= i < slot.results.len(),
        slot.results[i] is None,
    ensures
        slot.with_result(i, text).counted(),
{
    lemma_results_back_update(slot.results, i, text);
}

proof fn lemma_results_back_update(results: Seq<Option<Seq<u8>>>, i: int, text: Seq<u8>)
    requires
        0 <= i < results.len(),
        results[i] is None,
    ensures
        results_back(results.update(i, Some(text))) == results_back(results) + 1,
    decreases results.len(),
{
    let after = results.update(i, Some(text));
    if i == results.len() - 1 {
        assert(after.drop_last() == results.drop_last());
    } else {
        lemma_results_back_update(results.drop_last(), i, text);
        assert(after.drop_last() == results.drop_last().update(i, Some(text)));
    }
}

/// The texts one behind the other.
pub open spec fn concatenated(texts: Seq<Seq<u8>>) -> Seq<u8>
    decreases texts.len(),
{
    if texts.len() == 0 {
        Seq::empty()
    } else {
        concatenated(texts.drop_last()) + texts.last()
    }
}

/// A chunk leaves with the text of each of its segments, in their order: none is
/// missing, and none was handed in twice.
pub proof fn chunk_leaves_whole<S>(slot: InFlight<S>)
    requires
        slot.counted(),
        slot.complete(),
    ensures
        forall|i: int| 0 <= i < slot.results.len() ==> (#[trigger] slot.results[i]) is Some,
        concatenated(texts_to_write(slot.results)) == concatenated(
            slot.results.map_values(|r: Option<Seq<u8>>| r->0),
        ),
{
    lemma_all_back(slot.results);
    lemma_texts_to_write(slot.results);
}

proof fn lemma_all_back(results: Seq<Option<Seq<u8>>>)
    ensures
        results_back(results) <= results.len(),
        results_back(results) == results.len() ==> forall|i: int|
            0 <= i < results.len() ==> (#[trigger] results[i]) is Some,
    decreases results.len(),
{
    if results.len() > 0 {
        lemma_all_back(results.drop_last());
        if results_back(results) == results.len() {
            assert forall|i: int|
                0 <= i < results.len() implies (#[trigger] results[i]) is Some by {
                if i < results.len() - 1 {
                    assert(results.drop_last()[i] is Some);
                }
            }
        }
    }
}

proof fn lemma_texts_to_write(results: Seq<Option<Seq<u8>>>)
    requires
        forall|i: int| 0 <= i < results.len() ==> (#[trigger] results[i]) is Some,
    ensures
        concatenated(texts_to_write(results)) == concatenated(
            results.map_values(|r: Option<Seq<u8>>| r->0),
        ),
    decreases results.len(),
{
    let texts = results.map_values(|r: Option<Seq<u8>>| r->0);
    if results.len() > 0 {
        let before = results.drop_last();
        lemma_texts_to_write(before);
        assert(texts.drop_last() == before.map_values(|r: Option<Seq<u8>>| r->0));
        let text = results.last()->0;
        assert(texts.last() == text);
        let written = texts_to_write(before);
        if text.len() > 0 {
            assert(written.push(text).drop_last() == written);
        } else {
            assert(concatenated(written) + text == concatenated(written));
        }
    } else {
        assert(texts == Seq::<Seq<u8>>::empty());
    }
}

/// The chunks leave in the order of their numbers: the one at place `k` of those
/// that leave is the chunk in flight whose number is `next + k`, and all its
/// segments are back.
pub proof fn chunks_leave_in_order<S>(slots: Seq<InFlight<S>>, next: u64, k: int)
    requires
        next + slots.len() <= u64::MAX,
        0 <= k < flushed_of(slots, next).len(),
    ensures
        exists|i: int|
            0 <= i < slots.len() && (#[trigger] slots[i]).chunk_id == next + k
                && slots[i].complete() && flushed_of(slots, next)[k] == (
                texts_to_write(slots[i].results),
                slots[i].slot,
            ),
    decreases slots.len(),
{
    lemma_place_of(slots, next, 0);
    let place = place_of(slots, next, 0)->0;
    if k == 0 {
        assert(slots[place].chunk_id == next + k);
    } else {
        let rest = slots.remove(place);
        chunks_leave_in_order(rest, (next + 1) as u64, k - 1);
        let j = choose|j: int|
            0 <= j < rest.len() && (#[trigger] rest[j]).chunk_id == (next + 1) as u64 + (k - 1)
                && rest[j].complete() && flushed_of(rest, (next + 1) as u64)[k - 1] == (
                texts_to_write(rest[j].results),
                rest[j].slot,
            );
        let i = if j < place {
            j
        } else {
            j + 1
        };
        assert(slots[i] == rest[j]);
    }
}

/// No chunk that could leave stays behind: of those that are kept, none can leave
/// before another result is back.
pub proof fn nothing_stays_behind<S>(slots: Seq<InFlight<S>>, next: u64)
    requires
        next + slots.len() <= u64::MAX,
    ensures
        next + flushed_of(slots, next).len() <= u64::MAX,
        flushed_of(
            kept_of(slots, next),
            (next + flushed_of(slots, next).len()) as u64,
        ).len() == 0,
        kept_of(slots, next).len() + flushed_of(slots, next).len() == slots.len(),
    decreases slots.len(),
{
    lemma_place_of(slots, next, 0);
    if let Some(i) = place_of(slots, next, 0) {
        if slots[i].complete() {
            nothing_stays_behind(slots.remove(i), (next + 1) as u64);
        }
    }
}

// What leaves, by the numbers of the chunks and the counts of their results.

/// No two chunks in flight have the same number.
pub open spec fn numbers_differ<S>(slots: Seq<InFlight<S>>) -> bool {
    forall|i: int, j: int|
        #![trigger slots[i], slots[j]]
        0 <= i < j < slots.len() ==> slots[i].chunk_id != slots[j].chunk_id
}

/// The texts that are back and not empty.
pub open spec fn texts_back(results: Seq<Option<Seq<u8>>>) -> Seq<Seq<u8>> {
    results.filter_map(
        |r: Option<Seq<u8>>|
            if r is Some && r->0 != Seq::<u8>::empty() {
                r
            } else {
                None
            },
    )
}

/// A chunk leaves with the texts of its segments that are not empty, in their
/// order.
pub proof fn texts_keep_their_order(results: Seq<Option<Seq<u8>>>)
    ensures
        texts_to_write(results) == texts_back(results),
    decreases results.len(),
{
    if results.len() > 0 {
        texts_keep_their_order(results.drop_last());
        if let Some(text) = results.last() {
            assert(text.len() == 0 ==> text == Seq::<u8>::empty());
            let before = texts_to_write(results.drop_last());
            assert(before.push(text) == before + seq![text]);
        }
    }
}

/// Where every segment is back, nothing of their texts is lost.
pub proof fn texts_are_whole(results: Seq<Option<Seq<u8>>>)
    requires
        forall|i: int| 0 <= i < results.len() ==> (#[trigger] results[i]) is Some,
    ensures
        texts_to_write(results).flatten() == results.map_values(
            |r: Option<Seq<u8>>| r->0,
        ).flatten(),
{
    lemma_texts_to_write(results);
    lemma_concatenated(texts_to_write(results));
    lemma_concatenated(results.map_values(|r: Option<Seq<u8>>| r->0));
}

proof fn lemma_concatenated(texts: Seq<Seq<u8>>)
    ensures
        concatenated(texts) == texts.flatten(),
    decreases texts.len(),
{
    texts.lemma_flatten_and_flatten_alt_are_equivalent();
    if texts.len() > 0 {
        lemma_concatenated(texts.drop_last());
        texts.drop_last().lemma_flatten_and_flatten_alt_are_equivalent();
    }
}

/// A result is filed with its segment and counted, and nothing else changes.
pub proof fn result_is_filed<S>(slot: InFlight<S>, i: int, text: Seq<u8>)
    requires
        0 <= i < slot.results.len(),
    ensures
        ({
            let after = slot.with_result(i, text);
            &&& after.results.len() == slot.results.len()
            &&& after.results[i] == Some(text)
            &&& forall|j: int|
                0 <= j < slot.results.len() && j != i ==> #[trigger] after.results[j]
                    == slot.results[j]
            &&& after.done_count == slot.done_count + 1
            &&& after.chunk_id == slot.chunk_id
            &&& after.slot == slot.slot
            &&& after.decode_segments == slot.decode_segments
            &&& after.is_last == slot.is_last
        }),
{
}

/// The chunk that is found is the first with the number, and none is found only
/// where no chunk has it.
pub proof fn first_chunk_is_found<S>(slots: Seq<InFlight<S>>, id: u64, from: int)
    requires
        0 <= from,
    ensures
        match place_of(slots, id, from) {
            Some(i) => from <= i < slots.len() && slots[i].chunk_id == id && forall|j: int|
                from <= j < i ==> (#[trigger] slots[j]).chunk_id != id,
            None => forall|j: int|
                from <= j < slots.len() ==> (#[trigger] slots[j]).chunk_id != id,
        },
    decreases slots.len() - from,
{
    if from < slots.len() && slots[from].chunk_id != id {
        first_chunk_is_found(slots, id, from + 1);
    }
}

proof fn lemma_numbers_differ<S>(slots: Seq<InFlight<S>>, k: int)
    requires
        numbers_differ(slots),
        0 <= k < slots.len(),
    ensures
        numbers_differ(slots.remove(k)),
        forall|s: InFlight<S>| #[trigger]
            slots.remove(k).contains(s) <==> slots.contains(s) && s.chunk_id
                != slots[k].chunk_id,
{
    let rest = slots.remove(k);
    assert forall|i: int, j: int|
        #![trigger rest[i], rest[j]]
        0 <= i < j < rest.len() implies rest[i].chunk_id != rest[j].chunk_id by {
        let x = if i < k {
            i
        } else {
            i + 1
        };
        let y = if j < k {
            j
        } else {
            j + 1
        };
        assert(rest[i] == slots[x] && rest[j] == slots[y]);
    }
    assert forall|s: InFlight<S>| #[trigger] rest.contains(s) <==> slots.contains(s) && s.chunk_id
        != slots[k].chunk_id by {
        if rest.contains(s) {
            let i = choose|i: int| 0 <= i < rest.len() && rest[i] == s;
            let x = if i < k {
                i
            } else {
                i + 1
            };
            assert(slots[x] == s);
            assert(slots[k].chunk_id != slots[x].chunk_id);
        }
        if slots.contains(s) && s.chunk_id != slots[k].chunk_id {
            let x = choose|x: int| 0 <= x < slots.len() && slots[x] == s;
            let i = if x < k {
                x
            } else {
                x - 1
            };
            assert(rest[i] == s);
        }
    }
}

/// A chunk in flight whose turn it is, and of which as many results are back as
/// segments were handed out, leaves, whether it is the last one or not: what
/// leaves begins with its texts and its buffer, and nothing with its number stays
/// in flight.
pub proof fn due_chunk_leaves<S>(slots: Seq<InFlight<S>>, next: u64, i: int)
    requires
        next + slots.len() <= u64::MAX,
        numbers_differ(slots),
        0 <= i < slots.len(),
        slots[i].chunk_id == next,
        slots[i].done_count >= slots[i].decode_segments,
    ensures
        flushed_of(slots, next).len() > 0,
        flushed_of(slots, next)[0] == (texts_back(slots[i].results), slots[i].slot),
        forall|s: InFlight<S>| #[trigger]
            kept_of(slots, next).contains(s) ==> s.chunk_id != next,
{
    first_chunk_is_found(slots, next, 0);
    let place = place_of(slots, next, 0)->0;
    assert(place == i) by {
        if place < i {
            assert(slots[place].chunk_id != slots[i].chunk_id);
        }
    }
    texts_keep_their_order(slots[i].results);
    exactly_the_due_leave(slots, next);
}

/// A chunk of which every segment is back leaves, when it is its turn, with all of
/// their texts.
pub proof fn whole_chunk_leaves<S>(slots: Seq<InFlight<S>>, next: u64, i: int)
    requires
        next + slots.len() <= u64::MAX,
        numbers_differ(slots),
        0 <= i < slots.len(),
        slots[i].chunk_id == next,
        slots[i].decode_segments == slots[i].results.len(),
        slots[i].done_count == slots[i].results.len(),
        forall|k: int|
            0 <= k < slots[i].results.len() ==> (#[trigger] slots[i].results[k]) is Some,
    ensures
        flushed_of(slots, next).len() > 0,
        flushed_of(slots, next)[0].0.flatten() == slots[i].results.map_values(
            |r: Option<Seq<u8>>| r->0,
        ).flatten(),
        flushed_of(slots, next)[0].1 == slots[i].slot,
        !kept_of(slots, next).contains(slots[i]),
{
    due_chunk_leaves(slots, next, i);
    texts_keep_their_order(slots[i].results);
    texts_are_whole(slots[i].results);
}

/// What has left are the texts and the buffer of the chunk in flight with the
/// number `id`, and as many of its results are back as segments were handed out.
pub open spec fn leaves_when_due<S>(
    slots: Seq<InFlight<S>>,
    id: int,
    left: (Seq<Seq<u8>>, S),
) -> bool {
    exists|i: int|
        {
            &&& 0 <= i < slots.len()
            &&& (#[trigger] slots[i]).chunk_id == id
            &&& slots[i].done_count >= slots[i].decode_segments
            &&& left == (texts_back(slots[i].results), slots[i].slot)
        }
}

/// Exactly the chunks leave whose turn it is. Those that leave have the numbers
/// from `next` on, and as many results back as segments were handed out. The
/// chunk with the number behind them is not in flight, or waits for results. All
/// others stay in flight as they are.
pub proof fn exactly_the_due_leave<S>(slots: Seq<InFlight<S>>, next: u64)
    requires
        next + slots.len() <= u64::MAX,
        numbers_differ(slots),
    ensures
        ({
            let left = flushed_of(slots, next);
            &&& forall|k: int|
                0 <= k < left.len() ==> leaves_when_due(slots, next + k, #[trigger] left[k])
            &&& forall|i: int|
                0 <= i < slots.len() && (#[trigger] slots[i]).chunk_id == next + left.len()
                    ==> slots[i].done_count < slots[i].decode_segments
            &&& forall|s: InFlight<S>| #[trigger]
                kept_of(slots, next).contains(s) <==> slots.contains(s) && !(next <= s.chunk_id
                    < next + left.len())
        }),
    decreases slots.len(),
{
    let left = flushed_of(slots, next);
    first_chunk_is_found(slots, next, 0);
    match place_of(slots, next, 0) {
        None => {},
        Some(place) => {
            if slots[place].done_count >= slots[place].decode_segments {
                let rest = slots.remove(place);
                let more = flushed_of(rest, (next + 1) as u64);
                lemma_numbers_differ(slots, place);
                exactly_the_due_leave(rest, (next + 1) as u64);
                texts_keep_their_order(slots[place].results);
                assert(left == seq![
                    (texts_to_write(slots[place].results), slots[place].slot),
                ] + more);
                assert forall|k: int| 0 <= k < left.len() implies leaves_when_due(
                    slots,
                    next + k,
                    #[trigger] left[k],
                ) by {
                    if k == 0 {
                        assert(slots[place].chunk_id == next + k);
                    } else {
                        assert(more[k - 1] == left[k]);
                        assert(leaves_when_due(rest, (next + 1) as u64 + (k - 1), more[k - 1]));
                        let j = choose|j: int|
                            {
                                &&& 0 <= j < rest.len()
                                &&& (#[trigger] rest[j]).chunk_id == next + k
                                &&& rest[j].done_count >= rest[j].decode_segments
                                &&& left[k] == (texts_back(rest[j].results), rest[j].slot)
                            };
                        let i = if j < place {
                            j
                        } else {
                            j + 1
                        };
                        assert(slots[i] == rest[j]);
                    }
                }
                assert forall|i: int|
                    0 <= i < slots.len() && (#[trigger] slots[i]).chunk_id == next
                        + left.len() implies slots[i].done_count < slots[i].decode_segments by {
                    let j = if i < place {
                        i
                    } else {
                        i - 1
                    };
                    assert(i != place);
                    assert(rest[j] == slots[i]);
                }
                assert forall|s: InFlight<S>| #[trigger]
                    kept_of(slots, next).contains(s) <==> slots.contains(s) && !(next <= s.chunk_id
                        < next + left.len()) by {
                    assert(kept_of(slots, next) == kept_of(rest, (next + 1) as u64));
                    assert(rest.contains(s) <==> slots.contains(s) && s.chunk_id != next);
                }
            } else {
                assert forall|i: int|
                    0 <= i < slots.len() && (#[trigger] slots[i]).chunk_id == next
                        + left.len() implies slots[i].done_count < slots[i].decode_segments by {
                    if i != place {
                        assert(slots[i].chunk_id != slots[place].chunk_id);
                    }
                }
            }
        },
    }
}

/// What contracts say of a chunk in flight is what it holds.
pub proof fn chunk_is_seen<S>(slots: Seq<InFlightSlot<S>>, i: int)
    requires
        0 <= i < slots.len(),
    ensures
        all_in_flight(slots).len() == slots.len(),
        ({
            let seen = all_in_flight(slots)[i];
            &&& seen.chunk_id == slots[i].chunk_id
            &&& seen.slot == slots[i].slot
            &&& seen.decode_segments == slots[i].decode_segments
            &&& seen.done_count == slots[i].done_count
            &&& seen.is_last == slots[i].is_last
            &&& seen.results.len() == slots[i].results@.len()
            &&& forall|k: int|
                0 <= k < seen.results.len() ==> match slots[i].results@[k] {
                    Some(text) => #[trigger] seen.results[k] == Some(text@),
                    None => seen.results[k] is None,
                }
        }),
{
}

/// What contracts say of a chunk that has left is what it holds.
pub proof fn left_chunk_is_seen<S>(flushed: Seq<FlushedSlot<S>>, i: int)
    requires
        0 <= i < flushed.len(),
    ensures
        all_flushed(flushed).len() == flushed.len(),
        all_flushed(flushed)[i].1 == flushed[i].slot,
        all_flushed(flushed)[i].0.len() == flushed[i].segments@.len(),
        forall|k: int|
            0 <= k < flushed[i].segments@.len() ==> #[trigger] all_flushed(flushed)[i].0[k]
                == flushed[i].segments@[k]@,
{
}

/// The results that are counted are those that are there.
pub proof fn results_are_counted(results: Seq<Option<Seq<u8>>>)
    ensures
        results_back(results) == results.filter(|r: Option<Seq<u8>>| r is Some).len(),
    decreases results.len(),
{
    reveal(Seq::filter);
    if results.len() > 0 {
        results_are_counted(results.drop_last());
    }
}

} // verus!
