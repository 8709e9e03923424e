//! What compression writes, and that decoding undoes it.
//!
//! Every stage of the decoder has the law that it undoes its stage of the
//! compression. Put together, a block gives the text back that was written into
//! it.
use vstd::arithmetic::div_mod::*;
use vstd::arithmetic::power2::*;
use vstd::prelude::*;

use crate::bits;
use crate::block_scan;
use crate::codes;
use crate::grammar;
use crate::grammar::{Coding, Parsed, Progress, GROUP_SIZE, MAX_BLOCKSIZE};
use crate::mtf;
use crate::rle;
use crate::rotations;
use crate::stream;
use crate::stream::Decoded;
use crate::writing;
use crate::writing::Head;
use crate::FINAL_MAGIC;

verus! {

/// The symbols that write the length of a run.
pub open spec fn run_digits(n: nat) -> Seq<int>
    decreases n,
{
    if n == 0 {
        Seq::empty()
    } else {
        seq![(n - 1) % 2] + run_digits(((n - 1) / 2) as nat)
    }
}

/// How far the body of a block has been read once the digits have.
pub open spec fn after_digits(before: Progress, digits: Seq<int>) -> Progress
    decreases digits.len(),
{
    if digits.len() == 0 {
        before
    } else {
        after_digits(before.with_digit(digits[0]), digits.drop_first())
    }
}

proof fn lemma_digits_add(before: Progress, n: nat)
    ensures
        ({
            let after = after_digits(before, run_digits(n));
            let weight = if before.run == 0 {
                1
            } else {
                before.weight
            };
            &&& after.run == before.run + weight * n
            &&& after.count == before.count + run_digits(n).len()
            &&& after.order == before.order
            &&& after.column == before.column
        }),
    decreases n,
{
    let weight = if before.run == 0 {
        1
    } else {
        before.weight
    };
    if n > 0 {
        let d = (n - 1) % 2;
        let q = ((n - 1) / 2) as nat;
        let next = before.with_digit(d);
        lemma_digits_add(next, q);
        assert(run_digits(n).drop_first() == run_digits(q));
        assert(run_digits(n)[0] == d);
        assert(n == d + 1 + 2 * q);
        if weight > 0 {
            assert(weight * (d + 1) as nat > 0) by (nonlinear_arith)
                requires
                    weight > 0,
                    d >= 0,
            ;
        }
        assert(weight * n == weight * (d + 1) as nat + (2 * weight) * q) by (nonlinear_arith)
            requires
                n == d + 1 + 2 * q,
                d >= 0,
        ;
    } else {
        assert(weight * n == 0) by (nonlinear_arith)
            requires
                n == 0,
        ;
    }
}

/// Reading the symbols that write the length of a run gives the length.
pub proof fn digits_give_run(before: Progress, n: nat)
    requires
        before.run == 0,
    ensures
        ({
            let after = after_digits(before, run_digits(n));
            &&& after.run == n
            &&& after.count == before.count + run_digits(n).len()
            &&& after.order == before.order
            &&& after.column == before.column
        }),
{
    lemma_digits_add(before, n);
    assert(1 * n == n);
}

/// What digits are worth: symbol 0 counts the weight of its place once, symbol 1
/// twice, and each place weighs twice as much as the one before.
pub open spec fn digits_value(digits: Seq<int>) -> int
    decreases digits.len(),
{
    if digits.len() == 0 {
        0
    } else {
        digits[0] + 1 + 2 * digits_value(digits.drop_first())
    }
}

/// The digits of a number are zeros and ones, and are worth the number.
pub proof fn digits_are_worth(n: nat)
    ensures
        digits_value(run_digits(n)) == n,
        forall|i: int|
            0 <= i < run_digits(n).len() ==> run_digits(n)[i] == 0 || run_digits(n)[i] == 1,
    decreases n,
{
    lemma_run_digits(n);
    if n > 0 {
        digits_are_worth(((n - 1) / 2) as nat);
        assert(run_digits(n).drop_first() == run_digits(((n - 1) / 2) as nat));
    }
}

/// The symbols that write a column, of which `run` bytes that stand at the front
/// of the list `order` are still to be written: each byte as its place in the
/// list, from which it moves to the front, and those at the front as the length
/// of their run. The symbol `end` stands behind the last.
pub open spec fn symbols_of(order: Seq<u8>, column: Seq<u8>, run: nat, end: int) -> Seq<int>
    decreases column.len(),
{
    if column.len() == 0 {
        run_digits(run) + seq![end]
    } else if column[0] == order[0] {
        symbols_of(order, column.drop_first(), run + 1, end)
    } else {
        let i = order.index_of(column[0]);
        run_digits(run) + (seq![i + 1] + symbols_of(
            mtf::move_to_front(order, i),
            column.drop_first(),
            0,
            end,
        ))
    }
}

/// The words of the symbols stand in the bits from `pos` to `end`, in the codes
/// that their groups choose. `count` symbols stand in front of them.
pub open spec fn words_at(
    all: Seq<bool>,
    pos: int,
    coding: Coding,
    count: nat,
    symbols: Seq<int>,
    end: int,
) -> bool
    decreases symbols.len(),
{
    if symbols.len() == 0 {
        pos == end
    } else {
        let group = (count / GROUP_SIZE as nat) as int;
        let lengths = coding.codes[coding.selectors[group] as int];
        &&& group < coding.selectors.len()
        &&& codes::code_fits(lengths)
        &&& codes::word_at(lengths, symbols[0], all, pos)
        &&& words_at(
            all,
            pos + lengths[symbols[0]],
            coding,
            count + 1,
            symbols.drop_first(),
            end,
        )
    }
}

pub proof fn lemma_run_grows(before: Progress, digits: Seq<int>)
    requires
        forall|i: int| 0 <= i < digits.len() ==> 0 <= #[trigger] digits[i] < 2,
    ensures
        before.run <= after_digits(before, digits).run,
    decreases digits.len(),
{
    if digits.len() > 0 {
        lemma_run_grows(before.with_digit(digits[0]), digits.drop_first());
    }
}

pub proof fn lemma_run_digits(n: nat)
    ensures
        forall|i: int| 0 <= i < run_digits(n).len() ==> 0 <= #[trigger] run_digits(n)[i] < 2,
    decreases n,
{
    if n > 0 {
        let rest = run_digits(((n - 1) / 2) as nat);
        lemma_run_digits(((n - 1) / 2) as nat);
        assert forall|i: int| 0 <= i < run_digits(n).len() implies 0 <= #[trigger] run_digits(n)[i]
            < 2 by {
            if i > 0 {
                assert(run_digits(n)[i] == rest[i - 1]);
            }
        }
    }
}

/// The digits at the front of the symbols are read.
pub proof fn lemma_digits_read(
    all: Seq<bool>,
    pos: int,
    coding: Coding,
    before: Progress,
    digits: Seq<int>,
    rest: Seq<int>,
    end: int,
) -> (behind: int)
    requires
        words_at(all, pos, coding, before.count, digits + rest, end),
        forall|i: int| 0 <= i < digits.len() ==> 0 <= #[trigger] digits[i] < 2,
        after_digits(before, digits).run <= MAX_BLOCKSIZE,
    ensures
        words_at(all, behind, coding, after_digits(before, digits).count, rest, end),
        grammar::column_at(all, pos, coding, before) == grammar::column_at(
            all,
            behind,
            coding,
            after_digits(before, digits),
        ),
    decreases digits.len(),
{
    if digits.len() == 0 {
        assert(digits + rest == rest);
        pos
    } else {
        let d = digits[0];
        let group = (before.count / GROUP_SIZE as nat) as int;
        let lengths = coding.codes[coding.selectors[group] as int];
        assert((digits + rest)[0] == d);
        assert((digits + rest).drop_first() == digits.drop_first() + rest);
        codes::decoding_undoes_coding(lengths, d, all, pos);
        lemma_run_grows(before.with_digit(d), digits.drop_first());
        lemma_digits_read(
            all,
            pos + lengths[d],
            coding,
            before.with_digit(d),
            digits.drop_first(),
            rest,
            end,
        )
    }
}

/// No run of bytes at the front of the list is longer than 900,000: those that are
/// still to be written are `run` and then the column.
pub open spec fn runs_countable(order: Seq<u8>, column: Seq<u8>, run: nat) -> bool
    decreases column.len(),
{
    if column.len() == 0 {
        run <= 900_000
    } else if column[0] == order[0] {
        runs_countable(order, column.drop_first(), run + 1)
    } else {
        run <= 900_000 && runs_countable(
            mtf::move_to_front(order, order.index_of(column[0])),
            column.drop_first(),
            0,
        )
    }
}

/// In a column of up to 900,000 bytes no run is longer.
pub proof fn short_column_is_countable(order: Seq<u8>, column: Seq<u8>, run: nat)
    requires
        run + column.len() <= 900_000,
    ensures
        runs_countable(order, column, run),
    decreases column.len(),
{
    if column.len() > 0 {
        let rest = column.drop_first();
        if column[0] == order[0] {
            short_column_is_countable(order, rest, run + 1);
        } else {
            short_column_is_countable(
                mtf::move_to_front(order, order.index_of(column[0])),
                rest,
                0,
            );
        }
    }
}

/// Reading the symbols that write a column gives the column.
pub proof fn lemma_column_read(
    all: Seq<bool>,
    pos: int,
    coding: Coding,
    before: Progress,
    run: nat,
    column: Seq<u8>,
    end: int,
)
    requires
        before.run == 0,
        before.order.len() > 0,
        coding.end == before.order.len() + 1,
        forall|i: int| 0 <= i < column.len() ==> before.order.contains(#[trigger] column[i]),
        before.column.len() + run + column.len() <= coding.max,
        runs_countable(before.order, column, run),
        words_at(
            all,
            pos,
            coding,
            before.count,
            symbols_of(before.order, column, run, coding.end as int),
            end,
        ),
    ensures
        grammar::column_at(all, pos, coding, before) == Parsed::Done(
            before.column + rle::run_of(before.order[0], run) + column,
            end,
        ),
    decreases column.len(),
{
    let order = before.order;
    let last = coding.end as int;
    let digits = run_digits(run);
    let after = after_digits(before, digits);
    digits_give_run(before, run);
    lemma_run_digits(run);
    if column.len() == 0 {
        let behind = lemma_digits_read(all, pos, coding, before, digits, seq![last], end);
        let group = (after.count / GROUP_SIZE as nat) as int;
        let lengths = coding.codes[coding.selectors[group] as int];
        codes::decoding_undoes_coding(lengths, last, all, behind);
        assert(seq![last].drop_first() == Seq::<int>::empty());
        assert(words_at(
            all,
            behind + lengths[last],
            coding,
            after.count + 1,
            Seq::empty(),
            end,
        ));
        assert(after.flushed() == before.column + rle::run_of(order[0], run) + column);
    } else if column[0] == order[0] {
        let rest = column.drop_first();
        assert forall|i: int| 0 <= i < rest.len() implies order.contains(#[trigger] rest[i]) by {
            assert(rest[i] == column[i + 1]);
        }
        lemma_column_read(all, pos, coding, before, run + 1, rest, end);
        assert(before.column + rle::run_of(order[0], run + 1) + rest == before.column + rle::run_of(
            order[0],
            run,
        ) + column);
    } else {
        let rest = column.drop_first();
        assert(order.contains(column[0]));
        let i = order.index_of(column[0]);
        assert(0 <= i < order.len() && order[i] == column[0]);
        let sym = i + 1;
        let moved = mtf::move_to_front(order, i);
        let more = symbols_of(moved, rest, 0, last);
        let behind = lemma_digits_read(all, pos, coding, before, digits, seq![sym] + more, end);
        let group = (after.count / GROUP_SIZE as nat) as int;
        let lengths = coding.codes[coding.selectors[group] as int];
        assert((seq![sym] + more)[0] == sym);
        assert((seq![sym] + more).drop_first() == more);
        codes::decoding_undoes_coding(lengths, sym, all, behind);
        let next = after.with_byte(i);
        assert(after.flushed().len() == before.column.len() + run);
        mtf::move_to_front_keeps_symbols(order, i);
        assert forall|k: int| 0 <= k < rest.len() implies moved.contains(#[trigger] rest[k]) by {
            assert(rest[k] == column[k + 1]);
            mtf::lemma_still_there(order, moved, rest[k]);
        }
        lemma_column_read(all, behind + lengths[sym], coding, next, 0, rest, end);
        assert(next.column + rle::run_of(moved[0], 0) + rest == before.column + rle::run_of(
            order[0],
            run,
        ) + column);
    }
}

/// The runs of a text, each as long as one can be.
pub open spec fn runs_of(text: Seq<u8>) -> Seq<(u8, nat)>
    decreases text.len(),
{
    if text.len() == 0 {
        Seq::empty()
    } else {
        let before = runs_of(text.drop_last());
        if before.len() > 0 && before.last().0 == text.last() && before.last().1 < 259 {
            before.update(before.len() - 1, (text.last(), before.last().1 + 1))
        } else {
            before.push((text.last(), 1))
        }
    }
}

/// Every text can be written as runs.
pub proof fn runs_give_text(text: Seq<u8>)
    ensures
        rle::runs_valid(runs_of(text)),
        rle::text_of_runs(runs_of(text)) == text,
    decreases text.len(),
{
    if text.len() == 0 {
        assert(rle::text_of_runs(runs_of(text)) == text);
    } else {
        let init = text.drop_last();
        let b = text.last();
        let before = runs_of(init);
        let after = runs_of(text);
        runs_give_text(init);
        assert(init.push(b) == text);
        if before.len() > 0 && before.last().0 == b && before.last().1 < 259 {
            let n = before.last().1;
            assert(after.drop_last() == before.drop_last());
            assert(rle::run_of(b, n + 1) == rle::run_of(b, n).push(b));
            let front = rle::text_of_runs(before.drop_last());
            assert(front + rle::run_of(b, n).push(b) == (front + rle::run_of(b, n)).push(b));
            assert forall|i: int| 0 <= i < after.len() implies 1 <= (#[trigger] after[i]).1
                <= 259 by {
                assert(1 <= before[i].1 <= 259);
            }
            assert forall|i: int|
                #![trigger after[i]]
                1 <= i < after.len() && after[i - 1].1 < 4 implies after[i - 1].0 != after[i].0 by {
                assert(before[i].0 == after[i].0);
                assert(before[i - 1] == after[i - 1]);
            }
        } else {
            assert(after.drop_last() == before);
            assert(rle::run_of(b, 1) == seq![b]);
            assert(init + seq![b] == init.push(b));
            assert forall|i: int| 0 <= i < after.len() implies 1 <= (#[trigger] after[i]).1
                <= 259 by {
                if i < before.len() {
                    assert(1 <= before[i].1 <= 259);
                }
            }
            assert forall|i: int|
                #![trigger after[i]]
                1 <= i < after.len() && after[i - 1].1 < 4 implies after[i - 1].0 != after[i].0 by {
                if i < before.len() {
                    assert(before[i].0 == after[i].0);
                }
            }
        }
    }
}

/// The block at `pos` was written from a text that is cut into `runs`: the runs
/// were shortened, the rotations of the result were sorted into `rows`, and the
/// last column of their table is what the words behind the head stand for, up to
/// `end`.
pub open spec fn written_from_runs(
    all: Seq<bool>,
    pos: int,
    max: nat,
    runs: Seq<(u8, nat)>,
    rows: Seq<int>,
    end: int,
) -> bool {
    let short = rle::short_runs(runs);
    let column = rotations::last_column(short, rows);
    &&& rle::runs_valid(runs)
    &&& rotations::sorted_rotations(short, rows)
    &&& short.len() <= max
    &&& short.len() <= 0x100_0000
    &&& grammar::head_at(all, pos, max) matches Some((start, bytes, coding, behind)) && {
        &&& start < rows.len()
        &&& rows[start as int] == 0
        &&& forall|i: int| 0 <= i < column.len() ==> bytes.contains(#[trigger] column[i])
        &&& runs_countable(bytes, column, 0)
        &&& words_at(
            all,
            behind,
            coding,
            0,
            symbols_of(bytes, column, 0, coding.end as int),
            end,
        )
    }
}

/// The block at `pos` was written from a text whose runs are as long as they can
/// be.
pub open spec fn written_from(
    all: Seq<bool>,
    pos: int,
    max: nat,
    text: Seq<u8>,
    rows: Seq<int>,
    end: int,
) -> bool {
    written_from_runs(all, pos, max, runs_of(text), rows, end)
}

/// Decoding undoes compression: a block that was written from a text gives the
/// text back, and ends where the words of the block do. This holds however the
/// text was cut into runs.
pub proof fn decoding_undoes_encoding(
    all: Seq<bool>,
    pos: int,
    max: nat,
    runs: Seq<(u8, nat)>,
    rows: Seq<int>,
    end: int,
)
    requires
        written_from_runs(all, pos, max, runs, rows, end),
    ensures
        grammar::block_at(all, pos, max) == Parsed::Done(rle::text_of_runs(runs), end),
{
    let short = rle::short_runs(runs);
    let column = rotations::last_column(short, rows);
    let (start, bytes, coding, behind) = grammar::head_at(all, pos, max)->0;
    assert(bytes.contains(column[start as int]));
    lemma_column_read(all, behind, coding, Progress::start(bytes), 0, column, end);
    assert(Seq::<u8>::empty() + rle::run_of(bytes[0], 0) + column == column);
    rotations::transform_is_undone(short, rows, start as int);
    rle::unrun_undoes_shortening(runs);
}

/// A block that was written from a text whose runs are as long as they can be
/// gives the text back.
pub proof fn decoding_undoes_compression(
    all: Seq<bool>,
    pos: int,
    max: nat,
    text: Seq<u8>,
    rows: Seq<int>,
    end: int,
)
    requires
        written_from(all, pos, max, text, rows, end),
    ensures
        grammar::block_at(all, pos, max) == Parsed::Done(text, end),
{
    runs_give_text(text);
    decoding_undoes_encoding(all, pos, max, runs_of(text), rows, end);
}

/// From bit `pos` on stand blocks that were written from the texts, each cut into
/// runs in some way, and then the number that ends a stream.
pub open spec fn blocks_written(
    all: Seq<bool>,
    pos: int,
    max: nat,
    texts: Seq<Seq<u8>>,
) -> bool
    decreases texts.len(),
{
    if texts.len() == 0 {
        pos + 48 <= all.len() && bits::bits_value(all, pos, 48) == FINAL_MAGIC
    } else {
        block_scan::magic_at(all, pos) && exists|runs: Seq<(u8, nat)>, rows: Seq<int>, end: int|
            {
                &&& #[trigger] written_from_runs(all, pos + 48, max, runs, rows, end)
                &&& rle::text_of_runs(runs) == texts[0]
                &&& blocks_written(all, end, max, texts.drop_first())
            }
    }
}

proof fn lemma_blocks_read(
    all: Seq<bool>,
    pos: int,
    max: nat,
    texts: Seq<Seq<u8>>,
    before: Seq<u8>,
)
    requires
        blocks_written(all, pos, max, texts),
    ensures
        stream::blocks_at(all, pos, max, before) == Decoded::Text(before + texts.flatten()),
    decreases texts.len(),
{
    if texts.len() == 0 {
        assert(before + texts.flatten() == before);
    } else {
        let rest = texts.drop_first();
        let (runs, rows, end) = choose|runs: Seq<(u8, nat)>, rows: Seq<int>, end: int|
            {
                &&& #[trigger] written_from_runs(all, pos + 48, max, runs, rows, end)
                &&& rle::text_of_runs(runs) == texts[0]
                &&& blocks_written(all, end, max, rest)
            };
        decoding_undoes_encoding(all, pos + 48, max, runs, rows, end);
        lemma_blocks_read(all, end, max, rest, before + texts[0]);
        assert(before + texts[0] + rest.flatten() == before + (texts[0] + rest.flatten()));
    }
}

/// A stream whose blocks were written from the parts of a text gives the text
/// back, however the parts were cut into runs.
pub proof fn stream_undoes_compression(data: Seq<u8>, parts: Seq<Seq<u8>>)
    requires
        stream::head_error(data) is None,
        blocks_written(bits::bits_of(data), 32, stream::head_blocksize(data), parts),
    ensures
        stream::stream_text(data) == Decoded::Text(parts.flatten()),
{
    lemma_blocks_read(
        bits::bits_of(data),
        32,
        stream::head_blocksize(data),
        parts,
        Seq::empty(),
    );
    assert(Seq::<u8>::empty() + parts.flatten() == parts.flatten());
}

// Blocks and streams, bit by bit.

/// The words of the symbols, in the codes that their groups of fifty choose.
/// `count` symbols stand in front of them.
pub open spec fn word_bits(head: Head, count: nat, symbols: Seq<int>) -> Seq<bool>
    decreases symbols.len(),
{
    if symbols.len() == 0 {
        Seq::empty()
    } else {
        let lengths = head.codes[head.selectors[(count / 50) as int] as int];
        writing::number_bits(
            codes::word(lengths, symbols[0]),
            lengths[symbols[0]] as nat,
        ) + word_bits(head, count + 1, symbols.drop_first())
    }
}

/// There are groups enough for the symbols, and each is one of the code.
pub open spec fn symbols_coded(head: Head, count: nat, symbols: Seq<int>) -> bool {
    &&& count + symbols.len() <= 50 * head.selectors.len()
    &&& forall|i: int|
        0 <= i < symbols.len() ==> 0 <= #[trigger] symbols[i] < head.bytes.len() + 2
}

/// In each code that one of the first `n` symbols is written in there is room for
/// every word: the sum over all of them of `2^-length` is at most 1.
pub open spec fn all_room(head: Head, n: nat) -> bool {
    forall|g: int|
        0 <= g < head.selectors.len() && 50 * g < n ==> codes::kraft(
            head.codes[#[trigger] head.selectors[g] as int],
            20,
        )
}

pub proof fn lemma_words_stand(
    all: Seq<bool>,
    pos: int,
    max: nat,
    head: Head,
    count: nat,
    symbols: Seq<int>,
)
    requires
        head.valid(),
        all_room(head, count + symbols.len()),
        symbols_coded(head, count, symbols),
        writing::stands_at(all, pos, word_bits(head, count, symbols)),
    ensures
        words_at(
            all,
            pos,
            head.coding(max),
            count,
            symbols,
            pos + word_bits(head, count, symbols).len(),
        ),
    decreases symbols.len(),
{
    if symbols.len() > 0 {
        let group = (count / 50) as int;
        assert(head.selectors[group] < head.codes.len());
        let lengths = head.codes[head.selectors[group] as int];
        assert(writing::code_valid(
            head.firsts[head.selectors[group] as int],
            lengths,
            head.bytes.len() + 2,
        ));
        codes::kraft_gives_room(lengths, 20);
        assert(0 <= symbols[0] < lengths.len());
        let word = codes::word(lengths, symbols[0]);
        let n = lengths[symbols[0]] as nat;
        let rest = symbols.drop_first();
        let written = writing::number_bits(word, n);
        lemma_pow2_pos(n);
        lemma_mod_bound(codes::code(lengths, symbols[0]) as int, pow2(n) as int);
        writing::lemma_number_len(word, n);
        writing::lemma_stands_apart(all, pos, written, word_bits(head, count + 1, rest));
        writing::number_is_read_back(all, pos, word, n);
        assert forall|i: int| 0 <= i < rest.len() implies 0 <= #[trigger] rest[i]
            < head.bytes.len() + 2 by {
            assert(rest[i] == symbols[i + 1]);
        }
        lemma_words_stand(all, pos + n, max, head, count + 1, rest);
    }
}

/// The symbols of a column are symbols of its code.
pub proof fn lemma_symbols_in_code(order: Seq<u8>, column: Seq<u8>, run: nat, end: int)
    requires
        order.len() > 0,
        end == order.len() + 1,
        forall|i: int| 0 <= i < column.len() ==> order.contains(#[trigger] column[i]),
    ensures
        forall|i: int|
            0 <= i < symbols_of(order, column, run, end).len() ==> 0 <= #[trigger] symbols_of(
                order,
                column,
                run,
                end,
            )[i] <= end,
    decreases column.len(),
{
    let symbols = symbols_of(order, column, run, end);
    let digits = run_digits(run);
    lemma_run_digits(run);
    if column.len() == 0 {
        assert forall|i: int| 0 <= i < symbols.len() implies 0 <= #[trigger] symbols[i] <= end by {
            if i < digits.len() {
                assert(symbols[i] == digits[i]);
            }
        }
    } else {
        let rest = column.drop_first();
        assert forall|i: int| 0 <= i < rest.len() implies order.contains(#[trigger] rest[i]) by {
            assert(rest[i] == column[i + 1]);
        }
        if column[0] == order[0] {
            lemma_symbols_in_code(order, rest, run + 1, end);
            assert(symbols == symbols_of(order, rest, run + 1, end));
        } else {
            assert(order.contains(column[0]));
            let k = order.index_of(column[0]);
            let moved = mtf::move_to_front(order, k);
            mtf::move_to_front_keeps_symbols(order, k);
            assert forall|i: int| 0 <= i < rest.len() implies moved.contains(
                #[trigger] rest[i],
            ) by {
                mtf::lemma_still_there(order, moved, rest[i]);
            }
            lemma_symbols_in_code(moved, rest, 0, end);
            let more = symbols_of(moved, rest, 0, end);
            assert(symbols == digits + (seq![k + 1] + more));
            assert forall|i: int| 0 <= i < symbols.len() implies 0 <= #[trigger] symbols[i]
                <= end by {
                if i < digits.len() {
                    assert(symbols[i] == digits[i]);
                } else if i == digits.len() {
                    assert(symbols[i] == k + 1);
                } else {
                    assert(symbols[i] == more[i - digits.len() - 1]);
                }
            }
        }
    }
}

/// What a block is written from: its head, the runs that its text is cut into, and
/// the sorted rotations of the shortened runs.
pub struct Block {
    pub head: Head,
    pub runs: Seq<(u8, nat)>,
    pub rows: Seq<int>,
}

impl Block {
    /// The text of the block.
    pub open spec fn text(self) -> Seq<u8> {
        rle::text_of_runs(self.runs)
    }

    /// The column that the block holds.
    pub open spec fn column(self) -> Seq<u8> {
        rotations::last_column(rle::short_runs(self.runs), self.rows)
    }

    /// The symbols that the block holds.
    pub open spec fn symbols(self) -> Seq<int> {
        symbols_of(self.head.bytes, self.column(), 0, self.head.bytes.len() as int + 1)
    }

    /// The block can be written, with at most `max` bytes: its parts belong
    /// together.
    pub open spec fn valid(self, max: nat) -> bool {
        let short = rle::short_runs(self.runs);
        &&& self.head.valid()
        &&& all_room(self.head, self.symbols().len())
        &&& rle::runs_valid(self.runs)
        &&& short.len() <= max
        &&& short.len() <= 0x100_0000
        &&& runs_countable(self.head.bytes, self.column(), 0)
        &&& rotations::sorted_rotations(short, self.rows)
        &&& self.head.start < self.rows.len()
        &&& self.rows[self.head.start as int] == 0
        &&& forall|i: int|
            0 <= i < self.column().len() ==> self.head.bytes.contains(
                #[trigger] self.column()[i],
            )
        &&& self.symbols().len() <= 50 * self.head.selectors.len()
    }

    /// The block as a compressor puts it down: the head, and the words of its
    /// symbols.
    pub open spec fn bits(self) -> Seq<bool> {
        self.head.bits() + word_bits(self.head, 0, self.symbols())
    }
}

proof fn lemma_block_stands(all: Seq<bool>, pos: int, max: nat, block: Block)
    requires
        block.valid(max),
        writing::stands_at(all, pos, block.bits()),
    ensures
        written_from_runs(all, pos, max, block.runs, block.rows, pos + block.bits().len()),
{
    let head = block.head;
    let words = word_bits(head, 0, block.symbols());
    writing::lemma_stands_apart(all, pos, head.bits(), words);
    writing::head_is_read_back(all, pos, max, head);
    lemma_symbols_in_code(head.bytes, block.column(), 0, head.bytes.len() as int + 1);
    lemma_words_stand(all, pos + head.bits().len(), max, head, 0, block.symbols());
    assert forall|i: int| 0 <= i < block.column().len() implies head.bytes.contains(
        #[trigger] block.column()[i],
    ) by {}
}

/// A block that stands as a compressor puts it down gives its text back, and ends
/// where it does.
pub proof fn block_is_read_back(all: Seq<bool>, pos: int, max: nat, block: Block)
    requires
        block.valid(max),
        writing::stands_at(all, pos, block.bits()),
    ensures
        grammar::block_at(all, pos, max) == Parsed::Done(
            block.text(),
            pos + block.bits().len(),
        ),
{
    lemma_block_stands(all, pos, max, block);
    decoding_undoes_encoding(all, pos, max, block.runs, block.rows, pos + block.bits().len());
}

/// The blocks of a stream, each behind the number that marks it, and the number
/// that ends the stream.
pub open spec fn stream_bits(blocks: Seq<Block>) -> Seq<bool>
    decreases blocks.len(),
{
    if blocks.len() == 0 {
        writing::number_bits(0x177245385090, 48)
    } else {
        writing::number_bits(0x314159265359, 48) + (blocks[0].bits() + stream_bits(
            blocks.drop_first(),
        ))
    }
}

/// The texts of the blocks.
pub open spec fn texts_of(blocks: Seq<Block>) -> Seq<Seq<u8>> {
    blocks.map_values(|b: Block| b.text())
}

proof fn lemma_blocks_stand(all: Seq<bool>, pos: int, max: nat, blocks: Seq<Block>)
    requires
        forall|i: int| 0 <= i < blocks.len() ==> (#[trigger] blocks[i]).valid(max),
        writing::stands_at(all, pos, stream_bits(blocks)),
    ensures
        blocks_written(all, pos, max, texts_of(blocks)),
    decreases blocks.len(),
{
    lemma2_to64();
    lemma2_to64_rest();
    let texts = texts_of(blocks);
    if blocks.len() == 0 {
        writing::number_is_read_back(all, pos, 0x177245385090, 48);
    } else {
        let block = blocks[0];
        let rest = blocks.drop_first();
        let magic = writing::number_bits(0x314159265359, 48);
        writing::lemma_number_len(0x314159265359, 48);
        writing::lemma_stands_apart(all, pos, magic, block.bits() + stream_bits(rest));
        writing::lemma_stands_apart(all, pos + 48, block.bits(), stream_bits(rest));
        writing::number_is_read_back(all, pos, 0x314159265359, 48);
        assert(blocks[0].valid(max));
        lemma_block_stands(all, pos + 48, max, block);
        let end = pos + 48 + block.bits().len();
        assert forall|i: int| 0 <= i < rest.len() implies (#[trigger] rest[i]).valid(max) by {
            assert(rest[i] == blocks[i + 1]);
        }
        lemma_blocks_stand(all, end, max, rest);
        assert(texts.drop_first() == texts_of(rest));
        assert(texts[0] == block.text());
        assert(written_from_runs(all, pos + 48, max, block.runs, block.rows, end));
    }
}

/// Blocks that stand as a compressor puts them down are read up to the number that
/// ends the stream.
pub proof fn blocks_are_read_back(all: Seq<bool>, pos: int, max: nat, blocks: Seq<Block>)
    requires
        forall|i: int| 0 <= i < blocks.len() ==> (#[trigger] blocks[i]).valid(max),
        writing::stands_at(all, pos, stream_bits(blocks)),
    ensures
        stream::blocks_at(all, pos, max, Seq::empty()) == Decoded::Text(
            texts_of(blocks).flatten(),
        ),
{
    lemma_blocks_stand(all, pos, max, blocks);
    lemma_blocks_read(all, pos, max, texts_of(blocks), Seq::empty());
    let text = texts_of(blocks).flatten();
    assert(Seq::<u8>::empty() + text == text);
}

/// The four bytes with which a stream of level `d` begins: `B`, `Z`, `h` and the
/// digit.
pub open spec fn head_bytes(d: nat) -> Seq<u8> {
    seq![0x42, 0x5a, 0x68, (0x30 + d) as u8]
}

/// The data begins with a stream of level `d`, as a compressor puts it down: the
/// four bytes of its head, the blocks, none of which has more than `100,000 * d`
/// bytes, and the number that ends the stream.
pub open spec fn stream_written(data: Seq<u8>, d: nat, blocks: Seq<Block>) -> bool {
    &&& 1 <= d <= 9
    &&& data.len() >= 4
    &&& data.take(4) == head_bytes(d)
    &&& forall|i: int| 0 <= i < blocks.len() ==> (#[trigger] blocks[i]).valid(100_000 * d)
    &&& writing::stands_at(bits::bits_of(data), 32, stream_bits(blocks))
}

/// The head of a stream of any level is accepted, and allows blocks of 100,000
/// bytes for each step of the level.
pub proof fn head_is_accepted(data: Seq<u8>, d: nat)
    requires
        1 <= d <= 9,
        data.len() >= 4,
        data.take(4) == head_bytes(d),
    ensures
        stream::head_error(data) is None,
        stream::head_blocksize(data) == 100_000 * d,
{
    let head = data.take(4);
    assert(data[0] == head[0] && data[1] == head[1] && data[2] == head[2] && data[3] == head[3]);
}

/// A stream that stands as a compressor puts it down gives the texts of its blocks
/// back, one behind the other.
pub proof fn stream_is_read_back(data: Seq<u8>, d: nat, blocks: Seq<Block>)
    requires
        stream_written(data, d, blocks),
    ensures
        stream::stream_text(data) == Decoded::Text(texts_of(blocks).flatten()),
{
    head_is_accepted(data, d);
    lemma_blocks_stand(bits::bits_of(data), 32, 100_000 * d, blocks);
    stream_undoes_compression(data, texts_of(blocks));
}

} // verus!
