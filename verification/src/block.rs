//! The decoder for one block.
use vstd::prelude::*;
use vstd::string::*;

use crate::bitreader::BitReader;
use crate::bits;
use crate::bwt;
use crate::codes;
use crate::grammar;
use crate::grammar::{GROUP_SIZE, MAX_BLOCKSIZE};
use crate::huffman::HuffmanTree;
use crate::mtf;
use crate::mtf::MtfDecoder;
use crate::rle;
use crate::rle::RunState;

verus! {

/// Why a stream or a block cannot be decoded.
#[derive(Debug)]
pub struct BlockError(pub &'static str);

impl BlockError {
    /// The error as a line to show.
    pub fn message(&self) -> (r: String)
        ensures
            r@ == "bzip2 block error: "@ + self.0@,
    {
        let mut line: String = "bzip2 block error: ".to_owned();
        line.append(self.0);
        line
    }
}

/// What was read is what `parsed` says, with the position behind it, and so is
/// the failure.
pub open spec fn agrees<T>(
    parsed: grammar::Parsed<T>,
    holds: spec_fn(T) -> bool,
    error: Option<Seq<char>>,
    pos: nat,
) -> bool {
    match parsed {
        grammar::Parsed::Done(value, next) => error is None && holds(value) && pos == next,
        grammar::Parsed::Fail(why, at) => error == Some(why) && pos == at,
    }
}

/// The reason for a failure.
pub open spec fn reason<T>(r: Result<T, BlockError>) -> Option<Seq<char>> {
    match r {
        Ok(_) => None,
        Err(e) => Some(e.0@),
    }
}

/// Reads the head of a block up to the row of its text.
fn read_start(reader: &mut BitReader<'_>) -> (r: Result<u32, BlockError>)
    ensures
        final(reader).bits() == old(reader).bits(),
        agrees(
            grammar::start_at(old(reader).bits(), old(reader).pos() as int),
            |v: nat| r->Ok_0 == v,
            reason(r),
            final(reader).pos(),
        ),
{
    match reader.read_u32(32) {
        Some(_) => {},
        None => {
            return Err(BlockError("block CRC truncated"));
        },
    }
    match reader.read_bit() {
        Some(randomised) => if randomised {
            return Err(BlockError("randomised blocks not supported"));
        },
        None => {
            return Err(BlockError("randomised flag truncated"));
        },
    }
    match reader.read_u32(24) {
        Some(v) => Ok(v),
        None => Err(BlockError("orig_ptr truncated")),
    }
}

/// A range without a map adds no byte.
proof fn lemma_absent_range(all: Seq<bool>, pos: int, r: nat, k: nat)
    requires
        !all[pos + r],
        k <= 16,
    ensures
        grammar::bytes_below(all, pos, 16 * r + k) == grammar::bytes_below(all, pos, 16 * r),
    decreases k,
{
    if k > 0 {
        lemma_absent_range(all, pos, r, (k - 1) as nat);
        assert((16 * r + k - 1) / 16 == r);
    }
}

proof fn lemma_bytes_below_len(all: Seq<bool>, pos: int, n: nat)
    ensures
        grammar::bytes_below(all, pos, n).len() <= n,
    decreases n,
{
    if n > 0 {
        lemma_bytes_below_len(all, pos, (n - 1) as nat);
    }
}

/// Reads which byte values occur in the block.
fn read_bytes(reader: &mut BitReader<'_>) -> (r: Result<Vec<u8>, BlockError>)
    ensures
        final(reader).bits() == old(reader).bits(),
        agrees(
            grammar::bytes_at(old(reader).bits(), old(reader).pos() as int),
            |v: Seq<u8>| r->Ok_0@ == v,
            reason(r),
            final(reader).pos(),
        ),
        r matches Ok(v) ==> 1 <= v@.len() <= 256,
{
    let ghost all = reader.bits();
    let ghost pos = reader.pos() as int;
    let mut ranges: [bool; 16] = [false; 16];
    let mut i: usize = 0;
    while i < 16
        invariant
            i <= 16,
            all == old(reader).bits(),
            pos == old(reader).pos(),
            reader.bits() == all,
            reader.pos() == pos + i,
            i > 0 ==> reader.pos() <= all.len(),
            forall|j: int| 0 <= j < i ==> ranges@[j] == all[pos + j],
        decreases 16 - i,
    {
        match reader.read_bit() {
            Some(present) => {
                ranges[i] = present;
            },
            None => {
                return Err(BlockError("symbol range truncated"));
            },
        }
        i = i + 1;
    }
    let mut bytes: Vec<u8> = Vec::new();
    let mut range: usize = 0;
    while range < 16
        invariant
            range <= 16,
            all == old(reader).bits(),
            pos == old(reader).pos(),
            pos + 16 <= all.len(),
            reader.bits() == all,
            reader.pos() == pos + 16 + 16 * grammar::ranges_before(all, pos, range as nat),
            reader.pos() <= all.len(),
            forall|j: int| 0 <= j < 16 ==> ranges@[j] == all[pos + j],
            bytes@ == grammar::bytes_below(all, pos, (16 * range) as nat),
        decreases 16 - range,
    {
        if ranges[range] {
            let mut sub: u8 = 0;
            while sub < 16
                invariant
                    sub <= 16,
                    range < 16,
                    all == old(reader).bits(),
                    pos == old(reader).pos(),
                    pos + 16 <= all.len(),
                    all[pos + range],
                    reader.bits() == all,
                    reader.pos() == pos + 16 + 16 * grammar::ranges_before(all, pos, range as nat)
                        + sub,
                    reader.pos() <= all.len(),
                    bytes@ == grammar::bytes_below(all, pos, (16 * range + sub) as nat),
                decreases 16 - sub,
            {
                let ghost b = 16 * range + sub;
                assert(b / 16 == range && b % 16 == sub);
                match reader.read_bit() {
                    Some(occurs) => {
                        if occurs {
                            bytes.push(range as u8 * 16 + sub);
                        }
                    },
                    None => {
                        proof {
                            grammar::lemma_ranges_grow(all, pos, range as nat, 16);
                        }
                        return Err(BlockError("symbol bitmap truncated"));
                    },
                }
                sub = sub + 1;
            }
        } else {
            proof {
                lemma_absent_range(all, pos, range as nat, 16);
            }
        }
        range = range + 1;
    }
    proof {
        lemma_bytes_below_len(all, pos, 256);
    }
    if bytes.len() == 0 {
        return Err(BlockError("no symbols in block"));
    }
    Ok(bytes)
}

/// Reads the number of codes and of groups.
fn read_groups(reader: &mut BitReader<'_>) -> (r: Result<(u8, u16), BlockError>)
    ensures
        final(reader).bits() == old(reader).bits(),
        agrees(
            grammar::groups_at(old(reader).bits(), old(reader).pos() as int),
            |v: (nat, nat)| r->Ok_0.0 == v.0 && r->Ok_0.1 == v.1,
            reason(r),
            final(reader).pos(),
        ),
        r matches Ok(v) ==> 2 <= v.0 <= 6,
{
    let groups: u8 = match reader.read_u8(3) {
        Some(v) => v,
        None => {
            return Err(BlockError("huffman groups truncated"));
        },
    };
    if groups < 2 || groups > 6 {
        return Err(BlockError("invalid number of huffman groups"));
    }
    match reader.read_u16(15) {
        Some(count) => Ok((groups, count)),
        None => Err(BlockError("selectors_used truncated")),
    }
}

/// Looking up a place among the first symbols of a list leaves the others where
/// they are.
proof fn lemma_front_part(order: Seq<u8>, m: int, i: int)
    requires
        0 <= i < m <= order.len(),
    ensures
        mtf::move_to_front(order, i).take(m) == mtf::move_to_front(order.take(m), i),
{
    assert(mtf::move_to_front(order, i).take(m) =~= mtf::move_to_front(order.take(m), i));
}

/// Reads a number in unary.
fn read_unary(reader: &mut BitReader<'_>, limit: u8) -> (r: Result<u8, BlockError>)
    requires
        limit >= 1,
    ensures
        final(reader).bits() == old(reader).bits(),
        agrees(
            grammar::unary_at(old(reader).bits(), old(reader).pos() as int, limit as nat, 0),
            |v: nat| r->Ok_0 == v,
            reason(r),
            final(reader).pos(),
        ),
        r matches Ok(v) ==> v < limit,
{
    let ghost all = reader.bits();
    let ghost goal = grammar::unary_at(all, reader.pos() as int, limit as nat, 0);
    let mut n: u8 = 0;
    loop
        invariant
            all == old(reader).bits(),
            goal == grammar::unary_at(all, old(reader).pos() as int, limit as nat, 0),
            reader.bits() == all,
            n < limit,
            goal == grammar::unary_at(all, reader.pos() as int, limit as nat, n as nat),
        decreases all.len() - reader.pos(),
    {
        match reader.read_bit() {
            Some(more) => {
                if !more {
                    return Ok(n);
                }
            },
            None => {
                return Err(BlockError("selector bit truncated"));
            },
        }
        if n + 1 >= limit {
            return Err(BlockError("selector tree index too large"));
        }
        n = n + 1;
    }
}

/// Reads which code each group is written in.
fn read_selectors(reader: &mut BitReader<'_>, groups: u8, count: u16) -> (r: Result<
    Vec<u8>,
    BlockError,
>)
    requires
        2 <= groups <= 6,
    ensures
        final(reader).bits() == old(reader).bits(),
        agrees(
            grammar::selectors_at(
                old(reader).bits(),
                old(reader).pos() as int,
                count as nat,
                grammar::first_numbers(groups as nat),
                Seq::empty(),
            ),
            |v: Seq<u8>| r->Ok_0@ == v,
            reason(r),
            final(reader).pos(),
        ),
        r matches Ok(v) ==> forall|i: int| 0 <= i < v@.len() ==> v@[i] < groups,
{
    let ghost all = reader.bits();
    let ghost goal = grammar::selectors_at(
        all,
        reader.pos() as int,
        count as nat,
        grammar::first_numbers(groups as nat),
        Seq::empty(),
    );
    let mut chosen: Vec<u8> = Vec::with_capacity(count as usize);
    let mut list: MtfDecoder = MtfDecoder::new();
    let mut left: u16 = count;
    assert(list@.take(groups as int) =~= grammar::first_numbers(groups as nat));
    while left > 0
        invariant
            2 <= groups <= 6,
            all == old(reader).bits(),
            goal == grammar::selectors_at(
                all,
                old(reader).pos() as int,
                count as nat,
                grammar::first_numbers(groups as nat),
                Seq::empty(),
            ),
            reader.bits() == all,
            list@.len() == 256,
            forall|i: int| 0 <= i < groups ==> #[trigger] list@[i] < groups,
            forall|i: int| 0 <= i < chosen@.len() ==> chosen@[i] < groups,
            goal == grammar::selectors_at(
                all,
                reader.pos() as int,
                left as nat,
                list@.take(groups as int),
                chosen@,
            ),
        decreases left,
    {
        let place: u8 = match read_unary(reader, groups) {
            Ok(v) => v,
            Err(e) => {
                return Err(e);
            },
        };
        proof {
            lemma_front_part(list@, groups as int, place as int);
        }
        let choice: u8 = list.decode(place);
        chosen.push(choice);
        left = left - 1;
    }
    Ok(chosen)
}

/// Reads one word length.
fn read_length(reader: &mut BitReader<'_>, len: u8) -> (r: Result<u8, BlockError>)
    requires
        len < 32,
    ensures
        final(reader).bits() == old(reader).bits(),
        agrees(
            grammar::length_at(old(reader).bits(), old(reader).pos() as int, len as int),
            |v: int| r->Ok_0 == v,
            reason(r),
            final(reader).pos(),
        ),
        r matches Ok(v) ==> 1 <= v <= 20,
{
    let ghost all = reader.bits();
    let ghost goal = grammar::length_at(all, reader.pos() as int, len as int);
    let mut length: u8 = len;
    loop
        invariant
            all == old(reader).bits(),
            goal == grammar::length_at(all, old(reader).pos() as int, len as int),
            reader.bits() == all,
            length < 32,
            goal == grammar::length_at(all, reader.pos() as int, length as int),
        decreases all.len() - reader.pos(),
    {
        if length < 1 || length > 20 {
            return Err(BlockError("huffman code length out of range"));
        }
        match reader.read_bit() {
            Some(more) => {
                if !more {
                    return Ok(length);
                }
            },
            None => {
                return Err(BlockError("length adjust bit1 truncated"));
            },
        }
        match reader.read_bit() {
            Some(down) => {
                if down {
                    length = length - 1;
                } else {
                    length = length + 1;
                }
            },
            None => {
                return Err(BlockError("length adjust bit2 truncated"));
            },
        }
    }
}

/// Reads the word lengths of one code and builds its decoder.
fn read_code(reader: &mut BitReader<'_>, symbols: usize) -> (r: Result<HuffmanTree, BlockError>)
    requires
        1 <= symbols <= 258,
    ensures
        final(reader).bits() == old(reader).bits(),
        agrees(
            grammar::code_at(old(reader).bits(), old(reader).pos() as int, symbols as nat),
            |v: Seq<u8>| r->Ok_0.lengths() == v,
            reason(r),
            final(reader).pos(),
        ),
        r matches Ok(t) ==> t.lengths().len() == symbols,
{
    let ghost all = reader.bits();
    let ghost pos = reader.pos() as int;
    let mut length: u8 = match reader.read_u8(5) {
        Some(v) => v,
        None => {
            return Err(BlockError("huffman start length truncated"));
        },
    };
    proof {
        bits::lemma_bits_value_bound(all, pos, 5);
        vstd::arithmetic::power2::lemma2_to64();
    }
    let ghost goal = grammar::lengths_at(
        all,
        pos + 5,
        symbols as nat,
        bits::bits_value(all, pos, 5) as int,
        Seq::empty(),
    );
    let mut lengths: Vec<u8> = Vec::with_capacity(symbols);
    while lengths.len() < symbols
        invariant
            all == old(reader).bits(),
            pos == old(reader).pos(),
            pos + 5 <= all.len(),
            goal == grammar::lengths_at(
                all,
                pos + 5,
                symbols as nat,
                bits::bits_value(all, pos, 5) as int,
                Seq::empty(),
            ),
            reader.bits() == all,
            length < 32,
            lengths@.len() <= symbols,
            forall|i: int| 0 <= i < lengths@.len() ==> 1 <= #[trigger] lengths@[i] <= 20,
            goal == grammar::lengths_at(
                all,
                reader.pos() as int,
                (symbols - lengths@.len()) as nat,
                length as int,
                lengths@,
            ),
        decreases symbols - lengths@.len(),
    {
        match read_length(reader, length) {
            Ok(l) => {
                length = l;
            },
            Err(e) => {
                return Err(e);
            },
        }
        lengths.push(length);
    }
    assert(codes::used(lengths@, 0));
    match HuffmanTree::from_lengths(lengths.as_slice()) {
        Ok(tree) => Ok(tree),
        Err(_) => Err(BlockError("invalid huffman tree")),
    }
}

/// The word lengths of each code that has a decoder.
spec fn lengths_of(trees: Seq<HuffmanTree>) -> Seq<Seq<u8>> {
    Seq::new(trees.len(), |i: int| trees[i].lengths())
}

/// Reads the codes of a block and builds their decoders.
fn read_codes(reader: &mut BitReader<'_>, groups: u8, symbols: usize) -> (r: Result<
    Vec<HuffmanTree>,
    BlockError,
>)
    requires
        1 <= symbols <= 258,
    ensures
        final(reader).bits() == old(reader).bits(),
        agrees(
            grammar::codes_at(
                old(reader).bits(),
                old(reader).pos() as int,
                groups as nat,
                symbols as nat,
                Seq::empty(),
            ),
            |v: Seq<Seq<u8>>| lengths_of(r->Ok_0@) == v,
            reason(r),
            final(reader).pos(),
        ),
        r matches Ok(v) ==> v@.len() == groups && forall|i: int|
            0 <= i < v@.len() ==> (#[trigger] v@[i]).lengths().len() == symbols,
{
    let ghost all = reader.bits();
    let ghost goal = grammar::codes_at(
        all,
        reader.pos() as int,
        groups as nat,
        symbols as nat,
        Seq::empty(),
    );
    let mut trees: Vec<HuffmanTree> = Vec::with_capacity(groups as usize);
    let mut left: u8 = groups;
    assert(lengths_of(trees@) =~= Seq::empty());
    while left > 0
        invariant
            1 <= symbols <= 258,
            all == old(reader).bits(),
            goal == grammar::codes_at(
                all,
                old(reader).pos() as int,
                groups as nat,
                symbols as nat,
                Seq::empty(),
            ),
            reader.bits() == all,
            trees@.len() + left == groups,
            forall|i: int|
                0 <= i < trees@.len() ==> (#[trigger] trees@[i]).lengths().len() == symbols,
            goal == grammar::codes_at(
                all,
                reader.pos() as int,
                left as nat,
                symbols as nat,
                lengths_of(trees@),
            ),
        decreases left,
    {
        let ghost before = trees@;
        match read_code(reader, symbols) {
            Ok(tree) => {
                trees.push(tree);
                assert(lengths_of(trees@) =~= lengths_of(before).push(tree.lengths()));
            },
            Err(e) => {
                return Err(e);
            },
        }
        left = left - 1;
    }
    Ok(trees)
}

/// The entries hold the bytes of a column and nothing else.
spec fn holds_column(tt: Seq<u32>, column: Seq<u8>) -> bool {
    tt.len() == column.len() && forall|i: int|
        0 <= i < column.len() ==> #[trigger] tt[i] == column[i]
}

/// Writes a run behind a column.
fn push_run(tt: &mut Vec<u32>, b: u8, n: u32, c: &mut [u32; 256], Ghost(column): Ghost<Seq<u8>>)
    requires
        holds_column(old(tt)@, column),
        bwt::counts_of(column, old(c)@),
        column.len() + n <= u32::MAX,
    ensures
        holds_column(final(tt)@, column + rle::run_of(b, n as nat)),
        bwt::counts_of(column + rle::run_of(b, n as nat), final(c)@),
{
    let mut i: u32 = 0;
    assert(column + rle::run_of(b, 0) =~= column);
    while i < n
        invariant
            i <= n,
            column.len() + n <= u32::MAX,
            holds_column(tt@, column + rle::run_of(b, i as nat)),
            bwt::counts_of(column + rle::run_of(b, i as nat), c@),
        decreases n - i,
    {
        let ghost so_far = column + rle::run_of(b, i as nat);
        push_byte(tt, b, c, Ghost(so_far));
        i = i + 1;
        assert(so_far.push(b) =~= column + rle::run_of(b, i as nat));
    }
}

/// Writes a byte behind a column.
fn push_byte(tt: &mut Vec<u32>, b: u8, c: &mut [u32; 256], Ghost(column): Ghost<Seq<u8>>)
    requires
        holds_column(old(tt)@, column),
        bwt::counts_of(column, old(c)@),
        column.len() < u32::MAX,
    ensures
        holds_column(final(tt)@, column.push(b)),
        bwt::counts_of(column.push(b), final(c)@),
{
    proof {
        bwt::lemma_count_bound(column, b as int, column.len());
        assert forall|x: int| 0 <= x < 256 implies #[trigger] bwt::count_equal(
            column.push(b),
            x,
            column.len() + 1,
        ) == bwt::count_equal(column, x, column.len()) + if x == b {
            1nat
        } else {
            0
        } by {
            bwt::lemma_count_equal_push(column, b, x);
        }
    }
    tt.push(b as u32);
    c[b as usize] = c[b as usize] + 1;
}

/// The list that starts with the given bytes.
fn list_of(bytes: &Vec<u8>) -> (list: MtfDecoder)
    requires
        bytes@.len() <= 256,
    ensures
        list@.len() == 256,
        list@.take(bytes@.len() as int) == bytes@,
{
    let mut symbols: [u8; 256] = [0u8; 256];
    let mut i: usize = 0;
    while i < bytes.len()
        invariant
            i <= bytes@.len() <= 256,
            forall|j: int| 0 <= j < i ==> symbols@[j] == bytes@[j],
        decreases bytes@.len() - i,
    {
        symbols[i] = bytes[i];
        i = i + 1;
    }
    assert(symbols@.take(bytes@.len() as int) =~= bytes@);
    MtfDecoder::with_symbols(symbols)
}

/// What the head of a block says of its body, with the decoders in place of the
/// codes.
spec fn coding_of(
    trees: Seq<HuffmanTree>,
    selectors: Seq<u8>,
    bytes: nat,
    max: nat,
) -> grammar::Coding {
    grammar::Coding { codes: lengths_of(trees), selectors, end: bytes + 1, max }
}

/// Reads the column of the sorted table, with the number of times that each byte
/// value occurs in it.
fn read_column(
    reader: &mut BitReader<'_>,
    trees: &Vec<HuffmanTree>,
    selectors: &Vec<u8>,
    bytes: &Vec<u8>,
    max: u32,
    tt: &mut Vec<u32>,
) -> (r: Result<[u32; 256], BlockError>)
    requires
        1 <= bytes@.len() <= 256,
        forall|i: int|
            0 <= i < trees@.len() ==> (#[trigger] trees@[i]).lengths().len() == bytes@.len() + 2,
        forall|i: int| 0 <= i < selectors@.len() ==> selectors@[i] < trees@.len(),
    ensures
        final(reader).bits() == old(reader).bits(),
        agrees(
            grammar::column_at(
                old(reader).bits(),
                old(reader).pos() as int,
                coding_of(trees@, selectors@, bytes@.len(), max as nat),
                grammar::Progress::start(bytes@),
            ),
            |v: Seq<u8>|
                holds_column(final(tt)@, v) && bwt::counts_of(v, r->Ok_0@) && v.len() <= max,
            reason(r),
            final(reader).pos(),
        ),
{
    let ghost all = reader.bits();
    let ghost coding = coding_of(trees@, selectors@, bytes@.len(), max as nat);
    let ghost mut so_far = grammar::Progress::start(bytes@);
    let ghost goal = grammar::column_at(all, reader.pos() as int, coding, so_far);
    let ghost m = bytes@.len() as int;
    tt.clear();
    let mut c: [u32; 256] = [0u32; 256];
    let mut list: MtfDecoder = list_of(bytes);
    let end: u16 = bytes.len() as u16 + 1;
    if selectors.len() == 0 {
        return Err(BlockError("no selectors"));
    }
    let mut group: usize = 0;
    let mut in_group: usize = 0;
    let mut run: u32 = 0;
    let mut weight: u32 = 1;
    assert(bwt::counts_of(Seq::empty(), c@));
    loop
        invariant
            all == old(reader).bits(),
            m == bytes@.len(),
            1 <= m <= 256,
            end == m + 1,
            coding == coding_of(trees@, selectors@, bytes@.len(), max as nat),
            goal == grammar::column_at(
                all,
                old(reader).pos() as int,
                coding,
                grammar::Progress::start(bytes@),
            ),
            forall|i: int|
                0 <= i < trees@.len() ==> (#[trigger] trees@[i]).lengths().len() == bytes@.len()
                    + 2,
            forall|i: int| 0 <= i < selectors@.len() ==> selectors@[i] < trees@.len(),
            reader.bits() == all,
            goal == grammar::column_at(all, reader.pos() as int, coding, so_far),
            group < selectors@.len(),
            in_group <= GROUP_SIZE,
            so_far.count == GROUP_SIZE * group + in_group,
            so_far.run == run,
            run > 0 ==> so_far.weight == weight,
            run > 0 ==> weight <= run + 1,
            run <= MAX_BLOCKSIZE,
            list@.len() == 256,
            so_far.order == list@.take(m),
            holds_column(tt@, so_far.column),
            bwt::counts_of(so_far.column, c@),
            so_far.column.len() <= max,
        decreases all.len() - reader.pos(),
    {
        if in_group == GROUP_SIZE {
            if selectors.len() - group <= 1 {
                return Err(BlockError("ran out of selectors"));
            }
            group = group + 1;
            in_group = 0;
        }
        let ghost lengths = trees@[selectors@[group as int] as int].lengths();
        let ghost pos = reader.pos() as int;
        proof {
            assert(coding.codes[coding.selectors[group as int] as int] == lengths);
            assert(so_far.count / GROUP_SIZE as nat == group);
            codes::lemma_decode_at(lengths, all, pos);
        }
        let sym: u16 = match trees[selectors[group] as usize].decode(reader) {
            Some(s) => s,
            None => {
                return Err(BlockError("huffman bitstream truncated"));
            },
        };
        if sym < 2 {
            if run == 0 {
                weight = 1;
            }
            proof {
                so_far = so_far.with_digit(sym as int);
                assert(weight * 1 == weight && weight * 2 == weight + weight);
            }
            run = run + if sym == 0 {
                weight
            } else {
                2 * weight
            };
            weight = 2 * weight;
            if run as usize > MAX_BLOCKSIZE {
                return Err(BlockError("repeat count too large"));
            }
        } else {
            let ghost flushed = so_far.flushed();
            if run > 0 {
                if run > max || tt.len() > (max - run) as usize {
                    return Err(BlockError("data exceeds block size"));
                }
                push_run(tt, list.first(), run, &mut c, Ghost(so_far.column));
                run = 0;
            } else {
                assert(flushed =~= so_far.column);
            }
            if sym == end {
                return Ok(c);
            }
            let place: u8 = (sym - 1) as u8;
            if tt.len() >= max as usize {
                return Err(BlockError("data exceeds block size"));
            }
            proof {
                lemma_front_part(list@, m, place as int);
                so_far = so_far.with_byte(place as int);
            }
            let b: u8 = list.decode(place);
            push_byte(tt, b, &mut c, Ghost(flushed));
        }
        in_group = in_group + 1;
    }
}

/// Follows the rows of the sorted table and writes the text that was shortened to
/// what they give behind `output`.
fn read_text(
    tt: &Vec<u32>,
    start: u32,
    Ghost(column): Ghost<Seq<u8>>,
    Ghost(row): Ghost<int>,
    output: &mut Vec<u8>,
)
    requires
        tt@.len() == column.len(),
        0 <= row < column.len(),
        forall|j: int|
            0 <= j < column.len() ==> #[trigger] tt@[j] % 256 == column[j] && tt@[j] >> 8u32
                == bwt::link(column, j),
        start == bwt::link(column, row),
    ensures
        final(output)@ == old(output)@ + rle::unrun(bwt::untransform(column, row)),
{
    let ghost text = bwt::untransform(column, row);
    let n: usize = tt.len();
    let mut t_pos: u32 = start;
    let mut state: RunState = RunState::new();
    let mut k: usize = 0;
    proof {
        assert(bwt::row_after(column, row, 1) == bwt::link(column, bwt::row_after(column, row, 0)));
        assert(old(output)@ + Seq::<u8>::empty() =~= old(output)@);
    }
    while k < n
        invariant
            k <= n,
            n == tt@.len(),
            tt@.len() == column.len(),
            0 <= row < column.len(),
            forall|j: int|
                0 <= j < column.len() ==> #[trigger] tt@[j] % 256 == column[j] && tt@[j] >> 8u32
                    == bwt::link(column, j),
            text == bwt::untransform(column, row),
            t_pos == bwt::row_after(column, row, (k + 1) as nat),
            state.valid(),
            state == rle::state_after(RunState::start(), text, k as nat),
            output@ == old(output)@ + rle::text_after(RunState::start(), text, k as nat),
        decreases n - k,
    {
        proof {
            bwt::lemma_row_after(column, row, (k + 1) as nat);
            assert(text[k as int] == column[t_pos as int]);
            assert(bwt::row_after(column, row, (k + 2) as nat) == bwt::link(column, t_pos as int));
        }
        let ghost before = rle::text_after(RunState::start(), text, k as nat);
        let ghost added = state.adds(text[k as int]);
        let b: u8 = bwt::next_byte(tt.as_slice(), &mut t_pos);
        state.read(b, output);
        k = k + 1;
        assert((old(output)@ + before) + added =~= old(output)@ + (before + added));
    }
}

/// The links and the bytes of a linked table.
proof fn lemma_linked(before: u32, after: u32, b: u8, row: int)
    requires
        before == b,
        0 <= row <= u32::MAX,
        after == before | ((row as u32) << 8u32),
    ensures
        after % 256 == b,
        after >> 8u32 == row % 0x100_0000,
{
    let r = row as u32;
    let x = b as u32;
    assert((x | (r << 8u32)) % 256u32 == x && (x | (r << 8u32)) >> 8u32 == r % 0x100_0000u32)
        by (bit_vector)
        requires
            x < 256u32,
    ;
}

/// Decodes one block, with `reader` behind the number that marks it, and writes
/// its text behind `output`. The entries of `tt` are scratch space that later
/// calls can use again. A block that cannot be decoded adds nothing.
pub fn decode_block_with(
    reader: &mut BitReader<'_>,
    max_blocksize: u32,
    tt: &mut Vec<u32>,
    output: &mut Vec<u8>,
) -> (r: Result<(), BlockError>)
    ensures
        final(reader).bits() == old(reader).bits(),
        match grammar::block_at(
            old(reader).bits(),
            old(reader).pos() as int,
            max_blocksize as nat,
        ) {
            grammar::Parsed::Done(text, next) => r is Ok && final(output)@ == old(output)@ + text
                && final(reader).pos() == next,
            grammar::Parsed::Fail(why, at) => r matches Err(e) && e.0@ == why && final(output)@
                == old(output)@ && final(reader).pos() == at,
        },
{
    let start: u32 = match read_start(reader) {
        Ok(v) => v,
        Err(e) => {
            return Err(e);
        },
    };
    let bytes: Vec<u8> = match read_bytes(reader) {
        Ok(v) => v,
        Err(e) => {
            return Err(e);
        },
    };
    let (groups, count) = match read_groups(reader) {
        Ok(v) => v,
        Err(e) => {
            return Err(e);
        },
    };
    let selectors: Vec<u8> = match read_selectors(reader, groups, count) {
        Ok(v) => v,
        Err(e) => {
            return Err(e);
        },
    };
    let trees: Vec<HuffmanTree> = match read_codes(reader, groups, bytes.len() + 2) {
        Ok(v) => v,
        Err(e) => {
            return Err(e);
        },
    };
    let ghost parsed = grammar::column_at(
        reader.bits(),
        reader.pos() as int,
        coding_of(trees@, selectors@, bytes@.len(), max_blocksize as nat),
        grammar::Progress::start(bytes@),
    );
    let c: [u32; 256] = match read_column(reader, &trees, &selectors, &bytes, max_blocksize, tt) {
        Ok(v) => v,
        Err(e) => {
            return Err(e);
        },
    };
    let ghost column = parsed->Done_0;
    if start as usize >= tt.len() {
        return Err(BlockError("orig_ptr out of bounds"));
    }
    let ghost before = tt@;
    assert(bwt::low_bytes(before) =~= column);
    let t_pos: u32 = bwt::inverse_bwt(tt.as_mut_slice(), start as usize, c);
    proof {
        assert forall|j: int| 0 <= j < column.len() implies #[trigger] tt@[j] % 256 == column[j]
            && tt@[j] >> 8u32 == bwt::link(column, j) by {
            bwt::lemma_source(column, j);
            lemma_linked(before[j], tt@[j], column[j], bwt::source(column, j));
        }
    }
    read_text(tt, t_pos, Ghost(column), Ghost(start as int), output);
    Ok(())
}

/// Decodes one block, with `reader` behind the number that marks it.
/// `max_blocksize` comes from the head of the stream.
pub fn decode_block(reader: &mut BitReader<'_>, max_blocksize: u32) -> (r: Result<
    Vec<u8>,
    BlockError,
>)
    ensures
        final(reader).bits() == old(reader).bits(),
        match grammar::block_at(
            old(reader).bits(),
            old(reader).pos() as int,
            max_blocksize as nat,
        ) {
            grammar::Parsed::Done(text, next) => r matches Ok(v) && v@ == text
                && final(reader).pos() == next,
            grammar::Parsed::Fail(why, at) => r matches Err(e) && e.0@ == why
                && final(reader).pos() == at,
        },
{
    let mut tt: Vec<u32> = Vec::new();
    let mut output: Vec<u8> = Vec::new();
    match decode_block_with(reader, max_blocksize, &mut tt, &mut output) {
        Ok(()) => {
            Ok(output)
        },
        Err(e) => Err(e),
    }
}

} // verus!
