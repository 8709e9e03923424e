//! What the program decides from what it learns of the machine and of its
//! input.
use vstd::prelude::*;

verus! {

/// The number of workers where neither the user nor the machine tells.
pub const DEFAULT_WORKERS: usize = 4;

/// The number of workers for [`crate::parallel`]: the one asked for, else what
/// the machine has to offer, and at least one.
pub fn worker_budget(requested: Option<usize>, available: Option<usize>) -> (r: usize)
    ensures
        r == match (requested, available) {
            (Some(n), _) => if n == 0 {
                1
            } else {
                n
            },
            (None, Some(n)) => if n == 0 {
                1
            } else {
                n
            },
            (None, None) => DEFAULT_WORKERS,
        },
        r >= 1,
        requested matches Some(n) ==> n == 0 || r == n,
        requested is None && available is None ==> r == 4,
{
    let n: usize = pipeline_workers(requested, available);
    if n == 0 {
        1
    } else {
        n
    }
}

/// The number of workers in the pipeline: the one asked for, else the number of
/// cores where it is known.
pub fn pipeline_workers(requested: Option<usize>, cores: Option<usize>) -> (r: usize)
    ensures
        r == match (requested, cores) {
            (Some(n), _) => n,
            (None, Some(n)) => n,
            (None, None) => DEFAULT_WORKERS,
        },
        requested is Some ==> Some(r) == requested,
        requested is None && cores is Some ==> Some(r) == cores,
        requested is None && cores is None ==> r == 4,
{
    match requested {
        Some(n) => n,
        None => match cores {
            Some(n) => n,
            None => DEFAULT_WORKERS,
        },
    }
}

/// The byte is a decimal digit.
pub open spec fn is_digit(b: u8) -> bool {
    0x30 <= b <= 0x39
}

/// The digits behind a plus sign, or all where there is none.
pub open spec fn unsigned(text: Seq<u8>) -> Seq<u8> {
    if text.len() > 0 && text[0] == 0x2b {
        text.drop_first()
    } else {
        text
    }
}

/// The text is a number: a plus sign or none, and at least one digit.
pub open spec fn is_number(text: Seq<u8>) -> bool {
    unsigned(text).len() > 0 && forall|i: int|
        0 <= i < unsigned(text).len() ==> is_digit(#[trigger] unsigned(text)[i])
}

/// The number that digits write.
pub open spec fn decimal(digits: Seq<u8>) -> nat
    decreases digits.len(),
{
    if digits.len() == 0 {
        0
    } else {
        (10 * decimal(digits.drop_last()) + (digits.last() - 0x30)) as nat
    }
}

/// More digits write no smaller number.
proof fn lemma_decimal_grows(digits: Seq<u8>, k: int)
    requires
        0 <= k <= digits.len(),
        forall|i: int| 0 <= i < digits.len() ==> is_digit(#[trigger] digits[i]),
    ensures
        decimal(digits.take(k)) <= decimal(digits),
    decreases digits.len(),
{
    if k < digits.len() {
        let before = digits.drop_last();
        assert(is_digit(digits[digits.len() - 1]));
        assert forall|i: int| 0 <= i < before.len() implies is_digit(#[trigger] before[i]) by {
            assert(is_digit(digits[i]));
        }
        lemma_decimal_grows(before, k);
        assert(before.take(k) == digits.take(k));
    } else {
        assert(digits.take(k) == digits);
    }
}

/// Reads a number. `None` where the text is not one, or where it does not fit.
pub fn parse_count(text: &[u8]) -> (r: Option<usize>)
    ensures
        match r {
            Some(n) => is_number(text@) && n == decimal(unsigned(text@)),
            None => !is_number(text@) || decimal(unsigned(text@)) > usize::MAX,
        },
{
    let ghost digits = unsigned(text@);
    let first: usize = if text.len() > 0 && text[0] == 0x2b {
        1
    } else {
        0
    };
    if first == text.len() {
        return None;
    }
    let mut value: usize = 0;
    let mut i: usize = first;
    assert(digits.take(0) == Seq::<u8>::empty());
    while i < text.len()
        invariant
            digits == unsigned(text@),
            digits.len() > 0,
            first <= i <= text@.len(),
            digits.len() == text@.len() - first,
            forall|k: int| 0 <= k < digits.len() ==> #[trigger] digits[k] == text@[k + first],
            forall|k: int| 0 <= k < i - first ==> is_digit(#[trigger] digits[k]),
            value == decimal(digits.take(i - first)),
        decreases text.len() - i,
    {
        let b: u8 = text[i];
        let ghost k = i - first;
        assert(digits[k] == b);
        if b < 0x30 || b > 0x39 {
            assert(!is_digit(digits[k]));
            return None;
        }
        let digit: usize = (b - 0x30) as usize;
        proof {
            assert(digits.take(k + 1).drop_last() == digits.take(k));
            assert(decimal(digits.take(k + 1)) == 10 * value + digit);
            if is_number(text@) {
                lemma_decimal_grows(digits, k + 1);
            }
        }
        if value > (usize::MAX - digit) / 10 {
            return None;
        }
        value = 10 * value + digit;
        i = i + 1;
    }
    assert(digits.take(i - first) == digits);
    Some(value)
}

/// Reads the number of a package or of a core, which has 32 bits.
pub fn parse_id(text: &[u8]) -> (r: Option<u32>)
    ensures
        match r {
            Some(n) => is_number(text@) && n == decimal(unsigned(text@)),
            None => !is_number(text@) || decimal(unsigned(text@)) > u32::MAX,
        },
{
    match parse_count(text) {
        Some(n) => if n as u64 <= u32::MAX as u64 {
            Some(n as u32)
        } else {
            None
        },
        None => None,
    }
}

/// Whether an entry in the list of devices is a processor.
#[derive(Clone, Copy, Debug, PartialEq, Eq, Structural)]
pub enum CpuEntry {
    /// The directory of a processor: `cpu` and a number.
    Cpu,
    /// Something else.
    Other,
    /// The bare word `cpu`: the list is not one of processors.
    Unknown,
}

/// The name begins with `cpu`.
pub open spec fn begins_with_cpu(name: Seq<u8>) -> bool {
    name.len() >= 3 && name[0] == 0x63 && name[1] == 0x70 && name[2] == 0x75
}

/// Tells by its name whether an entry in the list of devices is a processor.
pub fn cpu_entry(name: &[u8]) -> (r: CpuEntry)
    ensures
        r == if !begins_with_cpu(name@) {
            CpuEntry::Other
        } else if name@.len() == 3 {
            CpuEntry::Unknown
        } else if 0x30 <= name@[3] <= 0x39 {
            CpuEntry::Cpu
        } else {
            CpuEntry::Other
        },
{
    if name.len() < 3 || name[0] != 0x63 || name[1] != 0x70 || name[2] != 0x75 {
        return CpuEntry::Other;
    }
    if name.len() == 3 {
        return CpuEntry::Unknown;
    }
    if name[3] >= 0x30 && name[3] <= 0x39 {
        CpuEntry::Cpu
    } else {
        CpuEntry::Other
    }
}

/// What is known of a processor: the package that it sits in, and which core of
/// the package it belongs to.
#[derive(Clone, Copy, Debug, PartialEq, Eq, Structural)]
pub struct CpuTopology {
    pub package: Option<u32>,
    pub core: Option<u32>,
}

impl CpuTopology {
    /// The core as a pair of numbers, unless it is unknown. A processor whose
    /// package is unknown counts as one of the first.
    pub open spec fn core_id(self) -> Option<(u32, u32)> {
        match (self.package, self.core) {
            (_, None) => None,
            (Some(package), Some(core)) => Some((package, core)),
            (None, Some(core)) => Some((0, core)),
        }
    }
}

/// The cores that the first `n` of the processors belong to.
pub open spec fn cores_of(cpus: Seq<CpuTopology>, n: nat) -> Set<(u32, u32)>
    decreases n,
{
    if n == 0 {
        Set::empty()
    } else {
        let before = cores_of(cpus, (n - 1) as nat);
        match cpus[n - 1].core_id() {
            Some(id) => before.insert(id),
            None => before,
        }
    }
}

/// Counts the cores that the processors belong to: two processors that share a
/// core count once. `None` where no core is known.
pub fn count_cores(cpus: &[CpuTopology]) -> (r: Option<usize>)
    ensures
        cores_of(cpus@, cpus@.len()).finite(),
        r == if cores_of(cpus@, cpus@.len()).len() == 0 {
            None
        } else {
            Some(cores_of(cpus@, cpus@.len()).len() as usize)
        },
        r matches Some(n) ==> n == cores_of(cpus@, cpus@.len()).len(),
{
    let mut ids: Vec<(u32, u32)> = Vec::new();
    let mut i: usize = 0;
    assert(ids@.to_set() == Set::<(u32, u32)>::empty());
    while i < cpus.len()
        invariant
            i <= cpus@.len(),
            ids@.no_duplicates(),
            ids@.to_set() == cores_of(cpus@, i as nat),
        decreases cpus.len() - i,
    {
        let cpu: CpuTopology = cpus[i];
        if let Some(core) = cpu.core {
            let package: u32 = match cpu.package {
                Some(p) => p,
                None => 0,
            };
            let id: (u32, u32) = (package, core);
            if !holds(&ids, id) {
                let ghost before = ids@;
                ids.push(id);
                proof {
                    assert(ids@.to_set() == before.to_set().insert(id)) by {
                        assert forall|x: (u32, u32)| ids@.contains(x) <==> before.contains(x) || x
                            == id by {
                            if before.contains(x) {
                                let k = choose|k: int| 0 <= k < before.len() && before[k] == x;
                                assert(ids@[k] == x);
                            }
                            if x == id {
                                assert(ids@[before.len() as int] == x);
                            }
                        }
                    }
                }
            } else {
                assert(ids@.to_set().insert(id) == ids@.to_set());
            }
        }
        i = i + 1;
    }
    proof {
        ids@.unique_seq_to_set();
    }
    if ids.len() == 0 {
        None
    } else {
        Some(ids.len())
    }
}

/// Tells whether a pair is in the list.
fn holds(ids: &Vec<(u32, u32)>, id: (u32, u32)) -> (r: bool)
    ensures
        r == ids@.contains(id),
{
    let mut i: usize = 0;
    while i < ids.len()
        invariant
            i <= ids@.len(),
            forall|k: int| 0 <= k < i ==> ids@[k] != id,
        decreases ids.len() - i,
    {
        if ids[i].0 == id.0 && ids[i].1 == id.1 {
            assert(ids@[i as int] == id);
            return true;
        }
        i = i + 1;
    }
    false
}

/// What an attempt to read gave.
#[derive(Clone, Copy, Debug, PartialEq, Eq, Structural)]
pub enum ReadOutcome {
    /// So many bytes, at least one.
    Bytes(usize),
    /// The input is at its end.
    End,
    /// Nothing, and reading can be tried again.
    Interrupted,
    /// Nothing, and reading cannot go on.
    Failed,
}

/// How the filling of a buffer goes on.
#[derive(Clone, Copy, Debug, PartialEq, Eq, Structural)]
pub enum FillStep {
    /// So many bytes are there, and the next attempt follows.
    Read(usize),
    /// So many bytes are there, and no more will come.
    Full(usize),
}

/// Decides how to go on filling a buffer of `len` bytes of which `got` are there,
/// by what the last attempt gave.
pub fn fill_step(got: usize, len: usize, outcome: ReadOutcome) -> (r: FillStep)
    requires
        got <= len,
        outcome matches ReadOutcome::Bytes(k) ==> got + k <= len,
    ensures
        r == match outcome {
            ReadOutcome::Bytes(k) => if got + k < len {
                FillStep::Read((got + k) as usize)
            } else {
                FillStep::Full((got + k) as usize)
            },
            ReadOutcome::Interrupted => if got < len {
                FillStep::Read(got)
            } else {
                FillStep::Full(got)
            },
            ReadOutcome::End | ReadOutcome::Failed => FillStep::Full(got),
        },
        r matches FillStep::Read(n) ==> got <= n < len,
        r matches FillStep::Full(n) ==> n == len || outcome is End || outcome is Failed,
{
    match outcome {
        ReadOutcome::Bytes(k) => if got + k < len {
            FillStep::Read(got + k)
        } else {
            FillStep::Full(got + k)
        },
        ReadOutcome::Interrupted => if got < len {
            FillStep::Read(got)
        } else {
            FillStep::Full(got)
        },
        ReadOutcome::End | ReadOutcome::Failed => FillStep::Full(got),
    }
}

/// The decimal digits of a number.
pub open spec fn digits_of(n: nat) -> Seq<u8>
    decreases n,
{
    if n < 10 {
        seq![(0x30 + n) as u8]
    } else {
        digits_of(n / 10).push((0x30 + n % 10) as u8)
    }
}

/// Every number is read from its decimal digits, with zeros in front of them or
/// none, and with a plus sign in front of these or none.
pub proof fn number_is_read(n: nat, zeros: nat)
    ensures
        ({
            let digits = Seq::new(zeros, |i: int| 0x30u8) + digits_of(n);
            let signed = seq![0x2bu8] + digits;
            &&& is_number(digits) && decimal(unsigned(digits)) == n
            &&& is_number(signed) && decimal(unsigned(signed)) == n
        }),
{
    let digits = Seq::new(zeros, |i: int| 0x30u8) + digits_of(n);
    let signed = seq![0x2bu8] + digits;
    lemma_digits(n, zeros);
    assert(is_digit(digits[0]));
    assert(signed.drop_first() == digits);
}

proof fn lemma_digits(n: nat, zeros: nat)
    ensures
        ({
            let digits = Seq::new(zeros, |i: int| 0x30u8) + digits_of(n);
            &&& digits_of(n).len() > 0
            &&& forall|i: int| 0 <= i < digits.len() ==> is_digit(#[trigger] digits[i])
            &&& decimal(digits) == n
        }),
    decreases n,
{
    let front = Seq::new(zeros, |i: int| 0x30u8);
    let digits = front + digits_of(n);
    if n < 10 {
        lemma_zeros(zeros);
        assert(digits.drop_last() == front);
    } else {
        let before = front + digits_of(n / 10);
        lemma_digits(n / 10, zeros);
        assert(digits.drop_last() == before);
        assert forall|i: int| 0 <= i < digits.len() implies is_digit(#[trigger] digits[i]) by {
            if i < before.len() {
                assert(digits[i] == before[i]);
            }
        }
    }
}

proof fn lemma_zeros(n: nat)
    ensures
        decimal(Seq::new(n, |i: int| 0x30u8)) == 0,
    decreases n,
{
    if n > 0 {
        lemma_zeros((n - 1) as nat);
        assert(Seq::new(n, |i: int| 0x30u8).drop_last() == Seq::new(
            (n - 1) as nat,
            |i: int| 0x30u8,
        ));
    }
}

/// What is empty, or a bare plus sign, or has something but a digit behind the
/// sign, is not a number.
pub proof fn others_are_no_number(text: Seq<u8>)
    ensures
        text.len() == 0 ==> !is_number(text),
        text == seq![0x2bu8] ==> !is_number(text),
        forall|i: int|
            0 <= i < text.len() && (text[i] < 0x30 || text[i] > 0x39) && (i > 0
                || #[trigger] text[i] != 0x2b) ==> !is_number(text),
{
    let digits = unsigned(text);
    assert forall|i: int|
        0 <= i < text.len() && (text[i] < 0x30 || text[i] > 0x39) && (i > 0 || #[trigger] text[i]
            != 0x2b) implies !is_number(text) by {
        if text[0] == 0x2b {
            assert(!is_digit(digits[i - 1]));
        } else {
            assert(!is_digit(digits[i]));
        }
    }
}

/// The cores are those that some processor belongs to: by the number of its core
/// and that of its package, which is 0 where it is unknown.
pub proof fn cores_are_those_in_use(cpus: Seq<CpuTopology>, package: u32, core: u32)
    ensures
        cores_of(cpus, cpus.len()).contains((package, core)) <==> exists|i: int|
            {
                &&& 0 <= i < cpus.len()
                &&& (#[trigger] cpus[i]).core == Some(core)
                &&& cpus[i].package == Some(package) || (cpus[i].package is None && package == 0)
            },
{
    lemma_cores(cpus, cpus.len(), package, core);
}

proof fn lemma_cores(cpus: Seq<CpuTopology>, n: nat, package: u32, core: u32)
    requires
        n <= cpus.len(),
    ensures
        cores_of(cpus, n).contains((package, core)) <==> exists|i: int|
            {
                &&& 0 <= i < n
                &&& (#[trigger] cpus[i]).core == Some(core)
                &&& cpus[i].package == Some(package) || (cpus[i].package is None && package == 0)
            },
    decreases n,
{
    if n > 0 {
        lemma_cores(cpus, (n - 1) as nat, package, core);
        let last = cpus[n - 1];
    }
}

/// The names of processors are `cpu` and a digit, whatever follows it.
pub proof fn cpu_is_known_by_name(rest: Seq<u8>)
    ensures
        begins_with_cpu(seq![0x63u8, 0x70u8, 0x75u8] + rest),
        forall|name: Seq<u8>| #[trigger]
            begins_with_cpu(name) ==> name.len() >= 3 && name.take(3) == seq![
                0x63u8,
                0x70u8,
                0x75u8,
            ],
{
    assert forall|name: Seq<u8>| #[trigger] begins_with_cpu(name) implies name.len() >= 3
        && name.take(3) == seq![0x63u8, 0x70u8, 0x75u8] by {}
}

} // verus!
