//! The run-length coding of the text, undone.
//!
//! Before anything else bzip2 shortens runs: behind four equal bytes stands the
//! number of further ones.
use vstd::prelude::*;

verus! {

/// What the decoder knows of the bytes just read.
#[derive(Clone, Copy)]
pub struct RunState {
    /// The byte that a run could go on with.
    pub last: Option<u8>,
    /// How often it has come again.
    pub repeats: u8,
}

impl RunState {
    /// Nothing has been read yet.
    pub open spec fn start() -> RunState {
        RunState { last: None, repeats: 0 }
    }

    /// Where four bytes of a run have been read the run has a byte.
    pub open spec fn valid(self) -> bool {
        self.repeats <= 3 && (self.repeats > 0 ==> self.last is Some)
    }

    /// What the next byte adds to the text: itself, or the rest of a run.
    pub open spec fn adds(self, b: u8) -> Seq<u8> {
        if self.repeats == 3 {
            Seq::new(b as nat, |i: int| self.last->0)
        } else {
            seq![b]
        }
    }

    /// What is known once the next byte has been read.
    pub open spec fn next(self, b: u8) -> RunState {
        if self.repeats == 3 {
            RunState::start()
        } else if self.last == Some(b) {
            RunState { last: Some(b), repeats: (self.repeats + 1) as u8 }
        } else {
            RunState { last: Some(b), repeats: 0 }
        }
    }

    /// The state in which nothing has been read yet.
    pub fn new() -> (r: RunState)
        ensures
            r == RunState::start(),
            r.valid(),
    {
        RunState { last: None, repeats: 0 }
    }

    /// Reads the next byte and writes what it adds behind `out`.
    pub fn read(&mut self, b: u8, out: &mut Vec<u8>)
        requires
            old(self).valid(),
        ensures
            *final(self) == old(self).next(b),
            final(self).valid(),
            final(out)@ == old(out)@ + old(self).adds(b),
    {
        if self.repeats == 3 {
            let byte: u8 = match self.last {
                Some(x) => x,
                None => 0,
            };
            let mut i: u8 = 0;
            while i < b
                invariant
                    i <= b,
                    out@ == old(out)@ + Seq::new(i as nat, |j: int| byte),
                decreases b - i,
            {
                out.push(byte);
                i = i + 1;
                assert(out@ =~= old(out)@ + Seq::new(i as nat, |j: int| byte));
            }
            assert(Seq::new(b as nat, |j: int| byte) =~= self.adds(b));
            self.last = None;
            self.repeats = 0;
        } else {
            let again: bool = match self.last {
                Some(x) => x == b,
                None => false,
            };
            if again {
                self.repeats = self.repeats + 1;
            } else {
                self.repeats = 0;
            }
            self.last = Some(b);
            out.push(b);
            assert(out@ =~= old(out)@ + seq![b]);
        }
    }
}

/// What is known once the first `k` bytes have been read in the state `from`.
pub open spec fn state_after(from: RunState, s: Seq<u8>, k: nat) -> RunState
    decreases k,
{
    if k == 0 {
        from
    } else {
        state_after(from, s, (k - 1) as nat).next(s[k - 1])
    }
}

/// The text that the first `k` bytes give when they are read in the state `from`.
pub open spec fn text_after(from: RunState, s: Seq<u8>, k: nat) -> Seq<u8>
    decreases k,
{
    if k == 0 {
        Seq::empty()
    } else {
        text_after(from, s, (k - 1) as nat) + state_after(from, s, (k - 1) as nat).adds(s[k - 1])
    }
}

/// The text that was shortened to `s`.
pub open spec fn unrun(s: Seq<u8>) -> Seq<u8> {
    text_after(RunState::start(), s, s.len())
}

/// `n` times the byte `b`.
pub open spec fn run_of(b: u8, n: nat) -> Seq<u8> {
    Seq::new(n, |i: int| b)
}

/// How a run is written: as it is below four bytes, and as four bytes and the
/// number of further ones from there on.
pub open spec fn short_run(b: u8, n: nat) -> Seq<u8> {
    if n < 4 {
        run_of(b, n)
    } else {
        run_of(b, 4).push((n - 4) as u8)
    }
}

/// The text that consists of the given runs.
pub open spec fn text_of_runs(runs: Seq<(u8, nat)>) -> Seq<u8>
    decreases runs.len(),
{
    if runs.len() == 0 {
        Seq::empty()
    } else {
        text_of_runs(runs.drop_last()) + run_of(runs.last().0, runs.last().1)
    }
}

/// How a text that consists of the given runs is written.
pub open spec fn short_runs(runs: Seq<(u8, nat)>) -> Seq<u8>
    decreases runs.len(),
{
    if runs.len() == 0 {
        Seq::empty()
    } else {
        short_runs(runs.drop_last()) + short_run(runs.last().0, runs.last().1)
    }
}

/// The runs can be written: none is empty or longer than a count allows, and no
/// run that is written as it is goes on in the next.
pub open spec fn runs_valid(runs: Seq<(u8, nat)>) -> bool {
    &&& forall|i: int| 0 <= i < runs.len() ==> 1 <= (#[trigger] runs[i]).1 <= 259
    &&& forall|i: int|
        #![trigger runs[i]]
        1 <= i < runs.len() && runs[i - 1].1 < 4 ==> runs[i - 1].0 != runs[i].0
}

/// Reading two strings one after the other is reading the first and then the
/// second in the state that it leaves.
proof fn lemma_text_split(from: RunState, s: Seq<u8>, t: Seq<u8>, k: nat)
    requires
        k <= t.len(),
    ensures
        state_after(from, s + t, s.len() + k) == state_after(
            state_after(from, s, s.len()),
            t,
            k,
        ),
        text_after(from, s + t, s.len() + k) == text_after(from, s, s.len()) + text_after(
            state_after(from, s, s.len()),
            t,
            k,
        ),
    decreases k,
{
    if k == 0 {
        lemma_text_prefix(from, s, t, s.len());
        assert(text_after(from, s, s.len()) + Seq::<u8>::empty() =~= text_after(
            from,
            s,
            s.len(),
        ));
    } else {
        let m = (k - 1) as nat;
        lemma_text_split(from, s, t, m);
        assert((s + t)[s.len() + m as int] == t[m as int]);
        let a = text_after(from, s, s.len());
        let mid = state_after(from, s, s.len());
        let b = text_after(mid, t, m);
        let c = state_after(mid, t, m).adds(t[m as int]);
        assert((a + b) + c =~= a + (b + c));
    }
}

proof fn lemma_text_prefix(from: RunState, s: Seq<u8>, t: Seq<u8>, k: nat)
    requires
        k <= s.len(),
    ensures
        state_after(from, s + t, k) == state_after(from, s, k),
        text_after(from, s + t, k) == text_after(from, s, k),
    decreases k,
{
    if k > 0 {
        lemma_text_prefix(from, s, t, (k - 1) as nat);
        assert((s + t)[k - 1] == s[k - 1]);
    }
}

/// Up to four bytes of a run are read as they are.
proof fn lemma_read_run(from: RunState, b: u8, n: nat, k: nat)
    requires
        from.repeats < 3,
        from.last != Some(b),
        k <= n,
        k <= 4,
    ensures
        text_after(from, run_of(b, n), k) == run_of(b, k),
        k > 0 ==> state_after(from, run_of(b, n), k) == (RunState {
            last: Some(b),
            repeats: (k - 1) as u8,
        }),
    decreases k,
{
    if k > 0 {
        lemma_read_run(from, b, n, (k - 1) as nat);
        assert(run_of(b, (k - 1) as nat) + seq![b] =~= run_of(b, k));
    } else {
        assert(run_of(b, 0) =~= Seq::<u8>::empty());
    }
}

proof fn lemma_read_short_run(from: RunState, b: u8, n: nat)
    requires
        from.repeats < 3,
        from.last != Some(b),
        1 <= n <= 259,
    ensures
        text_after(from, short_run(b, n), short_run(b, n).len()) == run_of(b, n),
        state_after(from, short_run(b, n), short_run(b, n).len()) == if n < 4 {
            RunState { last: Some(b), repeats: (n - 1) as u8 }
        } else {
            RunState::start()
        },
{
    if n < 4 {
        lemma_read_run(from, b, n, n);
    } else {
        let head = run_of(b, 4);
        let tail = seq![(n - 4) as u8];
        let mid = state_after(from, head, 4);
        lemma_read_run(from, b, 4, 4);
        assert(short_run(b, n) =~= head + tail);
        lemma_text_split(from, head, tail, 1);
        assert(text_after(mid, tail, 1) == text_after(mid, tail, 0) + state_after(
            mid,
            tail,
            0,
        ).adds(tail[0]));
        assert(state_after(mid, tail, 1) == state_after(mid, tail, 0).next(tail[0]));
        assert(text_after(mid, tail, 0) =~= Seq::<u8>::empty());
        assert(head + text_after(mid, tail, 1) =~= run_of(b, n));
    }
}

/// Reading a text whose runs were shortened gives the text back.
pub proof fn unrun_undoes_shortening(runs: Seq<(u8, nat)>)
    requires
        runs_valid(runs),
    ensures
        unrun(short_runs(runs)) == text_of_runs(runs),
{
    lemma_unrun_runs(runs);
}

proof fn lemma_unrun_runs(runs: Seq<(u8, nat)>)
    requires
        runs_valid(runs),
    ensures
        unrun(short_runs(runs)) == text_of_runs(runs),
        state_after(RunState::start(), short_runs(runs), short_runs(runs).len()) == if runs.len()
            == 0 || runs.last().1 >= 4 {
            RunState::start()
        } else {
            RunState { last: Some(runs.last().0), repeats: (runs.last().1 - 1) as u8 }
        },
    decreases runs.len(),
{
    if runs.len() > 0 {
        let init = runs.drop_last();
        assert(runs_valid(init)) by {
            assert forall|i: int| 0 <= i < init.len() implies 1 <= (#[trigger] init[i]).1
                <= 259 by {
                assert(init[i] == runs[i]);
            }
            assert forall|i: int|
                #![trigger init[i]]
                1 <= i < init.len() && init[i - 1].1 < 4 implies init[i - 1].0 != init[i].0 by {
                assert(init[i] == runs[i] && init[i - 1] == runs[i - 1]);
            }
        }
        lemma_unrun_runs(init);
        let last = runs[runs.len() - 1];
        let s = short_runs(init);
        let t = short_run(last.0, last.1);
        let mid = state_after(RunState::start(), s, s.len());
        if init.len() > 0 {
            assert(init.last() == runs[runs.len() - 2]);
        }
        lemma_read_short_run(mid, last.0, last.1);
        lemma_text_split(RunState::start(), s, t, t.len());
        assert((s + t).len() == s.len() + t.len());
    }
}

/// What was shortened is not empty where it was shortened to something.
pub proof fn lemma_unrun_some(s: Seq<u8>)
    requires
        s.len() > 0,
    ensures
        unrun(s).len() > 0,
{
    lemma_text_grows(s, s.len());
}

proof fn lemma_text_grows(s: Seq<u8>, k: nat)
    requires
        k > 0,
    ensures
        text_after(RunState::start(), s, k).len() > 0,
    decreases k,
{
    if k == 1 {
        assert(state_after(RunState::start(), s, 0) == RunState::start());
    } else {
        lemma_text_grows(s, (k - 1) as nat);
    }
}

/// A run of up to three bytes is written as it is, one of up to 259 as four bytes
/// and the number of the others.
pub proof fn runs_are_written_short(b: u8, n: nat)
    requires
        n <= 259,
    ensures
        n < 4 ==> short_run(b, n).len() == n,
        n >= 4 ==> short_run(b, n).len() == 5 && short_run(b, n)[4] == n - 4,
        forall|i: int|
            0 <= i < short_run(b, n).len() && i < 4 ==> #[trigger] short_run(b, n)[i] == b,
{
}

/// A run more adds its bytes to the text, and its short form to what is written.
pub proof fn runs_add_up(runs: Seq<(u8, nat)>, b: u8, n: nat)
    ensures
        text_of_runs(Seq::empty()) == Seq::<u8>::empty(),
        short_runs(Seq::empty()) == Seq::<u8>::empty(),
        text_of_runs(runs.push((b, n))) == text_of_runs(runs) + Seq::new(n, |i: int| b),
        short_runs(runs.push((b, n))) == short_runs(runs) + short_run(b, n),
{
    assert(runs.push((b, n)).drop_last() == runs);
}

/// Four equal bytes at the end, with no number behind them, are read as they are.
pub proof fn four_bytes_can_end(runs: Seq<(u8, nat)>, b: u8)
    requires
        runs_valid(runs),
        runs.len() > 0 && runs.last().1 < 4 ==> runs.last().0 != b,
    ensures
        unrun(short_runs(runs) + seq![b, b, b, b]) == text_of_runs(runs) + seq![b, b, b, b],
{
    let s = short_runs(runs);
    let t = run_of(b, 4);
    let mid = state_after(RunState::start(), s, s.len());
    lemma_unrun_runs(runs);
    if runs.len() > 0 {
        assert(1 <= runs[runs.len() - 1].1 <= 259);
    }
    lemma_read_run(mid, b, 4, 4);
    lemma_text_split(RunState::start(), s, t, 4);
    assert(t == seq![b, b, b, b]);
    assert((s + t).len() == s.len() + 4);
}

/// The states that are valid are those that reading leads to, from the first on.
pub proof fn valid_states_are_reached(state: RunState)
    requires
        state.valid(),
    ensures
        exists|s: Seq<u8>| #[trigger] state_after(RunState::start(), s, s.len()) == state,
{
    match state.last {
        None => {
            let s = Seq::<u8>::empty();
            assert(state_after(RunState::start(), s, s.len()) == state);
        },
        Some(b) => {
            let n = (state.repeats + 1) as nat;
            let s = run_of(b, n);
            lemma_read_run(RunState::start(), b, n, n);
            assert(state_after(RunState::start(), s, s.len()) == state);
        },
    }
}

/// Reading leads from valid states to valid states.
pub proof fn states_stay_valid(s: Seq<u8>, k: nat)
    requires
        k <= s.len(),
    ensures
        state_after(RunState::start(), s, k).valid(),
    decreases k,
{
    if k > 0 {
        states_stay_valid(s, (k - 1) as nat);
    }
}

} // verus!
