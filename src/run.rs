//! Runs: the units the encoder produces, their mathematical model, and
//! their byte-level serialization.
use vstd::prelude::*;

verus! {

/// Most literal bytes a sequential run may hold.
pub const MAX_LITERALS: usize = 128;

/// Most cycle steps an alternating run may record.
pub const MAX_CYCLE: u8 = 128;

/// Mathematical model of a run.
pub ghost enum RunModel {
    /// Literal span stored as XOR deltas against the evolving decode state.
    Sequential { literals: Seq<u8> },
    /// Span cycling between two values; `size` counts the bytes after the first.
    Alternating { size: u8, xor_value: u8 },
}

/// One encoded run.
#[derive(Debug, PartialEq, Eq)]
pub enum Run {
    Sequential { literals: Vec<u8> },
    Alternating { size: u8, xor_value: u8 },
}

impl View for Run {
    type V = RunModel;

    open spec fn view(&self) -> RunModel {
        match self {
            Run::Sequential { literals } => RunModel::Sequential { literals: literals@ },
            Run::Alternating { size, xor_value } => RunModel::Alternating {
                size: *size,
                xor_value: *xor_value,
            },
        }
    }
}

/// A run whose length field fits the seven bits of its control byte.
pub open spec fn run_wf(r: RunModel) -> bool {
    match r {
        RunModel::Sequential { literals } => 1 <= literals.len() <= MAX_LITERALS,
        RunModel::Alternating { size, .. } => 1 <= size <= MAX_CYCLE,
    }
}

/// Number of input bytes a run stands for.
pub open spec fn span(r: RunModel) -> nat {
    match r {
        RunModel::Sequential { literals } => literals.len(),
        RunModel::Alternating { size, .. } => size as nat + 1,
    }
}

/// The control byte that leads a run: `length - 1` for a sequential run,
/// `size + 127` for an alternating one.
pub open spec fn control_byte(r: RunModel) -> u8 {
    match r {
        RunModel::Sequential { literals } => (literals.len() - 1) as u8,
        RunModel::Alternating { size, .. } => (size + 127) as u8,
    }
}

/// The bytes written for one run.
pub open spec fn run_bytes(r: RunModel) -> Seq<u8> {
    match r {
        RunModel::Sequential { literals } => seq![control_byte(r)] + literals,
        RunModel::Alternating { xor_value, .. } => seq![control_byte(r), xor_value],
    }
}

/// Models of a sequence of runs.
pub open spec fn models(runs: Seq<Run>) -> Seq<RunModel> {
    runs.map_values(|r: Run| r@)
}

/// The bytes written for a sequence of runs, in order, with nothing between.
pub open spec fn stream_bytes(runs: Seq<RunModel>) -> Seq<u8>
    decreases runs.len(),
{
    if runs.len() == 0 {
        Seq::empty()
    } else {
        stream_bytes(runs.drop_last()) + run_bytes(runs.last())
    }
}

/// Number of input bytes a sequence of runs stands for.
pub open spec fn total_span(runs: Seq<RunModel>) -> nat
    decreases runs.len(),
{
    if runs.len() == 0 {
        0
    } else {
        span(runs[0]) + total_span(runs.drop_first())
    }
}

impl Run {
    /// The control byte of this run.
    pub fn control(&self) -> (c: u8)
        requires
            run_wf(self@),
        ensures
            c == control_byte(self@),
    {
        match self {
            Run::Sequential { literals } => (literals.len() - 1) as u8,
            Run::Alternating { size, .. } => *size + 127,
        }
    }

    /// Append this run's control byte and payload to `out`.
    pub fn write_to(&self, out: &mut Vec<u8>)
        requires
            run_wf(self@),
        ensures
            final(out)@ == old(out)@ + run_bytes(self@),
    {
        out.push(self.control());
        match self {
            Run::Sequential { literals } => {
                let mut k: usize = 0;
                while k < literals.len()
                    invariant
                        k <= literals@.len(),
                        out@ == old(out)@ + seq![control_byte(self@)] + literals@.take(k as int),
                    decreases literals@.len() - k,
                {
                    out.push(literals[k]);
                    k += 1;
                    assert(literals@.take(k as int) == literals@.take(k - 1).push(literals@[k - 1]));
                }
                assert(literals@.take(k as int) == literals@);
            },
            Run::Alternating { xor_value, .. } => {
                out.push(*xor_value);
            },
        }
    }
}

/// Serialize runs: each control byte followed by its payload, in order.
pub fn serialize_runs(runs: &Vec<Run>) -> (out: Vec<u8>)
    requires
        forall|k: int| 0 <= k < runs@.len() ==> run_wf(#[trigger] runs@[k]@),
    ensures
        out@ == stream_bytes(models(runs@)),
{
    let mut out: Vec<u8> = Vec::new();
    let mut k: usize = 0;
    while k < runs.len()
        invariant
            k <= runs@.len(),
            forall|j: int| 0 <= j < runs@.len() ==> run_wf(#[trigger] runs@[j]@),
            out@ == stream_bytes(models(runs@.take(k as int))),
        decreases runs@.len() - k,
    {
        runs[k].write_to(&mut out);
        proof {
            let prev = models(runs@.take(k as int));
            let next = models(runs@.take(k + 1));
            assert(next.drop_last() == prev);
            assert(next.last() == runs@[k as int]@);
        }
        k += 1;
    }
    assert(runs@.take(k as int) == runs@);
    out
}

} // verus!
