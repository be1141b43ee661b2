//! Run detection: the model of how the input is split into runs, and the
//! encoder that follows it.
use vstd::prelude::*;
use crate::run::{MAX_CYCLE, MAX_LITERALS, Run, RunModel, models, run_wf, serialize_runs, span,
    stream_bytes};

verus! {

/// A sequential run that began at `start` takes no more bytes once the next
/// unread index is `i`: the input is used up, the run holds the most
/// literals allowed, or the byte two ahead repeats the latest literal.
pub open spec fn seq_stops(data: Seq<u8>, start: int, i: int) -> bool {
    ||| i >= data.len()
    ||| i - start >= MAX_LITERALS
    ||| (i + 1 < data.len() && data[i + 1] == data[i - 1])
}

/// End (exclusive) of the sequential run that began at `start`, looking from `i` on.
pub open spec fn seq_end_from(data: Seq<u8>, start: int, i: int) -> int
    decreases data.len() - i,
{
    if seq_stops(data, start, i) {
        i
    } else {
        seq_end_from(data, start, i + 1)
    }
}

/// End (exclusive) of the sequential run that begins at `start`.
pub open spec fn seq_end(data: Seq<u8>, start: int) -> int {
    seq_end_from(data, start, start + 1)
}

/// Literals of a sequential run over `data[start..end]` entered with state `v`:
/// each byte XOR the one before it, the first XOR `v`.
pub open spec fn literals_of(data: Seq<u8>, start: int, end: int, v: u8) -> Seq<u8> {
    Seq::new(
        (end - start) as nat,
        |k: int|
            if k == 0 {
                v ^ data[start]
            } else {
                data[start + k - 1] ^ data[start + k]
            },
    )
}

/// The value an alternating run that begins at `start` with state `v`
/// expects at its `k`-th byte after the first: `v` at even steps, the first
/// byte at odd ones.
pub open spec fn cycle_value(data: Seq<u8>, start: int, v: u8, k: int) -> u8 {
    if k % 2 == 0 {
        v
    } else {
        data[start]
    }
}

/// Cycle steps of an alternating run that begins at `start`, counting from `k`.
pub open spec fn cycle_size_from(data: Seq<u8>, start: int, v: u8, k: int) -> int
    decreases data.len() - (start + 1 + k),
{
    if start + 1 + k < data.len() && k < MAX_CYCLE && data[start + 1 + k] == cycle_value(
        data,
        start,
        v,
        k,
    ) {
        cycle_size_from(data, start, v, k + 1)
    } else {
        k
    }
}

/// Cycle steps of the alternating run that begins at `start` with state `v`.
pub open spec fn cycle_size(data: Seq<u8>, start: int, v: u8) -> int {
    cycle_size_from(data, start, v, 0)
}

/// A run that begins at `start` with state `v` alternates when the byte after
/// its first one equals `v`.
pub open spec fn alternates_at(data: Seq<u8>, start: int, v: u8) -> bool {
    start + 1 < data.len() && data[start + 1] == v
}

/// The run that begins at `start` with state `v`.
pub open spec fn run_at(data: Seq<u8>, start: int, v: u8) -> RunModel {
    if alternates_at(data, start, v) {
        RunModel::Alternating { size: cycle_size(data, start, v) as u8, xor_value: v ^ data[start] }
    } else {
        RunModel::Sequential { literals: literals_of(data, start, seq_end(data, start), v) }
    }
}

/// End (exclusive) of the run that begins at `start` with state `v`.
pub open spec fn run_end(data: Seq<u8>, start: int, v: u8) -> int {
    if alternates_at(data, start, v) {
        start + 1 + cycle_size(data, start, v)
    } else {
        seq_end(data, start)
    }
}

/// Decode state after the run that begins at `start` with state `v`.
pub open spec fn state_after(data: Seq<u8>, start: int, v: u8) -> u8 {
    if alternates_at(data, start, v) {
        if cycle_size(data, start, v) % 2 == 0 {
            data[start]
        } else {
            v
        }
    } else {
        data[seq_end(data, start) - 1]
    }
}

/// The runs that encode `data[i..]` when the decode state is `v`.
pub open spec fn runs_from(data: Seq<u8>, i: int, v: u8) -> Seq<RunModel>
    decreases data.len() - i,
    via runs_from_decreases
{
    if 0 <= i < data.len() {
        seq![run_at(data, i, v)] + runs_from(data, run_end(data, i, v), state_after(data, i, v))
    } else {
        Seq::empty()
    }
}

#[via_fn]
proof fn runs_from_decreases(data: Seq<u8>, i: int, v: u8) {
    if 0 <= i < data.len() {
        lemma_run_bounds(data, i, v);
    }
}

/// The runs that encode `data`; the decode state starts at 0.
pub open spec fn runs_of(data: Seq<u8>) -> Seq<RunModel> {
    runs_from(data, 0, 0)
}

/// The encoded byte stream of `data`.
pub open spec fn encoded(data: Seq<u8>) -> Seq<u8> {
    stream_bytes(runs_of(data))
}

pub proof fn lemma_seq_end_from(data: Seq<u8>, start: int, i: int)
    requires
        0 <= start < i <= data.len(),
        i - start <= MAX_LITERALS,
    ensures
        i <= seq_end_from(data, start, i) <= data.len(),
        seq_end_from(data, start, i) - start <= MAX_LITERALS,
        seq_stops(data, start, seq_end_from(data, start, i)),
        forall|j: int| i <= j < seq_end_from(data, start, i) ==> !seq_stops(data, start, j),
    decreases data.len() - i,
{
    if !seq_stops(data, start, i) {
        lemma_seq_end_from(data, start, i + 1);
    }
}

proof fn lemma_cycle_size_from(data: Seq<u8>, start: int, v: u8, k: int)
    requires
        0 <= start < data.len(),
        0 <= k <= MAX_CYCLE,
        start + 1 + k <= data.len(),
    ensures
        k <= cycle_size_from(data, start, v, k) <= MAX_CYCLE,
        start + 1 + cycle_size_from(data, start, v, k) <= data.len(),
    decreases data.len() - (start + 1 + k),
{
    if start + 1 + k < data.len() && k < MAX_CYCLE && data[start + 1 + k] == cycle_value(
        data,
        start,
        v,
        k,
    ) {
        lemma_cycle_size_from(data, start, v, k + 1);
    }
}

/// Every run is well formed, stands for `run_end - start` bytes, and ends
/// past its start and within the input.
pub proof fn lemma_run_bounds(data: Seq<u8>, start: int, v: u8)
    requires
        0 <= start < data.len(),
    ensures
        start < run_end(data, start, v) <= data.len(),
        run_wf(run_at(data, start, v)),
        span(run_at(data, start, v)) == run_end(data, start, v) - start,
{
    if alternates_at(data, start, v) {
        // the first cycle step is the byte already seen to equal `v`
        assert(cycle_value(data, start, v, 0) == v);
        lemma_cycle_size_from(data, start, v, 1);
    } else {
        lemma_seq_end_from(data, start, start + 1);
    }
}

proof fn lemma_seq_end_at(data: Seq<u8>, start: int, k: int, e: int)
    requires
        k <= e,
        seq_stops(data, start, e),
        forall|j: int| k <= j < e ==> !seq_stops(data, start, j),
    ensures
        seq_end_from(data, start, k) == e,
    decreases e - k,
{
    if k < e {
        lemma_seq_end_at(data, start, k + 1, e);
    }
}

/// Every run that encodes `data[i..]` is well formed.
pub proof fn lemma_runs_wf(data: Seq<u8>, i: int, v: u8)
    ensures
        forall|k: int| 0 <= k < runs_from(data, i, v).len() ==> run_wf(#[trigger] runs_from(data, i, v)[k]),
    decreases data.len() - i,
{
    if 0 <= i < data.len() {
        lemma_run_bounds(data, i, v);
        let rest = runs_from(data, run_end(data, i, v), state_after(data, i, v));
        lemma_runs_wf(data, run_end(data, i, v), state_after(data, i, v));
        assert forall|k: int| 0 <= k < runs_from(data, i, v).len() implies run_wf(
            #[trigger] runs_from(data, i, v)[k],
        ) by {
            if k > 0 {
                assert(runs_from(data, i, v)[k] == rest[k - 1]);
            }
        }
    }
}

/// Literals of the sequential run that begins at `start` with state `v0`,
/// with its end and the decode state after it.
fn sequential_run(data: &Vec<u8>, start: usize, v0: u8) -> (res: (Vec<u8>, usize, u8))
    requires
        start < data@.len(),
    ensures
        res.1 == seq_end(data@, start as int),
        res.0@ == literals_of(data@, start as int, res.1 as int, v0),
        res.1 < data@.len() ==> res.2 == data@[res.1 - 1],
{
    let n = data.len();
    let mut v = v0;
    let mut byte = data[start];
    let mut i = start + 1;
    let mut literals: Vec<u8> = vec![v ^ byte];
    assert(literals@ == literals_of(data@, start as int, i as int, v0));
    while i < data.len()
        invariant
            start < i <= data@.len(),
            i - start <= MAX_LITERALS,
            literals@ == literals_of(data@, start as int, i as int, v0),
            byte == data@[i - 1],
            forall|j: int| start + 1 <= j < i ==> !seq_stops(data@, start as int, j),
        ensures
            start < i <= data@.len(),
            literals@ == literals_of(data@, start as int, i as int, v0),
            seq_stops(data@, start as int, i as int),
            forall|j: int| start + 1 <= j < i ==> !seq_stops(data@, start as int, j),
            i < data@.len() ==> v == data@[i - 1],
        decreases data@.len() - i,
    {
        v = byte;
        if literals.len() >= MAX_LITERALS || (i + 1 < data.len() && data[i + 1] == v) {
            break;
        }
        byte = data[i];
        literals.push(v ^ byte);
        i += 1;
        assert(literals@ == literals_of(data@, start as int, i as int, v0));
    }
    proof {
        lemma_seq_end_at(data@, start as int, start + 1, i as int);
    }
    (literals, i, v)
}

/// Cycle steps of the alternating run that begins at `start` with state `v`.
fn alternating_size(data: &Vec<u8>, start: usize, v: u8) -> (size: u8)
    requires
        alternates_at(data@, start as int, v),
    ensures
        size == cycle_size(data@, start as int, v),
{
    let n = data.len();
    let byte = data[start];
    let mut i = start + 1;
    let mut size: u8 = 0;
    while i < data.len() && size < MAX_CYCLE
        invariant
            i == start + 1 + size,
            i <= data@.len(),
            size <= MAX_CYCLE,
            byte == data@[start as int],
            cycle_size_from(data@, start as int, v, size as int) == cycle_size(data@, start as int, v),
        ensures
            cycle_size_from(data@, start as int, v, size as int) == size,
            cycle_size_from(data@, start as int, v, size as int) == cycle_size(data@, start as int, v),
        decreases data@.len() - i,
    {
        let expected = if size % 2 == 0 {
            v
        } else {
            byte
        };
        if data[i] != expected {
            break;
        }
        size += 1;
        i += 1;
    }
    size
}

/// Split `data` into runs.
pub fn encode_runs(data: &Vec<u8>) -> (runs: Vec<Run>)
    ensures
        models(runs@) == runs_of(data@),
{
    let mut runs: Vec<Run> = Vec::new();
    let mut i: usize = 0;
    let mut v: u8 = 0;
    while i < data.len()
        invariant
            i <= data@.len(),
            models(runs@) + runs_from(data@, i as int, v) == runs_of(data@),
        decreases data@.len() - i,
    {
        proof {
            lemma_run_bounds(data@, i as int, v);
        }
        let ghost old_runs = runs@;
        let ghost v0 = v;
        let ghost rest = runs_from(data@, run_end(data@, i as int, v0), state_after(data@, i as int, v0));
        let ghost run = run_at(data@, i as int, v0);
        let next: usize;
        if i + 1 == data.len() || data[i + 1] != v {
            let (literals, end, next_v) = sequential_run(data, i, v);
            runs.push(Run::Sequential { literals });
            next = end;
            v = next_v;
        } else {
            let size = alternating_size(data, i, v);
            let byte = data[i];
            runs.push(Run::Alternating { size, xor_value: v ^ byte });
            if size % 2 == 0 {
                v = byte;
            }
            next = i + 1 + size as usize;
        }
        proof {
            assert(models(runs@) == models(old_runs).push(run));
            if next < data@.len() {
                assert(v == state_after(data@, i as int, v0));
            } else {
                assert(runs_from(data@, next as int, v) == rest);
            }
            assert(models(runs@) + rest == models(old_runs) + runs_from(data@, i as int, v0));
        }
        i = next;
    }
    assert(models(runs@) == runs_of(data@));
    runs
}

/// Encode `data`: the byte stream and the number of runs in it.
pub fn compress(data: &Vec<u8>) -> (res: (Vec<u8>, usize))
    ensures
        res.0@ == encoded(data@),
        res.1 == runs_of(data@).len(),
{
    let runs = encode_runs(data);
    proof {
        lemma_runs_wf(data@, 0, 0);
        assert forall|k: int| 0 <= k < runs@.len() implies run_wf(#[trigger] runs@[k]@) by {
            assert(runs@[k]@ == models(runs@)[k]);
        }
    }
    let out = serialize_runs(&runs);
    (out, runs.len())
}

} // verus!
