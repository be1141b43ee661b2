//! Properties of the encoding that hold for every input.
use vstd::prelude::*;
use crate::decoding::{chain_at, decode, decode_from, decode_run};
use crate::encoder::{
    alternates_at, cycle_size, cycle_size_from, cycle_value, encoded, lemma_run_bounds,
    lemma_runs_wf, lemma_seq_end_from, literals_of, run_at, run_end, runs_from, runs_of, seq_end,
    state_after,
};
use crate::run::{MAX_CYCLE, RunModel, control_byte, run_bytes, run_wf, span, stream_bytes, total_span};

verus! {

/// An empty input gives no runs and no bytes.
pub proof fn lemma_empty_input(data: Seq<u8>)
    requires
        data.len() == 0,
    ensures
        runs_of(data).len() == 0,
        encoded(data).len() == 0,
{
}

/// A one-byte input gives one sequential run: control byte 0, then the byte
/// itself (it is XORed with the initial state 0).
pub proof fn lemma_single_byte(data: Seq<u8>)
    requires
        data.len() == 1,
    ensures
        runs_of(data) == seq![RunModel::Sequential { literals: seq![0u8 ^ data[0]] }],
        0u8 ^ data[0] == data[0],
        encoded(data) == seq![0u8, data[0]],
{
    let x = data[0];
    assert(0u8 ^ x == x) by (bit_vector);
    let lits = run_at(data, 0, 0)->Sequential_literals;
    assert(lits == seq![0u8 ^ data[0]]);
    assert(runs_from(data, run_end(data, 0, 0), state_after(data, 0, 0)) == Seq::<RunModel>::empty());
    assert(runs_of(data) == seq![run_at(data, 0, 0)]);
    let runs = runs_of(data);
    assert(runs.drop_last() == Seq::<RunModel>::empty());
    assert(stream_bytes(runs.drop_last()) == Seq::<u8>::empty());
    assert(stream_bytes(runs) == Seq::<u8>::empty() + run_bytes(runs.last()));
    assert(Seq::<u8>::empty() + run_bytes(runs.last()) == run_bytes(runs[0]));
    assert(encoded(data) == seq![0u8, data[0]]);
}

proof fn lemma_control_bits(c: u8)
    ensures
        c < 0x80 ==> c & 0x80 == 0 && c & 0x7f == c,
        c >= 0x80 ==> c & 0x80 == 0x80 && c & 0x7f == c - 0x80,
        c & 0x7f <= 127,
{
    assert(c & 0x7f <= 127) by (bit_vector);
    assert(c < 0x80 ==> c & 0x80 == 0 && c & 0x7f == c) by (bit_vector);
    assert(c >= 0x80 ==> c & 0x80 == 0x80 && c & 0x7f == c - 0x80) by (bit_vector);
}

/// Every run's control byte leads its bytes; its high bit is set exactly
/// when the run alternates. The low seven bits hold `length - 1` for a
/// sequential run; an alternating run's control byte is `size + 127`, so
/// its low seven bits hold `size - 1`.
pub proof fn lemma_control_byte_layout(data: Seq<u8>)
    ensures
        forall|k: int|
            0 <= k < runs_of(data).len() ==> {
                let r = #[trigger] runs_of(data)[k];
                let c = control_byte(r);
                &&& run_bytes(r)[0] == c
                &&& (c & 0x80 == 0x80) == (r is Alternating)
                &&& (c & 0x80 == 0) == (r is Sequential)
                &&& r is Sequential ==> c & 0x7f == r->Sequential_literals.len() - 1
                &&& r is Alternating ==> c as int == r->Alternating_size + 127
                &&& r is Alternating ==> c & 0x7f == r->Alternating_size - 1
                &&& c & 0x7f <= 127
            },
{
    lemma_runs_wf(data, 0, 0);
    assert forall|k: int| 0 <= k < runs_of(data).len() implies {
        let r = #[trigger] runs_of(data)[k];
        let c = control_byte(r);
        &&& run_bytes(r)[0] == c
        &&& (c & 0x80 == 0x80) == (r is Alternating)
        &&& (c & 0x80 == 0) == (r is Sequential)
        &&& r is Sequential ==> c & 0x7f == r->Sequential_literals.len() - 1
        &&& r is Alternating ==> c as int == r->Alternating_size + 127
        &&& r is Alternating ==> c & 0x7f == r->Alternating_size - 1
        &&& c & 0x7f <= 127
    } by {
        let r = runs_of(data)[k];
        let c = control_byte(r);
        assert(run_wf(r));
        lemma_control_bits(c);
    }
}

/// A sequential run holds at most 128 literals; an alternating run records
/// at most 128 cycle steps.
pub proof fn lemma_run_limits(data: Seq<u8>)
    ensures
        forall|k: int|
            0 <= k < runs_of(data).len() ==> {
                let r = #[trigger] runs_of(data)[k];
                &&& r is Sequential ==> 1 <= r->Sequential_literals.len() <= 128
                &&& r is Alternating ==> 1 <= r->Alternating_size <= 128
            },
{
    lemma_runs_wf(data, 0, 0);
}

proof fn lemma_span_from(data: Seq<u8>, i: int, v: u8)
    requires
        0 <= i <= data.len(),
    ensures
        total_span(runs_from(data, i, v)) == data.len() - i,
    decreases data.len() - i,
{
    if i < data.len() {
        lemma_run_bounds(data, i, v);
        let e = run_end(data, i, v);
        let w = state_after(data, i, v);
        lemma_span_from(data, e, w);
        let runs = runs_from(data, i, v);
        assert(runs.drop_first() == runs_from(data, e, w));
        assert(span(runs[0]) == e - i);
    }
}

/// The runs partition the input: the bytes they stand for add up to the
/// input's length.
pub proof fn lemma_runs_partition(data: Seq<u8>)
    ensures
        total_span(runs_of(data)) == data.len(),
{
    lemma_span_from(data, 0, 0);
}

proof fn lemma_xor_cancel(a: u8, b: u8)
    ensures
        a ^ (a ^ b) == b,
{
    assert(a ^ (a ^ b) == b) by (bit_vector);
}

proof fn lemma_chain(data: Seq<u8>, start: int, end: int, v: u8, k: int)
    requires
        0 <= start,
        0 <= k < end - start,
        end <= data.len(),
    ensures
        chain_at(literals_of(data, start, end, v), v, k) == data[start + k],
    decreases k,
{
    let lits = literals_of(data, start, end, v);
    if k == 0 {
        lemma_xor_cancel(v, data[start]);
    } else {
        lemma_chain(data, start, end, v, k - 1);
        lemma_xor_cancel(data[start + k - 1], data[start + k]);
    }
}

proof fn lemma_cycle_matches(data: Seq<u8>, start: int, v: u8, k: int)
    requires
        0 <= start,
        0 <= k,
    ensures
        forall|j: int|
            k <= j < cycle_size_from(data, start, v, k) ==> data[start + 1 + j] == cycle_value(
                data,
                start,
                v,
                j,
            ),
    decreases data.len() - (start + 1 + k),
{
    if start + 1 + k < data.len() && k < MAX_CYCLE && data[start + 1 + k] == cycle_value(
        data,
        start,
        v,
        k,
    ) {
        lemma_cycle_matches(data, start, v, k + 1);
    }
}

/// The run that begins at `start` yields exactly the bytes it covers, and
/// the last of them is the encoder's state after it.
proof fn lemma_decode_run(data: Seq<u8>, start: int, v: u8)
    requires
        0 <= start < data.len(),
    ensures
        decode_run(run_at(data, start, v), v) == data.subrange(start, run_end(data, start, v)),
        state_after(data, start, v) == data[run_end(data, start, v) - 1],
{
    lemma_run_bounds(data, start, v);
    let e = run_end(data, start, v);
    let d = decode_run(run_at(data, start, v), v);
    if alternates_at(data, start, v) {
        let size = cycle_size(data, start, v);
        lemma_cycle_matches(data, start, v, 0);
        lemma_xor_cancel(v, data[start]);
        assert(d.len() == e - start);
        assert forall|j: int| 0 <= j < d.len() implies d[j] == data[start + j] by {
            if j > 0 {
                assert(data[start + 1 + (j - 1)] == cycle_value(data, start, v, j - 1));
            }
        }
        assert(data[start + 1 + (size - 1)] == cycle_value(data, start, v, size - 1));
    } else {
        lemma_seq_end_from(data, start, start + 1);
        let end = seq_end(data, start);
        assert forall|k: int| 0 <= k < d.len() implies d[k] == data[start + k] by {
            lemma_chain(data, start, end, v, k);
        }
    }
    assert(d == data.subrange(start, e));
}

proof fn lemma_decode_from(data: Seq<u8>, i: int, v: u8)
    requires
        0 <= i <= data.len(),
        0 < i ==> v == data[i - 1],
    ensures
        decode_from(runs_from(data, i, v), v) == data.subrange(i, data.len() as int),
    decreases data.len() - i,
{
    if i < data.len() {
        lemma_run_bounds(data, i, v);
        lemma_decode_run(data, i, v);
        let e = run_end(data, i, v);
        let w = state_after(data, i, v);
        lemma_decode_from(data, e, w);
        let runs = runs_from(data, i, v);
        assert(runs.drop_first() == runs_from(data, e, w));
        let d = decode_run(runs[0], v);
        assert(d.last() == w);
        assert(data.subrange(i, e) + data.subrange(e, data.len() as int) == data.subrange(
            i,
            data.len() as int,
        ));
    } else {
        assert(data.subrange(i, data.len() as int) == Seq::<u8>::empty());
    }
}

/// The encoding loses nothing: a decoder that starts from state 0 and, after
/// each run, keeps the last byte it produced, rebuilds the input from the runs.
pub proof fn lemma_lossless(data: Seq<u8>)
    ensures
        decode(runs_of(data)) == data,
{
    lemma_decode_from(data, 0, 0);
    assert(data.subrange(0, data.len() as int) == data);
}

} // verus!
