//! A model of the decoder that the format is meant for: it keeps the last
//! byte it produced as its state and rebuilds each run from it.
use vstd::prelude::*;
use crate::run::RunModel;

verus! {

/// The `k`-th byte a sequential run yields: each literal XOR the byte before
/// it, the first XOR the state `v`.
pub open spec fn chain_at(literals: Seq<u8>, v: u8, k: int) -> u8
    decreases k,
{
    if k <= 0 {
        v ^ literals[0]
    } else {
        chain_at(literals, v, k - 1) ^ literals[k]
    }
}

/// The bytes a run yields when the decoder's state is `v`.
pub open spec fn decode_run(r: RunModel, v: u8) -> Seq<u8> {
    match r {
        RunModel::Sequential { literals } => Seq::new(
            literals.len(),
            |k: int| chain_at(literals, v, k),
        ),
        RunModel::Alternating { size, xor_value } => {
            let first = v ^ xor_value;
            seq![first] + Seq::new(
                size as nat,
                |j: int|
                    if j % 2 == 0 {
                        v
                    } else {
                        first
                    },
            )
        },
    }
}

/// The bytes a sequence of runs yields from state `v`; after each run the
/// state is the last byte it yielded.
pub open spec fn decode_from(runs: Seq<RunModel>, v: u8) -> Seq<u8>
    decreases runs.len(),
{
    if runs.len() == 0 {
        Seq::empty()
    } else {
        let d = decode_run(runs[0], v);
        d + decode_from(runs.drop_first(), d.last())
    }
}

/// The bytes a sequence of runs yields; the state starts at 0.
pub open spec fn decode(runs: Seq<RunModel>) -> Seq<u8> {
    decode_from(runs, 0)
}

} // verus!
