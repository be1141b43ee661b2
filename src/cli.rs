//! The decisions of the command line: which arguments name inputs and output,
//! and how the inputs become one buffer to encode.
use vstd::prelude::*;
use crate::encoder::{compress, encoded, runs_of};

verus! {

/// What a well-formed command line asks for.
#[derive(Debug, PartialEq, Eq)]
pub struct Invocation {
    /// Whether a diagnostic line is wanted on success.
    pub verbose: bool,
    /// The input sources, in order.
    pub inputs: Vec<String>,
    /// The output destination.
    pub output: String,
}

/// Why a command line was refused.
#[derive(Debug, Clone, Copy, PartialEq, Eq)]
pub enum UsageError {
    /// Fewer than two operands: at least one input and the output are needed.
    MissingOperands,
}

/// Whether the command line opens with the verbose flag.
pub open spec fn has_verbose_flag(args: Seq<String>) -> bool {
    args.len() > 0 && args[0]@ == "-v"@
}

/// The operands: the arguments after the verbose flag, if there is one.
pub open spec fn operands(args: Seq<String>) -> Seq<String> {
    if has_verbose_flag(args) {
        args.drop_first()
    } else {
        args
    }
}

/// Read the command line (without the program name).
pub fn parse_args(args: Vec<String>) -> (r: Result<Invocation, UsageError>)
    ensures
        r is Err <==> operands(args@).len() < 2,
        r is Ok ==> {
            let inv = r->Ok_0;
            &&& inv.verbose == has_verbose_flag(args@)
            &&& inv.inputs@ == operands(args@).drop_last()
            &&& inv.output == operands(args@).last()
        },
{
    let mut argv = args;
    let flag = "-v".to_owned();
    let verbose = argv.len() > 0 && argv[0] == flag;
    if verbose {
        argv.remove(0);
        assert(argv@ == args@.drop_first());
    }
    if argv.len() < 2 {
        return Err(UsageError::MissingOperands);
    }
    match argv.pop() {
        Some(output) => Ok(Invocation { verbose, inputs: argv, output }),
        None => Err(UsageError::MissingOperands),
    }
}

/// The sources' bytes one after another, in order.
pub open spec fn concatenation(sources: Seq<Seq<u8>>) -> Seq<u8>
    decreases sources.len(),
{
    if sources.len() == 0 {
        Seq::empty()
    } else {
        concatenation(sources.drop_last()) + sources.last()
    }
}

/// Views of the sources' contents.
pub open spec fn contents(sources: Seq<Vec<u8>>) -> Seq<Seq<u8>> {
    sources.map_values(|s: Vec<u8>| s@)
}

/// Join the contents of the input sources into one buffer, keeping the order
/// of the sources and of the bytes within each.
pub fn concat_sources(sources: &Vec<Vec<u8>>) -> (data: Vec<u8>)
    ensures
        data@ == concatenation(contents(sources@)),
{
    let mut data: Vec<u8> = Vec::new();
    let mut k: usize = 0;
    while k < sources.len()
        invariant
            k <= sources@.len(),
            data@ == concatenation(contents(sources@.take(k as int))),
        decreases sources@.len() - k,
    {
        let src = &sources[k];
        let ghost before = data@;
        let mut j: usize = 0;
        while j < src.len()
            invariant
                j <= src@.len(),
                data@ == before + src@.take(j as int),
            decreases src@.len() - j,
        {
            data.push(src[j]);
            j += 1;
            assert(src@.take(j as int) == src@.take(j - 1).push(src@[j - 1]));
        }
        proof {
            assert(src@.take(j as int) == src@);
            let next = contents(sources@.take(k + 1));
            assert(next.drop_last() == contents(sources@.take(k as int)));
            assert(next.last() == src@);
        }
        k += 1;
    }
    assert(sources@.take(k as int) == sources@);
    data
}

/// Encode the concatenated contents of the input sources: the byte stream
/// and the number of runs in it.
pub fn compress_sources(sources: &Vec<Vec<u8>>) -> (res: (Vec<u8>, usize))
    ensures
        res.0@ == encoded(concatenation(contents(sources@))),
        res.1 == runs_of(concatenation(contents(sources@))).len(),
{
    let data = concat_sources(sources);
    compress(&data)
}

} // verus!
