use xor_compress::cli::{compress_sources, concat_sources, parse_args, Invocation, UsageError};
use xor_compress::encoder::{compress, encode_runs};
use xor_compress::run::{serialize_runs, Run};

/// Rebuilds the input from an encoded stream, given its length.
fn decode_stream(bytes: &[u8], n: usize) -> Vec<u8> {
    let mut out = Vec::new();
    let mut v: u8 = 0;
    let mut p = 0;
    while out.len() < n {
        let control = bytes[p];
        p += 1;
        if control < 0x80 {
            for _ in 0..=control {
                v ^= bytes[p];
                p += 1;
                out.push(v);
            }
        } else {
            let size = control as usize - 127;
            let first = v ^ bytes[p];
            p += 1;
            out.push(first);
            for j in 0..size {
                out.push(if j % 2 == 0 { v } else { first });
            }
            v = *out.last().unwrap();
        }
    }
    assert_eq!(p, bytes.len());
    out
}

fn span(r: &Run) -> usize {
    match r {
        Run::Sequential { literals } => literals.len(),
        Run::Alternating { size, .. } => *size as usize + 1,
    }
}

fn sample_inputs() -> Vec<Vec<u8>> {
    let mut long_seq: Vec<u8> = (1..=130u32).map(|x| x as u8).collect();
    long_seq.extend_from_slice(&[9, 9, 9, 4, 9, 4]);
    let mut long_alt = vec![5u8];
    for j in 0..200 {
        long_alt.push(if j % 2 == 0 { 0 } else { 5 });
    }
    let mut mixed = Vec::new();
    for j in 0..700u32 {
        mixed.push(((j * 37) % 11) as u8 ^ ((j / 50) % 3) as u8);
    }
    vec![
        vec![],
        vec![0x42],
        vec![0, 0, 0],
        vec![1, 2, 3],
        vec![1, 2, 1],
        vec![7, 0, 7, 0, 9],
        vec![7, 0, 7, 5],
        vec![3, 3, 3, 3, 3, 3, 3],
        long_seq,
        long_alt,
        mixed,
    ]
}

#[test]
fn empty_input_gives_nothing() {
    assert_eq!(compress(&vec![]), (vec![], 0));
    assert!(encode_runs(&vec![]).is_empty());
}

#[test]
fn single_byte_is_one_sequential_run() {
    assert_eq!(compress(&vec![0x5a]), (vec![0x00, 0x5a], 1));
    assert_eq!(encode_runs(&vec![0xff]), vec![Run::Sequential { literals: vec![0xff] }]);
}

#[test]
fn three_zero_bytes_alternate() {
    assert_eq!(encode_runs(&vec![0, 0, 0]), vec![Run::Alternating { size: 2, xor_value: 0 }]);
    assert_eq!(compress(&vec![0, 0, 0]), (vec![0x81, 0x00], 1));
}

#[test]
fn distinct_bytes_are_one_sequential_run() {
    assert_eq!(encode_runs(&vec![1, 2, 3]), vec![Run::Sequential { literals: vec![0x01, 0x03, 0x01] }]);
    assert_eq!(compress(&vec![1, 2, 3]), (vec![0x02, 0x01, 0x03, 0x01], 1));
}

#[test]
fn lookahead_ends_sequential_run() {
    assert_eq!(
        encode_runs(&vec![1, 2, 1]),
        vec![Run::Sequential { literals: vec![1] }, Run::Alternating { size: 1, xor_value: 3 }]
    );
    assert_eq!(compress(&vec![1, 2, 1]), (vec![0x00, 0x01, 0x80, 0x03], 2));
}

#[test]
fn odd_cycle_keeps_state() {
    assert_eq!(compress(&vec![7, 0, 7, 0, 9]), (vec![130, 7, 0, 9], 2));
}

#[test]
fn even_cycle_moves_state() {
    assert_eq!(compress(&vec![7, 0, 7, 5]), (vec![129, 7, 0, 2], 2));
}

#[test]
fn sequential_run_capped_at_128() {
    let data: Vec<u8> = (1..=130u32).map(|x| x as u8).collect();
    let runs = encode_runs(&data);
    assert_eq!(runs.len(), 2);
    match &runs[0] {
        Run::Sequential { literals } => {
            assert_eq!(literals.len(), 128);
            assert_eq!(literals[0], 1);
            assert_eq!(literals[1], 1 ^ 2);
        }
        other => panic!("unexpected run {:?}", other),
    }
    assert_eq!(runs[1], Run::Sequential { literals: vec![128 ^ 129, 129 ^ 130] });
    let (out, count) = compress(&data);
    assert_eq!(count, 2);
    assert_eq!(out.len(), 132);
    assert_eq!(out[0], 127);
    assert_eq!(&out[129..], &[1, 1, 3]);
}

#[test]
fn alternating_run_capped_at_128() {
    let mut data = vec![5u8];
    for j in 0..200 {
        data.push(if j % 2 == 0 { 0 } else { 5 });
    }
    assert_eq!(
        encode_runs(&data),
        vec![Run::Alternating { size: 128, xor_value: 5 }, Run::Alternating { size: 71, xor_value: 5 }]
    );
    assert_eq!(compress(&data), (vec![255, 5, 198, 5], 2));
}

#[test]
fn control_byte_marks_run_kind() {
    for data in sample_inputs() {
        for r in encode_runs(&data) {
            let c = r.control();
            match &r {
                Run::Sequential { literals } => {
                    assert_eq!(c & 0x80, 0);
                    assert_eq!((c & 0x7f) as usize, literals.len() - 1);
                    assert!(literals.len() >= 1 && literals.len() <= 128);
                }
                Run::Alternating { size, .. } => {
                    assert_eq!(c & 0x80, 0x80);
                    assert_eq!(c as usize, *size as usize + 127);
                    assert!(*size >= 1 && *size <= 128);
                }
            }
        }
    }
}

#[test]
fn runs_partition_the_input() {
    for data in sample_inputs() {
        let runs = encode_runs(&data);
        let total: usize = runs.iter().map(span).sum();
        assert_eq!(total, data.len());
        let (out, count) = compress(&data);
        assert_eq!(count, runs.len());
        assert_eq!(out, serialize_runs(&runs));
    }
}

#[test]
fn encoding_round_trips() {
    for data in sample_inputs() {
        let (out, _) = compress(&data);
        assert_eq!(decode_stream(&out, data.len()), data);
    }
}

#[test]
fn sources_concatenate_before_encoding() {
    let sources = vec![vec![0xaa], vec![0xbb]];
    assert_eq!(concat_sources(&sources), vec![0xaa, 0xbb]);
    assert_eq!(compress_sources(&sources), compress(&vec![0xaa, 0xbb]));
    assert_eq!(compress_sources(&sources), (vec![0x01, 0xaa, 0x11], 1));
    assert_eq!(concat_sources(&vec![vec![], vec![1, 2], vec![], vec![3]]), vec![1, 2, 3]);
}

fn strings(args: &[&str]) -> Vec<String> {
    args.iter().map(|s| s.to_string()).collect()
}

#[test]
fn one_operand_is_a_usage_error() {
    assert_eq!(parse_args(strings(&["out.xor"])), Err(UsageError::MissingOperands));
    assert_eq!(parse_args(strings(&["-v", "out.xor"])), Err(UsageError::MissingOperands));
    assert_eq!(parse_args(strings(&[])), Err(UsageError::MissingOperands));
}

#[test]
fn operands_split_into_inputs_and_output() {
    assert_eq!(
        parse_args(strings(&["-v", "a", "b", "out.xor"])),
        Ok(Invocation { verbose: true, inputs: strings(&["a", "b"]), output: "out.xor".to_string() })
    );
    assert_eq!(
        parse_args(strings(&["a", "-v", "out.xor"])),
        Ok(Invocation { verbose: false, inputs: strings(&["a", "-v"]), output: "out.xor".to_string() })
    );
}
