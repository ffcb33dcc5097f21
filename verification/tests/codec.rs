use pcompress::decode::{decode, DecodeError, DecodedRecord};
use pcompress::diff::Diff;
use pcompress::encode::{encode, encode_step, export_diff, EncodeError};

fn mappings(records: Vec<DecodedRecord>) -> Vec<Vec<u8>> {
    records
        .into_iter()
        .map(|r| match r {
            DecodedRecord::Mapping(m) => m,
            DecodedRecord::Delta(_) => panic!("expected a mapping record"),
        })
        .collect()
}

fn deltas(records: Vec<DecodedRecord>) -> Vec<Diff> {
    records
        .into_iter()
        .map(|r| match r {
            DecodedRecord::Delta(d) => d,
            DecodedRecord::Mapping(_) => panic!("expected a delta record"),
        })
        .collect()
}

#[test]
fn two_step_example_bytes_and_round_trip() {
    // encode [0,0,1] then [0,1,1]: the second record's delta moves node 1 to
    // partition 1
    let snapshots = vec![vec![0usize, 0, 1], vec![0usize, 1, 1]];
    let bytes = encode(&snapshots, false).unwrap();
    assert_eq!(
        bytes,
        vec![
            0, 0, 0, 1, // record 1, partition 0: nodes 0 and 1
            255, 254, 1, 0, 2, // record 1, skip to partition 1: node 2
            255, 255, // end of record 1
            255, 254, 1, 0, 1, // record 2, skip to partition 1: node 1
            255, 255, // end of record 2
        ]
    );
    let full = mappings(decode(&bytes, 0, false).unwrap());
    assert_eq!(full, vec![vec![0u8, 0, 1], vec![0u8, 1, 1]]);
    let ds = deltas(decode(&bytes, 0, true).unwrap());
    assert_eq!(ds.len(), 2);
    assert_eq!(ds[0].diff, vec![vec![0, 1], vec![2]]);
    assert_eq!(ds[1].diff, vec![vec![], vec![1]]);
}

#[test]
fn skip_runs_carry_the_cursor() {
    // a delta touching partitions 0, 5 and 9 out of 10: exactly two skip
    // escapes, advancing the cursor by 5 and then by 4
    let mut d = Diff::with_capacity(10);
    d.add(0, 7);
    d.add(5, 8);
    d.add(9, 9);
    let bytes = export_diff(&d).unwrap();
    assert_eq!(
        bytes,
        vec![0, 7, 255, 254, 5, 0, 8, 255, 254, 4, 0, 9, 255, 255]
    );
    let escapes: Vec<usize> = (0..bytes.len() - 1)
        .filter(|&i| bytes[i] == 255 && bytes[i + 1] == 254)
        .collect();
    assert_eq!(escapes.len(), 2);
    // replaying the record assigns partitions 0, 5 and 9
    let full = mappings(decode(&bytes, 0, false).unwrap());
    assert_eq!(full.len(), 1);
    assert_eq!(full[0][7], 0);
    assert_eq!(full[0][8], 5);
    assert_eq!(full[0][9], 9);
}

#[test]
fn first_group_beyond_partition_zero_needs_an_escape() {
    let snapshots = vec![vec![2usize, 2]];
    let bytes = encode(&snapshots, false).unwrap();
    assert_eq!(bytes, vec![255, 254, 2, 0, 0, 0, 1, 255, 255]);
    let full = mappings(decode(&bytes, 0, false).unwrap());
    assert_eq!(full, vec![vec![2u8, 2]]);
}

#[test]
fn growing_snapshots_round_trip() {
    let snapshots = vec![
        vec![1usize],
        vec![1usize, 2],
        vec![2usize, 2, 3],
        vec![2usize, 2, 3, 0],
    ];
    let bytes = encode(&snapshots, false).unwrap();
    let full = mappings(decode(&bytes, 0, false).unwrap());
    let expected: Vec<Vec<u8>> = snapshots
        .iter()
        .map(|s| s.iter().map(|&l| l as u8).collect())
        .collect();
    assert_eq!(full, expected);
}

#[test]
fn unchanged_step_emits_an_empty_record() {
    let snapshots = vec![vec![0usize, 1], vec![0usize, 1]];
    let bytes = encode(&snapshots, false).unwrap();
    assert_eq!(&bytes[bytes.len() - 2..], &[255, 255]);
    let full = mappings(decode(&bytes, 0, false).unwrap());
    assert_eq!(full, vec![vec![0u8, 1], vec![0u8, 1]]);
}

#[test]
fn relabel_shrinks_two_partition_swaps() {
    // step 2 swaps the roles of partitions 0 and 1 wholesale; the relabel
    // heuristic recognizes this and emits an empty delta instead
    let snapshots = vec![vec![0usize, 0, 1, 1], vec![1usize, 1, 0, 0]];
    let plain = encode(&snapshots, false).unwrap();
    let extreme = encode(&snapshots, true).unwrap();
    assert!(extreme.len() < plain.len());
    // the adopted snapshot for step 2 is the relabelled one, and decoding
    // still reproduces a self-consistent sequence
    let full = mappings(decode(&extreme, 0, false).unwrap());
    assert_eq!(full, vec![vec![0u8, 0, 1, 1], vec![0u8, 0, 1, 1]]);
}

#[test]
fn relabel_leaves_three_partition_changes_alone() {
    let snapshots = vec![vec![0usize, 1, 2], vec![1usize, 2, 0]];
    let plain = encode(&snapshots, false).unwrap();
    let extreme = encode(&snapshots, true).unwrap();
    assert_eq!(plain, extreme);
}

#[test]
fn selective_replay_matches_full_replay() {
    let snapshots = vec![
        vec![0usize, 0, 0],
        vec![0usize, 1, 0],
        vec![0usize, 1, 2],
        vec![1usize, 1, 2],
    ];
    let bytes = encode(&snapshots, false).unwrap();
    let all = mappings(decode(&bytes, 0, false).unwrap());
    assert_eq!(all.len(), 4);
    for k in 1..4usize {
        let one = mappings(decode(&bytes, k, false).unwrap());
        assert_eq!(one, vec![all[k].clone()]);
    }
    let none = decode(&bytes, 9, false).unwrap();
    assert!(none.is_empty());
}

#[test]
fn encode_step_returns_bytes_and_adopted_snapshot() {
    let prev = vec![0usize, 0];
    let cur = vec![0usize, 1];
    let (bytes, adopted) = encode_step(&prev, &cur, false).unwrap();
    assert_eq!(bytes, vec![255, 254, 1, 0, 1, 255, 255]);
    assert_eq!(adopted, cur);
}

#[test]
fn labels_beyond_one_byte_are_rejected() {
    let snapshots = vec![vec![0usize, 254]];
    assert_eq!(encode(&snapshots, false), Err(EncodeError::LabelOutOfRange));
}

#[test]
fn snapshots_colliding_with_reserved_words_are_rejected() {
    let snapshots = vec![vec![0usize; 65535]];
    assert_eq!(encode(&snapshots, false), Err(EncodeError::NodeOutOfRange));
}

#[test]
fn export_rejects_reserved_node_identifiers() {
    let mut d = Diff::new();
    d.add(0, 65534);
    assert_eq!(export_diff(&d), Err(EncodeError::NodeOutOfRange));
}

#[test]
fn export_rejects_skip_runs_beyond_one_byte() {
    let mut d = Diff::new();
    d.add(300, 1);
    assert_eq!(export_diff(&d), Err(EncodeError::SkipRunTooLong));
}

#[test]
fn decoder_rejects_cursor_overflow() {
    let stream = vec![255u8, 254, 200, 255, 254, 100];
    assert_eq!(decode(&stream, 0, false), Err(DecodeError::CursorOverflow));
}

#[test]
fn empty_stream_decodes_to_nothing() {
    let stream: Vec<u8> = Vec::new();
    assert!(decode(&stream, 0, false).unwrap().is_empty());
}

#[test]
fn trailing_partial_record_is_not_emitted() {
    let stream = vec![0u8, 1];
    assert!(decode(&stream, 0, false).unwrap().is_empty());
}

#[test]
fn selective_replay_works_in_delta_mode() {
    let snapshots = vec![vec![0usize, 0], vec![0usize, 1], vec![1usize, 1]];
    let bytes = encode(&snapshots, false).unwrap();
    let all = deltas(decode(&bytes, 0, true).unwrap());
    let one = deltas(decode(&bytes, 2, true).unwrap());
    assert_eq!(one.len(), 1);
    assert_eq!(one[0], all[2]);
    assert_eq!(one[0].diff, vec![vec![], vec![0]]);
}
