//! End-to-end exercises of the handoff protocol: framing, staging, the
//! notified range, acknowledgement, and cleanup.

use shm_handoff::batch::{Batch, Column, ColumnType, Field};
use shm_handoff::frame::{decode, encode, DecodeError, EncodeError};
use shm_handoff::protocol::{
    ack_outcome, ingest, make_notification, produce, stage_batch, AckOutcome, ByteRange,
    ProduceError, RegionLifecycle, RegionState,
};
use shm_handoff::staging::{SizedWriterBuffer, StagingError};

fn field(name: &str, ty: ColumnType) -> Field {
    Field { name: name.as_bytes().to_vec(), ty, nullable: false }
}

fn example_batch() -> Batch {
    Batch {
        fields: vec![
            field("name", ColumnType::Utf8),
            field("age", ColumnType::Int32),
            field("adult", ColumnType::Boolean),
        ],
        columns: vec![
            Column::Utf8(vec![b"alice".to_vec(), b"bob".to_vec(), b"charlie".to_vec()]),
            Column::Int32(vec![16, 17, 18]),
            Column::Boolean(vec![false, false, true]),
        ],
        num_rows: 3,
    }
}

fn assert_batches_equal(a: &Batch, b: &Batch) {
    assert_eq!(a.num_rows, b.num_rows);
    assert_eq!(a.fields.len(), b.fields.len());
    assert_eq!(a.columns.len(), b.columns.len());
    for (fa, fb) in a.fields.iter().zip(b.fields.iter()) {
        assert_eq!(fa.name, fb.name);
        assert_eq!(fa.ty, fb.ty);
        assert_eq!(fa.nullable, fb.nullable);
    }
    for (ca, cb) in a.columns.iter().zip(b.columns.iter()) {
        match (ca, cb) {
            (Column::Utf8(va), Column::Utf8(vb)) => assert_eq!(va, vb),
            (Column::Int32(va), Column::Int32(vb)) => assert_eq!(va, vb),
            (Column::Boolean(va), Column::Boolean(vb)) => assert_eq!(va, vb),
            _ => panic!("column types differ"),
        }
    }
}

#[test]
fn round_trip_example_scenario() {
    let batch = example_batch();
    assert!(batch.is_well_formed());
    let frame = encode(&batch).expect("well-formed batch must encode");
    let end = frame.len();

    let notification = make_notification(String::from("/tmp/staging-demo"), end).unwrap();
    let range = notification.range.expect("range-tracking variant sends a range");
    assert_eq!(range.start, 0);
    assert_eq!(range.end as usize, end);

    let (resp, decoded) = ingest(&frame, notification.range);
    assert!(resp.success);
    let got = decoded.expect("positive acknowledgement carries the batch");
    assert_batches_equal(&batch, &got);

    match &got.columns[0] {
        Column::Utf8(vs) => {
            assert_eq!(vs, &vec![b"alice".to_vec(), b"bob".to_vec(), b"charlie".to_vec()]);
        }
        _ => panic!("first column must be utf8"),
    }
    match &got.columns[1] {
        Column::Int32(vs) => assert_eq!(vs, &vec![16, 17, 18]),
        _ => panic!("second column must be int32"),
    }
    match &got.columns[2] {
        Column::Boolean(vs) => assert_eq!(vs, &vec![false, false, true]),
        _ => panic!("third column must be boolean"),
    }

    let mut life = RegionLifecycle::stage();
    life.mark_notified();
    life.record_ack(ack_outcome(&resp));
    life.cleanup();
    assert_eq!(life.state, RegionState::Deleted);
    assert!(!life.file_exists);
}

#[test]
fn range_bounded_region_decodes_like_exact_region() {
    let batch = example_batch();
    let (region, end) = stage_batch(&batch, 4 * 1024 * 1024).expect("frame fits the region");
    assert!(end <= 4 * 1024 * 1024);

    // What a consumer maps from the pre-sized file: the frame, then padding.
    let mut mapped = region.as_written().clone();
    assert_eq!(mapped.len(), end);
    mapped.resize(4096, 0);

    let with_range = ingest(&mapped, Some(ByteRange { start: 0, end: end as i32 }));
    assert!(with_range.0.success);

    let exact = encode(&batch).unwrap();
    let whole_file = ingest(&exact, None);
    assert!(whole_file.0.success);

    assert_batches_equal(&with_range.1.unwrap(), &whole_file.1.unwrap());
}

#[test]
fn truncated_range_fails_and_file_is_retained() {
    let batch = example_batch();
    let frame = encode(&batch).unwrap();
    let half = frame.len() / 2;

    let (resp, decoded) = ingest(&frame, Some(ByteRange { start: 0, end: half as i32 }));
    assert!(!resp.success);
    assert!(decoded.is_none());

    let mut life = RegionLifecycle::stage();
    life.mark_notified();
    life.record_ack(ack_outcome(&resp));
    assert_eq!(life.state, RegionState::AckedFailure);
    life.cleanup();
    assert_eq!(life.state, RegionState::Retained);
    assert!(life.file_exists);
}

#[test]
fn every_truncation_of_a_frame_fails_to_decode() {
    let batch = example_batch();
    let frame = encode(&batch).unwrap();
    for end in 0..frame.len() {
        assert!(decode(&frame[..end]).is_err(), "prefix of {} bytes decoded", end);
    }
    assert!(decode(&frame).is_ok());
}

#[test]
fn cleanup_gating_on_absent_acknowledgement() {
    let mut life = RegionLifecycle::stage();
    life.mark_notified();
    life.record_ack(AckOutcome::ChannelError);
    assert_eq!(life.state, RegionState::ChannelFailed);
    assert!(life.file_exists);
    life.cleanup();
    assert_eq!(life.state, RegionState::Retained);
    assert!(life.file_exists);
}

#[test]
fn produce_stages_and_notifies_in_order() {
    let batch = example_batch();
    let (region, notification, life) =
        produce(&batch, 4096, String::from("/tmp/staging-produce")).unwrap();
    let frame = encode(&batch).unwrap();
    assert_eq!(region.as_written(), &frame);
    assert_eq!(notification.file_name, "/tmp/staging-produce");
    let range = notification.range.unwrap();
    assert_eq!(range.start, 0);
    assert_eq!(range.end as usize, frame.len());
    assert_eq!(life.state, RegionState::Notified);
    assert!(life.file_exists);
}

#[test]
fn produce_refuses_a_region_smaller_than_the_frame() {
    let batch = example_batch();
    let err = produce(&batch, 8, String::from("/tmp/small")).unwrap_err();
    assert_eq!(err, ProduceError::Staging(StagingError::RegionFull));
}

#[test]
fn mismatched_column_length_is_rejected() {
    let mut batch = example_batch();
    batch.columns[1] = Column::Int32(vec![16, 17]);
    assert!(!batch.is_well_formed());
    assert_eq!(encode(&batch).unwrap_err(), EncodeError::Inconsistent);
}

#[test]
fn mismatched_column_type_is_rejected() {
    let mut batch = example_batch();
    batch.columns[2] = Column::Int32(vec![0, 0, 1]);
    assert_eq!(encode(&batch).unwrap_err(), EncodeError::Inconsistent);
}

#[test]
fn duplicate_field_names_are_rejected() {
    let mut batch = example_batch();
    batch.fields[1] = field("name", ColumnType::Int32);
    assert_eq!(encode(&batch).unwrap_err(), EncodeError::Inconsistent);
}

#[test]
fn decode_error_kinds() {
    assert_eq!(decode(&[]).unwrap_err(), DecodeError::TooShort);
    assert_eq!(decode(&[0u8; 27]).unwrap_err(), DecodeError::TooShort);

    let bad_magic = [0u8; 28];
    assert_eq!(decode(&bad_magic).unwrap_err(), DecodeError::BadMagic);

    let batch = example_batch();
    let mut frame = encode(&batch).unwrap();
    let mut wrong_total = frame.clone();
    wrong_total[4] = wrong_total[4].wrapping_add(1);
    assert_eq!(decode(&wrong_total).unwrap_err(), DecodeError::LengthMismatch);

    // Claim one field in an otherwise empty body.
    let empty = Batch { fields: vec![], columns: vec![], num_rows: 0 };
    let mut claims_field = encode(&empty).unwrap();
    claims_field[12] = 1;
    assert_eq!(decode(&claims_field).unwrap_err(), DecodeError::Malformed);

    // A boolean encoded with a byte other than 0 or 1 is not canonical.
    let last = frame.len() - 1;
    frame[last] = 2;
    assert_eq!(decode(&frame).unwrap_err(), DecodeError::Malformed);
}

#[test]
fn ingest_rejects_bad_ranges() {
    let frame = encode(&example_batch()).unwrap();
    let cases = [
        ByteRange { start: -1, end: frame.len() as i32 },
        ByteRange { start: 5, end: 4 },
        ByteRange { start: 0, end: frame.len() as i32 + 1 },
    ];
    for range in cases {
        let (resp, decoded) = ingest(&frame, Some(range));
        assert!(!resp.success);
        assert!(decoded.is_none());
    }
}

#[test]
fn writer_counts_bytes_and_respects_capacity() {
    let mut w = SizedWriterBuffer::new(10);
    assert_eq!(w.bytes_written(), 0);
    assert_eq!(w.capacity_bytes(), 10);
    assert_eq!(w.write(b"hello").unwrap(), 5);
    assert_eq!(w.write(b" you").unwrap(), 4);
    w.flush();
    assert_eq!(w.bytes_written(), 9);
    assert_eq!(w.write(b"!!").unwrap_err(), StagingError::RegionFull);
    assert_eq!(w.bytes_written(), 9);
    assert_eq!(w.as_written().as_slice(), b"hello you");
}

#[test]
fn notification_range_overflow_is_refused() {
    let too_far = (i32::MAX as usize) + 1;
    let err = make_notification(String::from("/tmp/wide"), too_far).unwrap_err();
    assert_eq!(err, ProduceError::RangeOverflow);
    let ok = make_notification(String::from("/tmp/wide"), i32::MAX as usize).unwrap();
    assert_eq!(ok.range.unwrap().end, i32::MAX);
}

#[test]
fn empty_and_edgy_batches_round_trip() {
    let cases = vec![
        Batch { fields: vec![], columns: vec![], num_rows: 0 },
        Batch { fields: vec![], columns: vec![], num_rows: 7 },
        Batch {
            fields: vec![field("s", ColumnType::Utf8)],
            columns: vec![Column::Utf8(vec![b"".to_vec(), b"x".to_vec()])],
            num_rows: 2,
        },
        Batch {
            fields: vec![field("i", ColumnType::Int32), field("b", ColumnType::Boolean)],
            columns: vec![
                Column::Int32(vec![i32::MIN, -1, 0, i32::MAX]),
                Column::Boolean(vec![true, true, false, false]),
            ],
            num_rows: 4,
        },
        Batch {
            fields: vec![Field { name: b"n".to_vec(), ty: ColumnType::Utf8, nullable: true }],
            columns: vec![Column::Utf8(vec![])],
            num_rows: 0,
        },
    ];
    for batch in &cases {
        let frame = encode(batch).expect("edge batch must encode");
        let got = decode(&frame).expect("edge batch must decode");
        assert_batches_equal(batch, &got);
    }
}

#[test]
fn frame_layout_exact_bytes() {
    // An empty batch is all header: magic "SHM1", total length 28, zero
    // fields, zero rows, every count little-endian over eight bytes.
    let empty = Batch { fields: vec![], columns: vec![], num_rows: 0 };
    let frame = encode(&empty).unwrap();
    let mut expected = vec![0x53u8, 0x48, 0x4d, 0x31];
    expected.extend_from_slice(&[28, 0, 0, 0, 0, 0, 0, 0]);
    expected.extend_from_slice(&[0; 16]);
    assert_eq!(frame, expected);

    // One boolean field "b", one row holding `true`.
    let one = Batch {
        fields: vec![Field { name: b"b".to_vec(), ty: ColumnType::Boolean, nullable: false }],
        columns: vec![Column::Boolean(vec![true])],
        num_rows: 1,
    };
    let frame = encode(&one).unwrap();
    let mut expected = vec![0x53u8, 0x48, 0x4d, 0x31];
    expected.extend_from_slice(&[40, 0, 0, 0, 0, 0, 0, 0]); // total: 28 + 11 + 1
    expected.extend_from_slice(&[1, 0, 0, 0, 0, 0, 0, 0]); // one field
    expected.extend_from_slice(&[1, 0, 0, 0, 0, 0, 0, 0]); // one row
    expected.extend_from_slice(&[1, 0, 0, 0, 0, 0, 0, 0]); // name length 1
    expected.push(b'b'); // name
    expected.push(2); // boolean type tag
    expected.push(0); // not nullable
    expected.push(1); // the one value: true
    assert_eq!(frame, expected);

    // A negative integer is stored as its little-endian two's complement.
    let neg = Batch {
        fields: vec![Field { name: b"i".to_vec(), ty: ColumnType::Int32, nullable: false }],
        columns: vec![Column::Int32(vec![-2])],
        num_rows: 1,
    };
    let frame = encode(&neg).unwrap();
    assert_eq!(&frame[frame.len() - 4..], &[0xfe, 0xff, 0xff, 0xff]);
}

#[test]
fn frame_written_in_chunks_still_decodes() {
    let batch = example_batch();
    let frame = encode(&batch).unwrap();
    let mut w = SizedWriterBuffer::new(frame.len());
    let (a, b) = frame.split_at(10);
    assert_eq!(w.write(a).unwrap(), 10);
    assert_eq!(w.write(b).unwrap(), frame.len() - 10);
    w.flush();
    assert_eq!(w.bytes_written(), frame.len());
    let (resp, got) = ingest(w.as_written(), None);
    assert!(resp.success);
    assert_batches_equal(&batch, &got.unwrap());
}
