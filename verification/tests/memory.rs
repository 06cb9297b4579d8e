use stele_engine::memory::{
    decode, encode, fnv1a, magic, FormatError, PredRecord, Record,
};

fn sample() -> Vec<Record> {
    vec![
        Record {
            input: "nihao".into(),
            text: "你好".into(),
            count: 3,
            decayed_milli: 2_500,
            last_used: 1_767_225_600,
        },
        Record {
            input: "shijie".into(),
            text: "世界".into(),
            count: 1,
            decayed_milli: 1_000,
            last_used: 1_767_225_000,
        },
    ]
}

fn sample_preds() -> Vec<PredRecord> {
    vec![
        PredRecord {
            ctx1: String::new(),
            ctx2: "微信".into(),
            text: "朋友圈".into(),
            count: 4,
            decayed_milli: 3_200,
            last_used: 1_767_225_600,
        },
        PredRecord {
            ctx1: "今天".into(),
            ctx2: "微信".into(),
            text: "朋友圈".into(),
            count: 2,
            decayed_milli: 1_800,
            last_used: 1_767_225_500,
        },
    ]
}

#[test]
fn round_trip_is_exact() {
    let recs = sample();
    let preds = sample_preds();
    let bytes = encode(&recs, &preds);
    assert_eq!(decode(&bytes).unwrap(), (recs, preds));
}

#[test]
fn encoding_is_a_pure_function_of_the_records() {
    assert_eq!(
        encode(&sample(), &sample_preds()),
        encode(&sample(), &sample_preds())
    );
}

#[test]
fn empty_tables_round_trip() {
    let bytes = encode(&[], &[]);
    assert_eq!(decode(&bytes).unwrap(), (Vec::new(), Vec::new()));
}

#[test]
fn the_two_sections_do_not_share_a_key_space() {
    let recs = sample();
    let preds = sample_preds();
    let (got_recs, got_preds) = decode(&encode(&recs, &preds)).unwrap();
    assert_eq!(got_recs.len(), 2);
    assert_eq!(got_preds.len(), 2);
    assert_eq!(got_preds[0].ctx1, "");
}

#[test]
fn rejects_a_truncated_file() {
    let bytes = encode(&sample(), &sample_preds());
    for cut in [0, 1, 7, 8, 12, bytes.len() - 1] {
        assert!(decode(&bytes[..cut]).is_err(), "截断到 {cut} 字节应当报错");
    }
}

#[test]
fn rejects_a_flipped_byte() {
    let mut bytes = encode(&sample(), &sample_preds());
    bytes[20] ^= 0x01;
    assert!(matches!(
        decode(&bytes),
        Err(FormatError::ChecksumMismatch { .. })
    ));
}

#[test]
fn rejects_a_wrong_magic() {
    let mut bytes = encode(&[], &[]);
    bytes[0] = b'X';
    assert!(decode(&bytes).is_err());
}

#[test]
fn rejects_the_p4a_version_one_layout() {
    let mut body = Vec::new();
    body.extend_from_slice(&magic());
    body.extend_from_slice(&1_u32.to_le_bytes());
    body.extend_from_slice(&0_u32.to_le_bytes());
    let sum = fnv1a(&body);
    body.extend_from_slice(&sum.to_le_bytes());
    assert_eq!(decode(&body), Err(FormatError::UnsupportedVersion(1)));
}

#[test]
fn rejects_an_unsupported_version() {
    let mut body = Vec::new();
    body.extend_from_slice(&magic());
    body.extend_from_slice(&99_u32.to_le_bytes());
    body.extend_from_slice(&0_u32.to_le_bytes());
    let sum = fnv1a(&body);
    body.extend_from_slice(&sum.to_le_bytes());
    assert_eq!(decode(&body), Err(FormatError::UnsupportedVersion(99)));
}

#[test]
fn rejects_trailing_garbage() {
    let mut body = encode(&[], &[]);
    body.truncate(body.len() - 8);
    body.push(0xAB);
    let sum = fnv1a(&body);
    body.extend_from_slice(&sum.to_le_bytes());
    assert!(decode(&body).is_err(), "尾部多余字节必须被报出来");
}

#[test]
fn the_checksum_is_fnv_1a() {
    assert_eq!(fnv1a(b""), 0xcbf2_9ce4_8422_2325);
    assert_eq!(fnv1a(b"a"), 0xaf63_dc4c_8601_ec8c);
    assert_eq!(fnv1a(b"foobar"), 0x8594_4171_f739_67e8);
}

#[test]
fn each_fault_has_its_message() {
    assert_eq!(decode(b"short"), Err(FormatError::Truncated));
    let mut other = magic();
    other[7] = b'!';
    other.extend_from_slice(&2_u32.to_le_bytes());
    other.extend_from_slice(&0_u32.to_le_bytes());
    other.extend_from_slice(&0_u32.to_le_bytes());
    let sum = fnv1a(&other);
    other.extend_from_slice(&sum.to_le_bytes());
    assert_eq!(decode(&other), Err(FormatError::NotMemoryFile));
    assert!(FormatError::NotMemoryFile.message().contains("魔数"));
    assert!(FormatError::UnsupportedVersion(99).message().contains("99"));
    assert!(FormatError::Truncated.message().contains("截断"));
}

#[test]
fn a_text_that_is_no_utf8_is_refused() {
    let one = vec![Record {
        input: "a".into(),
        text: "b".into(),
        count: 1,
        decayed_milli: 1,
        last_used: 1,
    }];
    let mut body = encode(&one, &[]);
    body.truncate(body.len() - 8);
    let at = body.iter().rposition(|x| *x == b'a').unwrap();
    body[at] = 0xff;
    let sum = fnv1a(&body);
    body.extend_from_slice(&sum.to_le_bytes());
    assert_eq!(decode(&body), Err(FormatError::BadText));
}

#[test]
fn every_beginning_of_a_file_is_refused() {
    let bytes = encode(&sample(), &sample_preds());
    for cut in 0..bytes.len() {
        let got = decode(&bytes[..cut]);
        assert!(got.is_err(), "{cut}");
        if cut < 8 {
            assert_eq!(got, Err(FormatError::Truncated));
        }
    }
}

#[test]
fn every_changed_byte_is_found() {
    let bytes = encode(&sample(), &sample_preds());
    for i in 0..bytes.len() {
        let mut other = bytes.clone();
        other[i] ^= 0x40;
        match decode(&other) {
            Err(FormatError::NotMemoryFile) => assert!(i < 8, "{i}"),
            Err(FormatError::ChecksumMismatch { .. }) => assert!(i >= 8, "{i}"),
            got => panic!("{i}: {got:?}"),
        }
    }
}

#[test]
fn a_file_that_was_read_is_written_as_it_was() {
    let bytes = encode(&sample(), &sample_preds());
    let (records, preds) = decode(&bytes).unwrap();
    assert_eq!(encode(&records, &preds), bytes);
}
