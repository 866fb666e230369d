use bytes::BytesMut;
use scalpel::intelhex::{
    bin_as_hex, bin_to_records, convert_hex2bin, hex_record2bin, records_to_bin, HexError,
    HexRecord,
};

const SAMPLE: &str = ":1000000001000000000000000200000000000000ED
:1000100003000000000000000400000000000000D9
:1000200005000000000000000600000000000000C5
:1000300007000000000000000800000000000000B1
:1000400009000000000000000A000000000000009D
:100050000B00000000000000FE0000000000000097
:00000001FF";

fn sample_bytes() -> BytesMut {
    let mut v: Vec<u8> = Vec::new();
    for x in [1u64, 2, 3, 4, 5, 6, 7, 8, 9, 10, 11, 254] {
        v.extend_from_slice(&x.to_le_bytes());
    }
    BytesMut::from(v)
}

#[test]
fn test_hex_convert() {
    let res = convert_hex2bin(SAMPLE);
    println!("{:?}", res);
    assert!(res.is_ok());
}

#[test]
fn hex_convert_places_every_record() {
    let res = convert_hex2bin(SAMPLE).unwrap();
    assert_eq!(&res[..], &sample_bytes()[..]);
}

#[test]
fn test_eof_record() {
    let record = HexRecord::EndOfFile;
    let buf_vec = [0, 0];
    let buf = BytesMut::from(&buf_vec[..]);
    let res = hex_record2bin(record, buf.clone());
    assert_eq!(buf, res.unwrap());
}

#[test]
fn test_bad_record() {
    let buf_vec = [0, 0];
    let buf = BytesMut::from(&buf_vec[..]);
    let record = HexRecord::ExtendedLinearAddress(8);
    let res = hex_record2bin(record, buf);
    assert!(res.is_err());
}

#[test]
fn data_record_grows_with_zeros() {
    let buf = BytesMut::from(&[1u8, 2][..]);
    let record = HexRecord::Data { offset: 4, value: vec![9, 8] };
    let res = hex_record2bin(record, buf).unwrap();
    assert_eq!(&res[..], &[1u8, 2, 0, 0, 9, 8][..]);
}

#[test]
fn data_record_overwrites_inside() {
    let buf = BytesMut::from(&[1u8, 2, 3, 4, 5][..]);
    let record = HexRecord::Data { offset: 1, value: vec![7, 7] };
    let res = hex_record2bin(record, buf).unwrap();
    assert_eq!(&res[..], &[1u8, 7, 7, 4, 5][..]);
}

#[test]
fn test_write_hex() {
    let hex = SAMPLE.to_string();
    let content = bin_as_hex(sample_bytes()).expect("Failed to write bytes to hex file");
    println!("{}", content);
    assert_eq!(content, hex);
}

#[test]
fn bad_records() {
    let bad_hex = ":10000000FFFFFFFFFFFFFFFFFFFFFFFFFFFFFFFFED
:10001000FFFFFFFFFFFFFFFFFFFFFFFFFFFFFFFFD9
:00000001FF";
    let res = convert_hex2bin(bad_hex);
    assert!(res.is_err());
    assert_eq!(res.unwrap_err(), HexError::Malformed);
}

#[test]
fn truncated_payload_fails() {
    let text = ":10000000010000000000000002000000000000\n:00000001FF";
    assert_eq!(convert_hex2bin(text).unwrap_err(), HexError::Malformed);
}

#[test]
fn unknown_record_type_fails() {
    let text = ":1000000001000000000000000200000000000000ED\n:020000040008F2\n:00000001FF";
    assert!(convert_hex2bin(text).is_err());
    let text = ":020000040008F2\n:00000001FF";
    assert_eq!(convert_hex2bin(text).unwrap_err(), HexError::UnknownRecord);
}

#[test]
fn records_after_end_of_file_are_ignored() {
    let text = ":0100000042BD\n:00000001FF\n:020000040008F2";
    assert_eq!(&convert_hex2bin(text).unwrap()[..], &[0x42u8][..]);
}

#[test]
fn empty_input_decodes_to_empty() {
    assert_eq!(convert_hex2bin("").unwrap().len(), 0);
    assert_eq!(convert_hex2bin(":00000001FF").unwrap().len(), 0);
}

#[test]
fn empty_buffer_encodes_to_end_of_file_only() {
    assert_eq!(bin_as_hex(BytesMut::new()).unwrap(), ":00000001FF");
}

#[test]
fn records_split_by_sixteen() {
    let b = BytesMut::from(vec![5u8; 33]);
    let recs = bin_to_records(b);
    assert_eq!(recs.len(), 4);
    assert_eq!(recs[0], HexRecord::Data { offset: 0, value: vec![5u8; 16] });
    assert_eq!(recs[1], HexRecord::Data { offset: 16, value: vec![5u8; 16] });
    assert_eq!(recs[2], HexRecord::Data { offset: 32, value: vec![5u8; 1] });
    assert_eq!(recs[3], HexRecord::EndOfFile);
}

#[test]
fn records_fold_in_order() {
    let items = vec![
        Some(HexRecord::Data { offset: 2, value: vec![1] }),
        Some(HexRecord::Data { offset: 0, value: vec![3] }),
        Some(HexRecord::EndOfFile),
    ];
    assert_eq!(&records_to_bin(items).unwrap()[..], &[3u8, 0, 1][..]);
    let items = vec![Some(HexRecord::Data { offset: 0, value: vec![1] }), None];
    assert_eq!(records_to_bin(items).unwrap_err(), HexError::Malformed);
}

#[test]
fn round_trip_various_lengths() {
    for n in [0usize, 1, 15, 16, 17, 100, 4096] {
        let v: Vec<u8> = (0..n).map(|i| (i * 7 + 3) as u8).collect();
        let text = bin_as_hex(BytesMut::from(v.clone())).unwrap();
        let back = convert_hex2bin(&text).unwrap();
        assert_eq!(&back[..], &v[..]);
    }
}

#[test]
fn round_trip_largest_buffer() {
    let v: Vec<u8> = (0..65536usize).map(|i| (i % 251) as u8).collect();
    let text = bin_as_hex(BytesMut::from(v.clone())).unwrap();
    assert_eq!(&convert_hex2bin(&text).unwrap()[..], &v[..]);
}

#[test]
fn too_large_buffer_is_refused() {
    let v = vec![0u8; 65537];
    assert_eq!(bin_as_hex(BytesMut::from(v)).unwrap_err(), HexError::TooLarge);
}
