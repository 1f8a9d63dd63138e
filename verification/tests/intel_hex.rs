//! Host-side checks for the Intel HEX path.

use dmx_piggy::firmware::{is_intel_hex, HexError, HexReader, RecordKind, MAX_RECORD_PAYLOAD};

// One data record (three bytes at 0x0000) followed by the EOF record.
// Data checksum: 03+00+00+00+01+02+03 = 0x09, so the trailing byte is 0xF7.
const SAMPLE: &[u8] = b":03000000010203F7\r\n:00000001FF\r\n";

#[test]
fn accepts_valid_image() {
    assert!(is_intel_hex(SAMPLE));
}

#[test]
fn rejects_non_hex() {
    assert!(!is_intel_hex(b""));
    assert!(!is_intel_hex(b"not intel hex"));
    // Starts correctly but never terminates: the missing EOF record must fail.
    assert!(!is_intel_hex(b":03000000010203F7"));
}

#[test]
fn decodes_records_in_order() {
    let mut reader = HexReader::new(SAMPLE);
    let mut payload = [0u8; 255];

    let record = reader.next(&mut payload).unwrap().unwrap();
    assert_eq!(record.kind, RecordKind::Data);
    assert_eq!(record.address, 0x0000);
    assert_eq!(record.len, 3);
    assert_eq!(&payload[..3], &[0x01, 0x02, 0x03]);

    let record = reader.next(&mut payload).unwrap().unwrap();
    assert_eq!(record.kind, RecordKind::Eof);

    assert!(reader.next(&mut payload).is_none());
}

#[test]
fn rejects_corrupt_checksum() {
    // Same record as SAMPLE with the checksum byte off by one.
    let corrupt = b":03000000010203F6\r\n";
    let mut reader = HexReader::new(corrupt);
    let mut payload = [0u8; 255];
    assert_eq!(reader.next(&mut payload), Some(Err(HexError::BadChecksum)));
}

#[test]
fn reports_short_payload_buffer() {
    let mut reader = HexReader::new(SAMPLE);
    let mut payload = [0u8; 2]; // smaller than the 3-byte record
    assert_eq!(reader.next(&mut payload), Some(Err(HexError::BufferTooSmall)));
}

#[test]
fn image_check_ignores_case_and_needs_a_leading_mark() {
    assert!(is_intel_hex(b":03000000010203f7\n:00000001ff"));
    assert!(is_intel_hex(b":00000001Ff"));
    assert!(!is_intel_hex(b" :00000001FF"));
    assert!(!is_intel_hex(b":00000001F"));
    assert!(!is_intel_hex(b":"));
}

#[test]
fn reads_both_digit_cases_and_every_field() {
    // 02 12 AB 04 de AD, sum 0x24E, checksum 0xB2.
    let mut reader = HexReader::new(b"junk\n:0212AB04deADb2");
    let mut payload = [0x55u8; 4];
    let record = reader.next(&mut payload).unwrap().unwrap();
    assert_eq!(record.address, 0x12AB);
    assert_eq!(record.kind, RecordKind::Other(0x04));
    assert_eq!(record.len, 2);
    // Bytes past the payload are left alone.
    assert_eq!(payload, [0xDE, 0xAD, 0x55, 0x55]);
    assert_eq!(reader.next(&mut payload), None);
    assert_eq!(reader.next(&mut payload), None);
}

#[test]
fn reports_truncation_and_bad_digits() {
    let mut payload = [0u8; MAX_RECORD_PAYLOAD];
    let mut reader = HexReader::new(b":0300000001");
    assert_eq!(reader.next(&mut payload), Some(Err(HexError::Truncated)));
    assert_eq!(payload[0], 0x01); // decoded before the end was reached
    assert_eq!(reader.next(&mut payload), None);

    let mut reader = HexReader::new(b":");
    assert_eq!(reader.next(&mut payload), Some(Err(HexError::Truncated)));

    let mut reader = HexReader::new(b":03G00000010203F7\r\n:00000001FF");
    assert_eq!(reader.next(&mut payload), Some(Err(HexError::BadDigit)));
    // Reading resumes at the next record mark.
    let record = reader.next(&mut payload).unwrap().unwrap();
    assert_eq!(record.kind, RecordKind::Eof);
}

#[test]
fn altering_any_byte_but_the_length_is_caught() {
    let good = b":0300300002337A1E";
    let mut payload = [0u8; MAX_RECORD_PAYLOAD];
    let record = HexReader::new(good).next(&mut payload).unwrap().unwrap();
    assert_eq!((record.address, record.len), (0x0030, 3));
    for at in 3..good.len() {
        let mut corrupt = *good;
        corrupt[at] = if corrupt[at] == b'0' { b'1' } else { b'0' };
        let outcome = HexReader::new(&corrupt).next(&mut payload);
        assert_eq!(outcome, Some(Err(HexError::BadChecksum)));
    }
}

#[test]
fn the_longest_record_fits_the_largest_buffer() {
    let mut text = b":FF000000".to_vec();
    for _ in 0..255 {
        text.extend_from_slice(b"01");
    }
    // 0xFF + 255 = 0x1FE, so the checksum byte is 0x02.
    text.extend_from_slice(b"02");
    let mut payload = [0u8; MAX_RECORD_PAYLOAD];
    let record = HexReader::new(&text).next(&mut payload).unwrap().unwrap();
    assert_eq!(record.len, 255);
    assert!(payload.iter().all(|&b| b == 1));
    let mut small = [0u8; MAX_RECORD_PAYLOAD - 1];
    assert_eq!(
        HexReader::new(&text).next(&mut small),
        Some(Err(HexError::BufferTooSmall))
    );
}

#[test]
fn a_run_of_records_is_read_in_order() {
    // Either digit case, anything but marks between records, and a record past the end
    // of file. 02+10+01+00+AB+CD = 0x18B, so the first checksum byte is 0x75.
    let image = b"; notes\r\n:02100100abCD75:00000001fF\n\n  :01fFfE00aA58 end";
    let mut reader = HexReader::new(image);
    let mut payload = [0u8; MAX_RECORD_PAYLOAD];

    let record = reader.next(&mut payload).unwrap().unwrap();
    assert_eq!((record.address, record.kind, record.len), (0x1001, RecordKind::Data, 2));
    assert_eq!(payload[..2], [0xAB, 0xCD]);
    let record = reader.next(&mut payload).unwrap().unwrap();
    assert_eq!((record.address, record.kind, record.len), (0, RecordKind::Eof, 0));
    let record = reader.next(&mut payload).unwrap().unwrap();
    assert_eq!((record.address, record.kind, record.len), (0xFFFE, RecordKind::Data, 1));
    assert_eq!(payload[0], 0xAA);
    assert_eq!(reader.next(&mut payload), None);
    assert_eq!(reader.next(&mut payload), None);
}

#[test]
fn parse_reads_the_record_at_the_mark() {
    let mut payload = [0u8; 3];
    let mut reader = HexReader::new(SAMPLE);
    let record = reader.parse(&mut payload).unwrap();
    assert_eq!((record.address, record.kind, record.len), (0, RecordKind::Data, 3));
    assert_eq!(payload, [1, 2, 3]);
    assert_eq!(HexReader::new(b":03000000010203F6").parse(&mut payload), Err(HexError::BadChecksum));
    assert_eq!(HexReader::new(b":0300000x").parse(&mut payload), Err(HexError::BadDigit));
}
