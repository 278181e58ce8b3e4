use pcm2midi::vlq::{get_variable_length_number, to_variable_length_bytes, VlqError};

fn decode_all(bytes: &[u8]) -> (Result<u64, VlqError>, usize) {
    let mut cursor: usize = 0;
    let r = get_variable_length_number(bytes, &mut cursor);
    (r, cursor)
}

#[test]
fn round_trip_listed_values() {
    let values: [usize; 9] = [0, 1, 127, 128, 16383, 16384, 2097151, 2097152, u32::MAX as usize];
    for n in values {
        let bytes = to_variable_length_bytes(n);
        let (r, cursor) = decode_all(&bytes);
        assert_eq!(r, Ok(n as u64));
        assert_eq!(cursor, bytes.len());
    }
}

#[test]
fn round_trip_usize_max() {
    let bytes = to_variable_length_bytes(usize::MAX);
    assert_eq!(decode_all(&bytes).0, Ok(usize::MAX as u64));
}

#[test]
fn exact_encodings() {
    assert_eq!(to_variable_length_bytes(0), vec![0x00]);
    assert_eq!(to_variable_length_bytes(1), vec![0x01]);
    assert_eq!(to_variable_length_bytes(127), vec![0x7F]);
    assert_eq!(to_variable_length_bytes(128), vec![0x81, 0x00]);
    assert_eq!(to_variable_length_bytes(200), vec![0x81, 0x48]);
    assert_eq!(to_variable_length_bytes(16383), vec![0xFF, 0x7F]);
    assert_eq!(to_variable_length_bytes(16384), vec![0x81, 0x80, 0x00]);
    assert_eq!(to_variable_length_bytes(2097151), vec![0xFF, 0xFF, 0x7F]);
    assert_eq!(to_variable_length_bytes(2097152), vec![0x81, 0x80, 0x80, 0x00]);
    assert_eq!(
        to_variable_length_bytes(u32::MAX as usize),
        vec![0x8F, 0xFF, 0xFF, 0xFF, 0x7F]
    );
}

#[test]
fn encodings_are_minimal() {
    let values: [usize; 9] = [0, 1, 127, 128, 16383, 16384, 2097151, 2097152, u32::MAX as usize];
    for n in values {
        let bytes = to_variable_length_bytes(n);
        assert_eq!(bytes.len() == 1, n < 128);
        if bytes.len() > 1 {
            assert_ne!(bytes[0], 0x80);
        }
        assert!(bytes[bytes.len() - 1] < 0x80);
        for b in &bytes[..bytes.len() - 1] {
            assert!(*b >= 0x80);
        }
    }
}

#[test]
fn decode_reads_from_cursor_and_stops_at_terminator() {
    let bytes = [0x00, 0x81, 0x48, 0x05, 0x7F];
    let mut cursor: usize = 1;
    assert_eq!(get_variable_length_number(&bytes, &mut cursor), Ok(200));
    assert_eq!(cursor, 3);
    assert_eq!(get_variable_length_number(&bytes, &mut cursor), Ok(5));
    assert_eq!(cursor, 4);
    assert_eq!(get_variable_length_number(&bytes, &mut cursor), Ok(127));
    assert_eq!(cursor, 5);
}

#[test]
fn decode_unterminated_is_an_error() {
    let bytes = [0x81, 0x80];
    let mut cursor: usize = 0;
    assert_eq!(
        get_variable_length_number(&bytes, &mut cursor),
        Err(VlqError::Unterminated)
    );
    assert_eq!(cursor, 0);
}

#[test]
fn decode_at_end_is_an_error() {
    let bytes = [0x05];
    let mut cursor: usize = 1;
    assert_eq!(
        get_variable_length_number(&bytes, &mut cursor),
        Err(VlqError::Unterminated)
    );
    assert_eq!(cursor, 1);
}

#[test]
fn decode_keeps_value_modulo_two_to_the_64() {
    // Eleven groups: 2^70 + 5 does not fit; the low 64 bits are kept.
    let mut bytes = vec![0x81];
    bytes.extend_from_slice(&[0x80; 9]);
    bytes.push(0x05);
    assert_eq!(decode_all(&bytes).0, Ok(5));
}
