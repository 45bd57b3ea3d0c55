use librsv::{decode_rsv, decode_rsv_borrowed, encode_rsv, Error, RsvReader, RsvWriter};

fn owned(rows: &[&[Option<&str>]]) -> Vec<Vec<Option<String>>> {
    rows.iter()
        .map(|row| row.iter().map(|v| v.map(String::from)).collect())
        .collect()
}

#[test]
fn roundtrip() {
    let mut w = RsvWriter::new();

    // Row 1
    w.start_row();
    w.push_str("Hello");
    w.push_str("world");

    // Row 2
    w.start_row();
    w.push_str("");
    w.push_null();
    w.push_str("world 2");
    w.push_null();

    // Row 3 - empty
    w.start_row();

    let buffer = w.finish();
    let mut rows = RsvReader::new(&buffer).rows();

    // Row 1
    let mut values = rows.next().unwrap().unwrap().values();
    assert_eq!(values.next().unwrap().unwrap(), Some("Hello"));
    assert_eq!(values.next().unwrap().unwrap(), Some("world"));
    assert!(values.next().is_none());

    // Row 2
    let mut values = rows.next().unwrap().unwrap().values();
    assert_eq!(values.next().unwrap().unwrap(), Some(""));
    assert_eq!(values.next().unwrap().unwrap(), None);
    assert_eq!(values.next().unwrap().unwrap(), Some("world 2"));
    assert_eq!(values.next().unwrap().unwrap(), None);
    assert!(values.next().is_none());

    // Row 3 - empty
    let mut values = rows.next().unwrap().unwrap().values();
    assert!(values.next().is_none());

    assert!(rows.next().is_none());
}

#[test]
fn encode_vec_vec_string() {
    let data: Vec<Vec<Option<String>>> =
        vec![vec![Some("Hello".into()), Some("world".into())], vec![None]];
    let buffer = encode_rsv(&data);
    assert_eq!(&buffer, b"Hello\xFFworld\xFF\xFD\xFE\xFF\xFD");
}

#[test]
fn encode_vec_vec_str() {
    let data: Vec<Vec<Option<&str>>> = vec![vec![Some("Hello"), Some("world")], vec![None]];
    let rows: Vec<&[Option<&str>]> = data.iter().map(|r| r.as_slice()).collect();
    let buffer = encode_rsv(&owned(&rows));
    assert_eq!(&buffer, b"Hello\xFFworld\xFF\xFD\xFE\xFF\xFD");
}

#[test]
fn encode_vec_slice_str() {
    let values = vec![Some("Hello"), Some("world"), None];
    let data: Vec<&[Option<&str>]> = vec![&values, &values[1..]];
    let buffer = encode_rsv(&owned(&data));
    assert_eq!(&buffer, b"Hello\xFFworld\xFF\xFE\xFF\xFDworld\xFF\xFE\xFF\xFD");
}

#[test]
fn encode_slice_slice_str() {
    let values = vec![Some("Hello"), Some("world"), None];
    let data: &[&[Option<&str>]] = &[&values, &values[1..]];
    let buffer = encode_rsv(&owned(data));
    assert_eq!(&buffer, b"Hello\xFFworld\xFF\xFE\xFF\xFDworld\xFF\xFE\xFF\xFD");
}

#[test]
fn encode_two_rows_exact_bytes() {
    let data = owned(&[&[Some("Hello"), Some("world")], &[None, Some("asdf")]]);
    let expected: Vec<u8> = vec![
        0x48, 0x65, 0x6C, 0x6C, 0x6F, 0xFF, 0x77, 0x6F, 0x72, 0x6C, 0x64, 0xFF, 0xFD, 0xFE, 0xFF,
        0x61, 0x73, 0x64, 0x66, 0xFF, 0xFD,
    ];
    assert_eq!(encode_rsv(&data), expected);
}

#[test]
fn decode_one_row() {
    let data = decode_rsv(b"Hello\xFFworld\xFF\xFD").unwrap();
    assert_eq!(data, vec![vec![Some("Hello".to_string()), Some("world".to_string())]]);
}

#[test]
fn decode_empty_buffer() {
    assert_eq!(decode_rsv(b"").unwrap(), Vec::<Vec<Option<String>>>::new());
    assert_eq!(decode_rsv_borrowed(b"").unwrap(), Vec::<Vec<Option<&str>>>::new());
}

#[test]
fn encode_empty_document() {
    let data: Vec<Vec<Option<String>>> = Vec::new();
    assert!(encode_rsv(&data).is_empty());
    assert!(RsvWriter::new().finish().is_empty());
}

#[test]
fn decode_single_null() {
    assert_eq!(decode_rsv(b"\xFE\xFF\xFD").unwrap(), vec![vec![None]]);
}

#[test]
fn decode_missing_row_terminator() {
    assert_eq!(decode_rsv(b"abc\xFF"), Err(Error::UnterminatedRow));
    assert_eq!(decode_rsv(b"a\xFF\xFDb\xFF"), Err(Error::UnterminatedRow));
}

#[test]
fn decode_missing_value_terminator() {
    assert_eq!(decode_rsv(b"abc\xFD"), Err(Error::UnterminatedValue));
    assert_eq!(decode_rsv_borrowed(b"a\xFFbc\xFD"), Err(Error::UnterminatedValue));
}

#[test]
fn decode_bad_utf8() {
    assert!(matches!(decode_rsv(b"\xC3\x28\xFF\xFD"), Err(Error::BadUTF8(_))));
    assert!(matches!(decode_rsv_borrowed(b"ok\xFF\x80\xFF\xFD"), Err(Error::BadUTF8(_))));
}

#[test]
fn first_error_wins() {
    // The bad value of the first row is met before the missing terminator.
    assert!(matches!(decode_rsv(b"\x80\xFF\xFDabc"), Err(Error::BadUTF8(_))));
}

#[test]
fn empty_row_round_trips() {
    let mut w = RsvWriter::new();
    w.start_row();
    let buffer = w.finish();
    assert_eq!(buffer, vec![0xFD]);
    assert_eq!(decode_rsv(&buffer).unwrap(), vec![Vec::<Option<String>>::new()]);
}

#[test]
fn null_is_not_empty_string() {
    let data = owned(&[&[None, Some(""), None]]);
    let buffer = encode_rsv(&data);
    assert_eq!(buffer, vec![0xFE, 0xFF, 0xFF, 0xFE, 0xFF, 0xFD]);
    let back = decode_rsv(&buffer).unwrap();
    assert_eq!(back, data);
    assert_eq!(back[0][0], None);
    assert_eq!(back[0][1], Some(String::new()));
}

#[test]
fn round_trip_owned_and_borrowed() {
    let data = owned(&[
        &[Some("Hello"), Some("world")],
        &[Some("asdf"), None, Some("")],
        &[],
        &[Some("é ü 日本 🎉")],
    ]);
    let buffer = encode_rsv(&data);
    assert_eq!(decode_rsv(&buffer).unwrap(), data);
    let borrowed = decode_rsv_borrowed(&buffer).unwrap();
    assert_eq!(borrowed[3], vec![Some("é ü 日本 🎉")]);
    assert_eq!(borrowed[2].len(), 0);
}

#[test]
fn errors_repeat_after_first() {
    let buffer = b"a\xFF\xFDbc";
    let mut rows = RsvReader::new(buffer).rows();
    assert!(rows.next().unwrap().is_ok());
    assert_eq!(rows.next().unwrap().err(), Some(Error::UnterminatedRow));
    assert_eq!(rows.next().unwrap().err(), Some(Error::UnterminatedRow));

    let buffer = b"x\xFFyz\xFD";
    let mut rows = RsvReader::new(buffer).rows();
    let mut values = rows.next().unwrap().unwrap().values();
    assert_eq!(values.next().unwrap().unwrap(), Some("x"));
    assert_eq!(values.next().unwrap().err(), Some(Error::UnterminatedValue));
    assert_eq!(values.next().unwrap().err(), Some(Error::UnterminatedValue));
    assert!(rows.next().is_none());
}

#[test]
fn writer_appends_to_existing_buffer() {
    let mut w = RsvWriter::with_buffer(b"a\xFF\xFD".to_vec());
    w.start_row();
    w.push(Some("b"));
    w.push(None);
    let buffer = w.finish();
    assert_eq!(buffer, b"a\xFF\xFDb\xFF\xFE\xFF\xFD".to_vec());
    assert_eq!(decode_rsv(&buffer).unwrap(), owned(&[&[Some("a")], &[Some("b"), None]]));
}

#[test]
fn writer_with_capacity_starts_empty() {
    let mut w = RsvWriter::with_capacity(64);
    w.start_row();
    w.push_str("x");
    w.start_row();
    assert_eq!(w.finish(), b"x\xFF\xFD\xFD".to_vec());
}

#[test]
fn decode_multibyte_text() {
    let rows = decode_rsv_borrowed("héllo".as_bytes()).err();
    assert_eq!(rows, Some(Error::UnterminatedRow));
    let buffer = [b"h\xC3\xA9".as_slice(), b"\xFF\xFD"].concat();
    assert_eq!(decode_rsv(&buffer).unwrap(), vec![vec![Some("hé".to_string())]]);
}
