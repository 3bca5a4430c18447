use paralio::byte_range_line_reader::ByteRangeLineReader;
use paralio::line_reader::{split_line, LineReader};

#[test]
fn test_read_lines() {
    let values = vec![String::from("a,b\n"), String::from("c,d\n")];
    let mut source: Vec<u8> = Vec::new();
    for v in values.iter() {
        source.extend_from_slice(v.as_bytes());
    }
    let files = vec![source.clone()];
    let range = ByteRangeLineReader::open_range(&files, 0, source.len());
    let mut reader = LineReader::new(range, b',', 0);
    assert_eq!(reader.has_current(), true);
    reader.read_next();
    assert_eq!(reader.has_current(), true);

    assert_eq!(reader.key(), b"a".to_vec());
    assert_eq!(reader.field(0), b"a".to_vec());
    assert_eq!(reader.has_current(), true);
    assert_eq!(reader.field(0), b"a".to_vec());
    assert_eq!(reader.field(1), b"b".to_vec());

    reader.read_next();
    assert_eq!(reader.has_current(), true);
    assert_eq!(reader.key_field(), 0);
    assert_eq!(reader.field(0), b"c".to_vec());
    assert_eq!(reader.key(), b"c".to_vec());
    assert_eq!(reader.field(1), b"d".to_vec());

    reader.read_next();
    reader.reader();
    assert_eq!(reader.has_current(), false);
    assert_eq!(reader.field(0), b"".to_vec());
    assert_eq!(reader.key(), b"".to_vec());
}

#[test]
fn test_split_line() {
    assert_eq!(
        split_line(&b"a;bb;".to_vec(), b';'),
        vec![b"a".to_vec(), b"bb".to_vec(), b"".to_vec()]
    );
    assert_eq!(split_line(&b"".to_vec(), b';'), vec![b"".to_vec()]);
    assert_eq!(split_line(&b"abc".to_vec(), b';'), vec![b"abc".to_vec()]);
}
