use paralio::byte_range_line_reader::ByteRangeLineReader;

// Creates a list of in-memory files with one value per line.
// Each file is separated by the '|' char, each line by the ',' char.
fn write_files(s: &str) -> Vec<Vec<u8>> {
    s.split('|')
        .map(|part| {
            let mut f: Vec<u8> = Vec::new();
            for fline in part.split(',') {
                f.extend_from_slice(fline.as_bytes());
                f.push(b'\n');
            }
            f
        })
        .collect()
}

// Compares the output of a reader with an example string: "0,1,2" means
// the reader delivers exactly the lines "0\n", "1\n" and "2\n", and that
// its last line is "2".
fn assert_eq(reader: &mut ByteRangeLineReader, s: &str) {
    for x in s.split(',') {
        let mut buf: Vec<u8> = Vec::new();
        assert_eq!(reader.read_line(&mut buf), x.len() + 1);
        let mut expected = x.as_bytes().to_vec();
        expected.push(b'\n');
        assert_eq!(buf, expected);
    }
    let mut buf: Vec<u8> = Vec::new();
    assert_eq!(reader.read_line(&mut buf), 0);
    assert_eq!(buf, Vec::<u8>::new());

    let expected_last_line = s.split(',').last().unwrap().as_bytes().to_vec();
    assert_eq!(expected_last_line, reader.last_line());
}

fn test_files(input: &str, output: &str) {
    let files = write_files(input);
    let output_split: Vec<&str> = output.split('|').collect();

    let mut readers = ByteRangeLineReader::open(&files, output_split.len());
    assert_eq!(readers.len(), output_split.len());

    for (i, x) in output_split.iter().enumerate() {
        assert_eq(&mut readers[i], x);
    }
}

#[test]
fn test_byte_range() {
    let v: Vec<(&str, &str)> = vec![
        (
            "0,1,2,3,4,5,6,7,8,9,10,11,12,13,14,15,16",
            "0,1,2,3,4,5,6,7,8,9,10,11,12,13,14,15,16",
        ),
        ("0,1,2,3,4,5", "0,1,2,3|4,5"),
        ("0,1,2|3,4,5", "0,1,2,3|4,5"),
        ("0,1,2,3,4|5", "0,1,2,3|4,5"),
        ("0,1|2,3,4|5", "0,1,2,3|4,5"),
        ("0,1|2,3,4|5", "0,1,2,3|4,5"),
        ("0,1,2,3,4,5,6", "0,1,2,3|4,5,6"),
        ("0,1,2,3,4,5,6,7", "0,1,2,3,4|5,6,7"),
        ("0,1,2,3,4,5,6,7,8", "0,1,2,3,4|5,6,7,8"),
        ("0,1,2,3,4,5,6,7,8,9", "0,1,2,3,4,5|6,7,8,9"),
        (
            "0,1,2|3|4,5,6|7,8,9,10|11,12,13,14,15,16",
            "0,1,2,3,4,5,6,7,8,9,10,11,12,13,14,15,16",
        ),
    ];
    for &(a, b) in v.iter() {
        test_files(a, b);
    }
}

#[test]
fn test_last_line() {
    let input: &str = "0,1,2,3,4,5";
    let output: &str = "0,1,2,3,4,5";
    let files = write_files(input);
    let output_split: Vec<&str> = output.split('|').collect();

    let mut readers = ByteRangeLineReader::open(&files, output_split.len());
    assert_eq!(readers.len(), output_split.len());

    let mut buf: Vec<u8> = Vec::new();
    readers[0].read_line(&mut buf);
    assert_eq!(buf, b"0\n".to_vec());

    let mut buf: Vec<u8> = Vec::new();
    readers[0].read_line(&mut buf);
    assert_eq!(buf, b"1\n".to_vec());

    assert_eq!(readers[0].last_line(), b"5".to_vec());

    let mut buf: Vec<u8> = Vec::new();
    readers[0].read_line(&mut buf);
    assert_eq!(buf, b"2\n".to_vec());
}

// Peeking at the last line is idempotent: the answer never changes,
// however many lines have been consumed in between.
#[test]
fn test_peek_idempotent() {
    let files = write_files("0,1,2,3,4,5");
    let mut readers = ByteRangeLineReader::open(&files, 2);
    let first = readers[0].last_line();
    let mut buf: Vec<u8> = Vec::new();
    readers[0].read_line(&mut buf);
    readers[0].read_line(&mut buf);
    assert_eq!(readers[0].last_line(), first);
    readers[0].read_line(&mut buf);
    readers[0].read_line(&mut buf);
    assert_eq!(readers[0].last_line(), first);
}

// A range reader delivers at most one line that starts at or past its
// end, then reports the end of the range.
#[test]
fn test_overrun_bound() {
    // One file of three lines; the range [0, 3] cuts the second line.
    let files = vec![b"aa\nbb\ncc\n".to_vec()];
    let mut reader = ByteRangeLineReader::open_range(&files, 0, 3);
    let mut buf: Vec<u8> = Vec::new();
    assert_eq!(reader.read_line(&mut buf), 3);
    assert_eq!(buf, b"aa\n".to_vec());
    // "bb\n" starts at offset 3 == end: delivered whole, once.
    let mut buf: Vec<u8> = Vec::new();
    assert_eq!(reader.read_line(&mut buf), 3);
    assert_eq!(buf, b"bb\n".to_vec());
    let mut buf: Vec<u8> = Vec::new();
    assert_eq!(reader.read_line(&mut buf), 0);
    assert_eq!(buf, Vec::<u8>::new());
}

// The clone of a range reader is an independent cursor.
#[test]
fn test_clone_independent() {
    let files = write_files("0,1,2");
    let mut reader = ByteRangeLineReader::open_range(&files, 0, 6);
    let mut twin = reader.clone();
    let mut buf: Vec<u8> = Vec::new();
    reader.read_line(&mut buf);
    assert_eq!(buf, b"0\n".to_vec());
    let mut buf: Vec<u8> = Vec::new();
    twin.read_line(&mut buf);
    assert_eq!(buf, b"0\n".to_vec());
    assert_eq!(reader.pos(), 2);
    assert_eq!(twin.pos(), 2);
    assert_eq!(reader.end(), 6);
}
