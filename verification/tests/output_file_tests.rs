use paralio::byte_range_line_reader::ByteRangeLineReader;
use paralio::output_file::{pair_split, OutputFile};

// Creates a list of in-memory files with one value per line.
// Each file is separated by the '|' char, each line by the ',' char.
fn write_files(s: &str) -> Vec<Vec<u8>> {
    s.split('|')
        .map(|part| {
            let mut f: Vec<u8> = Vec::new();
            for fline in part.split(',') {
                f.extend_from_slice(fline.as_bytes());
                f.push(b'\n');
            }
            f
        })
        .collect()
}

fn selectors(s: &str) -> Vec<Vec<u8>> {
    s.split(',').map(|x| x.as_bytes().to_vec()).collect()
}

#[test]
fn test_files() {
    let file_1: &str = "0,4,5";
    let files_1 = write_files(file_1);
    let file_1_ranges = ByteRangeLineReader::open(&files_1, 1);

    let file_2: &str = "1,3,4,";
    let files_2 = write_files(file_2);

    let mut out = OutputFile::new(
        b',',
        &selectors("1.0,2.0,2.0"),
        0,
        &files_2,
        0,
        file_1_ranges[0].clone(),
        0,
    );

    assert_eq!(out.file1_has_current(), true);
    assert_eq!(out.file2_has_current(), true);

    assert_eq!(out.file1_key(), b"".to_vec());
    assert_eq!(out.file2_key(), b"".to_vec());

    assert_eq!(out.file1_field(0), b"".to_vec());
    assert_eq!(out.file2_field(0), b"".to_vec());
    out.file2_read_next();

    assert_eq!(out.file1_key(), b"".to_vec());
    assert_eq!(out.file2_key(), b"1".to_vec());
    assert_eq!(out.file1_field(0), b"".to_vec());
    assert_eq!(out.file2_field(0), b"1".to_vec());

    out.add_match(); // adds ",1,1" to the output

    out.file1_read_next();
    out.file2_read_next();

    assert_eq!(out.file1_key(), b"0".to_vec());
    assert_eq!(out.file2_key(), b"3".to_vec());
    assert_eq!(out.file1_field(0), b"0".to_vec());
    assert_eq!(out.file2_field(0), b"3".to_vec());

    out.add_match(); // adds "0,3,3" to the output
    out.file1_read_next();

    assert_eq!(out.file1_key(), b"4".to_vec());
    assert_eq!(out.file2_key(), b"3".to_vec());
    assert_eq!(out.file1_field(0), b"4".to_vec());
    assert_eq!(out.file2_field(0), b"3".to_vec());

    out.add_match(); // adds "4,3,3" to the output

    out.file2_read_next();

    assert_eq!(out.file1_key(), b"4".to_vec());
    assert_eq!(out.file2_key(), b"4".to_vec());
    assert_eq!(out.file1_field(0), b"4".to_vec());
    assert_eq!(out.file2_field(0), b"4".to_vec());

    out.file1_read_next();
    assert_eq!(out.file1_has_current(), true);
    assert_eq!(out.file2_has_current(), true);

    assert_eq!(out.file1_key(), b"5".to_vec());
    assert_eq!(out.file2_key(), b"4".to_vec());
    assert_eq!(out.file1_field(0), b"5".to_vec());
    assert_eq!(out.file2_field(0), b"4".to_vec());

    out.file1_read_next();
    assert_eq!(out.file1_has_current(), false);
    assert_eq!(out.file2_has_current(), true);

    assert_eq!(out.file1_key(), b"".to_vec());
    assert_eq!(out.file2_key(), b"4".to_vec());
    assert_eq!(out.file1_field(0), b"".to_vec());
    assert_eq!(out.file2_field(0), b"4".to_vec());

    out.file2_read_next();
    assert_eq!(out.file1_has_current(), false);
    assert_eq!(out.file2_has_current(), false);

    assert_eq!(out.file1_key(), b"".to_vec());
    assert_eq!(out.file2_key(), b"".to_vec());
    assert_eq!(out.file1_field(0), b"".to_vec());
    assert_eq!(out.file2_field(0), b"".to_vec());

    assert_eq!(out.output(), &b",1,1\n0,3,3\n4,3,3\n".to_vec());
}

#[test]
fn test_more_fields_and_chars() {
    let file_1: &str = "111;bbbbb;ccc,2222222;5;767u;oo";
    let files_1 = write_files(file_1);
    let file_1_ranges = ByteRangeLineReader::open(&files_1, 1);

    let file_2: &str = "1;aaa;!!!#↓,3;lol;4";
    let files_2 = write_files(file_2);

    let mut out = OutputFile::new(
        b';',
        &selectors("1.2,1.1,2.0"),
        1,
        &files_2,
        2,
        file_1_ranges[0].clone(),
        0,
    );

    out.file1_read_next();
    out.file2_read_next();
    assert_eq!(out.file1_has_current(), true);
    assert_eq!(out.file2_has_current(), true);

    assert_eq!(out.file1_key(), b"bbbbb".to_vec());
    assert_eq!(out.file2_key(), "!!!#↓".as_bytes().to_vec());

    assert_eq!(out.file1_field(0), b"111".to_vec());
    assert_eq!(out.file1_field(1), b"bbbbb".to_vec());
    assert_eq!(out.file1_field(2), b"ccc".to_vec());

    assert_eq!(out.file2_field(0), b"1".to_vec());
    assert_eq!(out.file2_field(1), b"aaa".to_vec());
    assert_eq!(out.file2_field(2), "!!!#↓".as_bytes().to_vec());

    out.file1_read_next();

    assert_eq!(out.file1_key(), b"5".to_vec());
    assert_eq!(out.file2_key(), "!!!#↓".as_bytes().to_vec());

    assert_eq!(out.file1_field(0), b"2222222".to_vec());
    assert_eq!(out.file1_field(1), b"5".to_vec());
    assert_eq!(out.file1_field(2), b"767u".to_vec());
    assert_eq!(out.file1_field(3), b"oo".to_vec());

    assert_eq!(out.file2_field(0), b"1".to_vec());
    assert_eq!(out.file2_field(1), b"aaa".to_vec());
    assert_eq!(out.file2_field(2), "!!!#↓".as_bytes().to_vec());

    out.file2_read_next();

    assert_eq!(out.file1_key(), b"5".to_vec());
    assert_eq!(out.file2_key(), b"4".to_vec());

    assert_eq!(out.file1_field(0), b"2222222".to_vec());
    assert_eq!(out.file1_field(1), b"5".to_vec());
    assert_eq!(out.file1_field(2), b"767u".to_vec());
    assert_eq!(out.file1_field(3), b"oo".to_vec());

    assert_eq!(out.file2_field(0), b"3".to_vec());
    assert_eq!(out.file2_field(1), b"lol".to_vec());
    assert_eq!(out.file2_field(2), b"4".to_vec());
}

#[test]
fn test_pair_split() {
    assert_eq!(pair_split(&b"1.0".to_vec()), (true, 0));
    assert_eq!(pair_split(&b"2.3".to_vec()), (false, 3));
    assert_eq!(pair_split(&b"1.12".to_vec()), (true, 12));
}
