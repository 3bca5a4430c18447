use paralio::multi_file_reader::{get_key, read_file_last_line, MultiFileReader};

// Creates a list of in-memory files with one value per line.
// Each file is separated by the '|' char, each line by the ',' char.
fn write_files(s: &str) -> Vec<Vec<u8>> {
    s.split('|')
        .map(|part| {
            let mut f: Vec<u8> = Vec::new();
            for fline in part.split(',') {
                f.extend_from_slice(fline.as_bytes());
                f.push(b'\n');
            }
            f
        })
        .collect()
}

fn read_line_str(reader: &mut MultiFileReader) -> String {
    let mut s: Vec<u8> = Vec::new();
    reader.read_line(&mut s);
    String::from_utf8(s).expect("reading a line")
}

#[test]
fn test_multifile_get_files_info() {
    let data = "0,1,2|3|4,5,6|7,8,9,10|11,12,13,14,15,16";
    let files = write_files(data);

    let files_info = MultiFileReader::get_files_info(&files);
    assert_eq!(files_info[0].start, 0);
    assert_eq!(files_info[0].end, 6);
    assert_eq!(files_info[1].start, 6);
    assert_eq!(files_info[1].end, 8);
    assert_eq!(files_info[2].start, 8);
}

#[test]
fn test_multifile_find_file_info() {
    let data = "0,1,2|3|4,5,6|7,8,9,10|11,12,13,14,15,16";
    let files = write_files(data);
    let files_info = MultiFileReader::get_files_info(&files);

    assert_eq!(MultiFileReader::find_file_info(&files_info, 0), 0);
    assert_eq!(MultiFileReader::find_file_info(&files_info, 1), 0);
    assert_eq!(MultiFileReader::find_file_info(&files_info, 5), 0);
    assert_eq!(MultiFileReader::find_file_info(&files_info, 6), 1);
    assert_eq!(MultiFileReader::find_file_info(&files_info, 7), 1);
    assert_eq!(MultiFileReader::find_file_info(&files_info, 8), 2);
}

#[test]
fn test_multifile_read_line() {
    let data = "0,1,2|3|4,5,6|7";
    let files = write_files(data);
    let mut reader = MultiFileReader::open(&files, 0);

    assert_eq!(read_line_str(&mut reader), "0\n");
    assert_eq!(read_line_str(&mut reader), "1\n");
    assert_eq!(read_line_str(&mut reader), "2\n");
    assert_eq!(read_line_str(&mut reader), "3\n");
    assert_eq!(read_line_str(&mut reader), "4\n");
    assert_eq!(read_line_str(&mut reader), "5\n");
    assert_eq!(read_line_str(&mut reader), "6\n");
    assert_eq!(read_line_str(&mut reader), "7\n");
    assert_eq!(read_line_str(&mut reader), "");
}

#[test]
fn test_multifile_read_line_openseek() {
    let data = "0,1,2|3|4,5,6|7";
    let files = write_files(data);
    let mut reader = MultiFileReader::open(&files, 8);

    assert_eq!(read_line_str(&mut reader), "4\n");
    assert_eq!(read_line_str(&mut reader), "5\n");
}

#[test]
fn test_multifile_read_line_openseek2() {
    let data = "0,1,2|3|4,5,6|7";
    let files = write_files(data);
    let mut reader = MultiFileReader::open(&files, 9);

    assert_eq!(read_line_str(&mut reader), "\n");
    assert_eq!(read_line_str(&mut reader), "5\n");
}

#[test]
fn test_multifile_read_line_openseek3() {
    let data = "0,1,2|3|4,5,6|7";
    let files = write_files(data);
    let mut reader = MultiFileReader::open(&files, 7);

    assert_eq!(read_line_str(&mut reader), "\n");
    assert_eq!(read_line_str(&mut reader), "4\n");
}

#[test]
fn test_multifile_seek() {
    let data = "0,1,2|3|4,5,6|7,8,9,10|11,12,13,14,15,16";
    let files = write_files(data);
    let mut reader = MultiFileReader::open(&files, 0);

    assert_eq!(read_line_str(&mut reader), "0\n");

    reader.seek(8);
    assert_eq!(read_line_str(&mut reader), "4\n");
    assert_eq!(read_line_str(&mut reader), "5\n");

    reader.seek(9);
    assert_eq!(read_line_str(&mut reader), "\n");
    assert_eq!(read_line_str(&mut reader), "5\n");

    reader.seek(7);
    assert_eq!(read_line_str(&mut reader), "\n");
    assert_eq!(read_line_str(&mut reader), "4\n");
}

#[test]
fn test_get_key() {
    let line = b"1,2;3,4".to_vec();
    let key = get_key(&line, b';', 0);
    assert_eq!(key, b"1,2".to_vec());

    let line = b"1,bb;3,4".to_vec();
    let key = get_key(&line, b',', 1);
    assert_eq!(key, b"bb;3".to_vec());
}

#[test]
fn test_read_file_last_line() {
    let data = "aaaaaaaaaaa,b,ccc,dddddddddddddddddddd,erergerg";
    let files = write_files(data);

    let (fsize, last_line) = read_file_last_line(files.first().unwrap());
    assert_eq!(fsize, data.len() + 1);
    assert_eq!(last_line, b"erergerg".to_vec());
}

#[test]
fn test_find_key() {
    let data = "0,1,2,3,4,5,6,7,8,9,10";
    let files = write_files(data);

    let pos = MultiFileReader::find_key_pos(&b"0".to_vec(), &files, b',', 0);
    assert_eq!(pos, Some(0));

    let pos = MultiFileReader::find_key_pos(&b"10".to_vec(), &files, b',', 0);
    assert_eq!(pos, Some(20));

    let pos = MultiFileReader::find_key_pos(&b"1".to_vec(), &files, b',', 0);
    assert_eq!(pos, Some(2));

    let pos = MultiFileReader::find_key_pos(&b"2".to_vec(), &files, b',', 0);
    assert_eq!(pos, Some(4));

    let pos = MultiFileReader::find_key_pos(&b"3".to_vec(), &files, b',', 0);
    assert_eq!(pos, Some(6));

    let pos = MultiFileReader::find_key_pos(&b"4".to_vec(), &files, b',', 0);
    assert_eq!(pos, Some(8));

    let pos = MultiFileReader::find_key_pos(&b"5".to_vec(), &files, b',', 0);
    assert_eq!(pos, Some(10));

    let pos = MultiFileReader::find_key_pos(&b"6".to_vec(), &files, b',', 0);
    assert_eq!(pos, Some(12));

    let pos = MultiFileReader::find_key_pos(&b"9".to_vec(), &files, b',', 0);
    assert_eq!(pos, Some(18));

    let pos = MultiFileReader::find_key_pos(&b"8".to_vec(), &files, b',', 0);
    assert_eq!(pos, Some(16));

    let pos = MultiFileReader::find_key_pos(&b"7".to_vec(), &files, b',', 0);
    assert_eq!(pos, Some(14));
}

#[test]
fn test_find_key_2chars() {
    let data = "0,1,2,3,4,5,6,7,8,9,10,11,12,13,14,15,16,17";
    let files = write_files(data);

    let pos = MultiFileReader::find_key_pos(&b"16".to_vec(), &files, b'|', 0);
    assert_eq!(pos, Some(38));
}

#[test]
fn test_find_key_letters() {
    let data = "aaa,aab,aac,abb,ccc,ddde,eeeee,ffff,g";
    let files = write_files(data);

    let pos = MultiFileReader::find_key_pos(&b"ffff".to_vec(), &files, b'|', 0);
    assert_eq!(pos, Some(31));
}

#[test]
fn test_find_key_non_existant() {
    let data = "aaa,aab,aac,abb,ccc,ddde,eeeee,ffff,g";
    let files = write_files(data);

    let pos = MultiFileReader::find_key_pos(&b"fggg".to_vec(), &files, b'|', 0);
    assert_eq!(pos, Some(31));
}

// An absent key above every key in the dataset: the floor is the final
// line.
#[test]
fn test_find_key_above_all() {
    let data = "aaa,aab,aac,abb,ccc,ddde,eeeee,ffff,g";
    let files = write_files(data);

    let pos = MultiFileReader::find_key_pos(&b"zzz".to_vec(), &files, b'|', 0);
    assert_eq!(pos, Some(36));

    let one_line = write_files("only");
    let pos = MultiFileReader::find_key_pos(&b"zzz".to_vec(), &one_line, b'|', 0);
    assert_eq!(pos, Some(0));
}

#[test]
fn test_find_key_non_existant_second_column() {
    let data = "whatever#aaa,whatever2#aab,whatever33#aac,whatever55#abb,whatever66#ccc,whatever___#ddde,what__ever#eeeee,a#ffff,whate#g";
    let files = write_files(data);

    let pos = MultiFileReader::find_key_pos(&b"fggg".to_vec(), &files, b'#', 1);
    assert_eq!(pos, Some(106));
}

// A multi-file stream is transparent: reading all lines from the stream
// over several files equals reading them from the files' concatenation.
#[test]
fn test_multifile_matches_concat() {
    let split_files = write_files("0,1,2|3|4,5,6|7");
    let concat: Vec<u8> = split_files.iter().flatten().copied().collect();
    let one_file = vec![concat];

    let mut many = MultiFileReader::open(&split_files, 0);
    let mut single = MultiFileReader::open(&one_file, 0);
    loop {
        let a = read_line_str(&mut many);
        let b = read_line_str(&mut single);
        assert_eq!(a, b);
        if a.is_empty() {
            break;
        }
    }
}

// The bulk read crosses file boundaries transparently.
#[test]
fn test_multifile_read_bytes() {
    let files = write_files("0,1|2,3");
    let mut reader = MultiFileReader::open(&files, 1);
    let bytes = reader.read(6);
    assert_eq!(bytes, b"\n1\n2\n3".to_vec());
    let rest = reader.read(10);
    assert_eq!(rest, b"\n".to_vec());
}
