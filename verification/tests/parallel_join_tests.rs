use paralio::parallel_join::execute_parallel_join;

// Creates a list of in-memory files with one value per line.
// Each file is separated by the '|' char, each line by the ',' char.
fn write_files(s: &str) -> Vec<Vec<u8>> {
    s.split('|')
        .map(|part| {
            let mut f: Vec<u8> = Vec::new();
            for fline in part.split(',') {
                f.extend_from_slice(fline.as_bytes());
                f.push(b'\n');
            }
            f
        })
        .collect()
}

fn selectors(s: &str) -> Vec<Vec<u8>> {
    s.split(',').map(|x| x.as_bytes().to_vec()).collect()
}

// Compares the per-worker outputs with a string whose parts are separated
// by the '|' character.
fn assert_outputs_eq(outputs: &Vec<Vec<u8>>, content: &str) {
    let parts: Vec<&str> = content.split('|').collect();
    assert_eq!(outputs.len(), parts.len());
    for (i, part) in parts.iter().enumerate() {
        assert_eq!(
            String::from_utf8(outputs[i].clone()).unwrap(),
            part.to_string()
        );
    }
}

#[test]
fn test_join1() {
    struct Data {
        file1_str: &'static str,
        file2_str: &'static str,
        separator: u8,
        field1: u32,
        field2: u32,
        output_fields_str_list: &'static str,
        output_str: &'static str,
        njobs: usize,
    }

    let l: Vec<Data> = vec![
        Data {
            file1_str: "1,2,3,4",
            file2_str: "1,2,4,5,6",
            separator: b',',
            field1: 0,
            field2: 0,
            output_fields_str_list: "1.0,1.0",
            output_str: "1,1\n2,2\n4,4\n",
            njobs: 1,
        },
        Data {
            file1_str: "1;aa,2;bb,3;cc,4;dd",
            file2_str: "1;AAAAAA,2;BBBBBBBB,4;CCCCC,5;DD,6;EEEEE",
            separator: b';',
            field1: 0,
            field2: 0,
            output_fields_str_list: "1.1,2.1",
            output_str: "aa;AAAAAA\nbb;BBBBBBBB\ndd;CCCCC\n",
            njobs: 1,
        },
        Data {
            file1_str: "1;aa,2;bb,3;cc,4;dd",
            file2_str: "1;aa;AAAA,2;BBBBBBBB;42,4;cc;CCC,5;DD;ddd,6;EEEEE;",
            separator: b';',
            field1: 1,
            field2: 1,
            output_fields_str_list: "1.0,1.1,2.1,2.2",
            output_str: "1;aa;aa;AAAA\n3;cc;cc;CCC\n",
            njobs: 1,
        },
        Data {
            file1_str: "1,2|3,4",
            file2_str: "1,2,4|5,6",
            separator: b',',
            field1: 0,
            field2: 0,
            output_fields_str_list: "1.0,1.0",
            output_str: "1,1\n2,2\n4,4\n",
            njobs: 1,
        },
        Data {
            file1_str: "0,1,2,3,4,5,6,7,8,9",
            file2_str: "0,1,2,3,4,5,6,7,8,9",
            separator: b',',
            field1: 0,
            field2: 0,
            output_fields_str_list: "1.0",
            output_str: "0\n1\n2\n3\n4\n5\n|6\n7\n8\n9\n",
            njobs: 2,
        },
        Data {
            file1_str: "0,1,2,3,4,5,6,7,8,9",
            file2_str: "0,1,2,3,4,5,6,7,9",
            separator: b',',
            field1: 0,
            field2: 0,
            output_fields_str_list: "1.0",
            output_str: "0\n1\n2\n3\n4\n5\n|6\n7\n9\n",
            njobs: 2,
        },
        Data {
            file1_str: "0,1,2,3,4,5,6,7,8,9",
            file2_str: "5,6,7,8,9",
            separator: b',',
            field1: 0,
            field2: 0,
            output_fields_str_list: "1.0",
            output_str: "5\n|6\n7\n8\n9\n",
            njobs: 2,
        },
        Data {
            file1_str: "0,1,2,3,4,5,6,7,8,9",
            file2_str: "6,7,8,9",
            separator: b',',
            field1: 0,
            field2: 0,
            output_fields_str_list: "1.0",
            output_str: "|6\n7\n8\n9\n",
            njobs: 2,
        },
    ];
    for s in l.iter() {
        let files_1 = write_files(s.file1_str);
        let files_2 = write_files(s.file2_str);
        let output_fields = selectors(s.output_fields_str_list);

        let outputs = execute_parallel_join(
            &files_1,
            &files_2,
            s.separator,
            s.field1,
            s.field2,
            &output_fields,
            s.njobs,
        );
        assert_outputs_eq(&outputs, s.output_str);
    }
}

// Merge equivalence on a concrete input: however many workers cut the
// first dataset, the concatenation of the per-worker outputs is the
// single-worker output.
#[test]
fn test_join_worker_counts_agree() {
    let files_1 = write_files("0,1,2,3,4,5,6,7,8,9");
    let files_2 = write_files("1,3,5,7,9");
    let output_fields = selectors("1.0,2.0");

    let single = execute_parallel_join(&files_1, &files_2, b',', 0, 0, &output_fields, 1);
    let whole: Vec<u8> = single.into_iter().flatten().collect();
    for n in 2..6usize {
        let outputs = execute_parallel_join(&files_1, &files_2, b',', 0, 0, &output_fields, n);
        assert_eq!(outputs.len(), n);
        let glued: Vec<u8> = outputs.into_iter().flatten().collect();
        assert_eq!(glued, whole);
    }
}
