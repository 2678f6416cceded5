use std::io::BufRead;

use om::{decode_names, encode_names, DbError, IndexFile};

fn strings(names: &[&str]) -> Vec<String> {
    names.iter().map(|n| n.to_string()).collect()
}

#[test]
fn names_file_has_one_name_on_each_line() {
    assert_eq!(
        encode_names(&strings(&["pod=abc1|region=us", "pod=abc2"])),
        b"pod=abc1|region=us\npod=abc2\n".to_vec()
    );
    assert_eq!(encode_names(&strings(&[])), Vec::<u8>::new());
    assert_eq!(encode_names(&strings(&[""])), b"\n".to_vec());
    assert_eq!(encode_names(&strings(&["é=日本"])), "é=日本\n".as_bytes().to_vec());
}

#[test]
fn names_are_read_line_by_line() {
    assert_eq!(decode_names(b"a=1\nb=2\n"), Ok(strings(&["a=1", "b=2"])));
    assert_eq!(decode_names(b""), Ok(strings(&[])));
    assert_eq!(decode_names(b"\n"), Ok(strings(&[""])));
    assert_eq!(decode_names(b"a\n\nb\n"), Ok(strings(&["a", "", "b"])));
    assert_eq!(decode_names(b"a=1\nb=2"), Ok(strings(&["a=1", "b=2"])));
    assert_eq!(decode_names("é=日本\nz\n".as_bytes()), Ok(strings(&["é=日本", "z"])));
}

#[test]
fn carriage_return_before_line_feed_is_dropped() {
    assert_eq!(decode_names(b"a=1\r\nb=2\r\n"), Ok(strings(&["a=1", "b=2"])));
    assert_eq!(decode_names(b"a\r\r\n"), Ok(strings(&["a\r"])));
    assert_eq!(decode_names(b"\r\n"), Ok(strings(&[""])));
    assert_eq!(decode_names(b"a\rb\n"), Ok(strings(&["a\rb"])));
    assert_eq!(decode_names(b"a\r"), Ok(strings(&["a\r"])));
}

#[test]
fn line_that_is_not_text_makes_the_names_corrupt() {
    assert_eq!(
        decode_names(b"a\n\xff\nb\n"),
        Err(DbError::CorruptData { file: IndexFile::Names, line: 1 })
    );
    assert_eq!(
        decode_names(b"\xc3\n"),
        Err(DbError::CorruptData { file: IndexFile::Names, line: 0 })
    );
    assert_eq!(
        decode_names(b"a\nb\nc\xe6\x97"),
        Err(DbError::CorruptData { file: IndexFile::Names, line: 2 })
    );
    assert_eq!(
        decode_names(b"\x80\n\xff\n"),
        Err(DbError::CorruptData { file: IndexFile::Names, line: 0 })
    );
}

#[test]
fn names_are_read_back_as_written() {
    let cases: [&[&str]; 5] = [
        &[],
        &["pod=abc1|region=us"],
        &["a=1", "", "b=2"],
        &["é=日本|z=\u{10ffff}", "tab=\t", "cr=\rmid"],
        &["x", "y", "z", "x"],
    ];
    for case in cases {
        let names = strings(case);
        assert_eq!(decode_names(&encode_names(&names)), Ok(names));
    }
}

#[test]
fn names_are_read_as_buffered_lines_are() {
    let files: [&[u8]; 10] = [
        b"",
        b"\n",
        b"a",
        b"a\n",
        b"a\r\n",
        b"a\r",
        b"a\n\nb",
        b"\r\n\r\n",
        b"one\ntwo\r\nthree\r\r\nfour",
        "é\n日本\r\n".as_bytes(),
    ];
    for file in files {
        let expected: Vec<String> = file.lines().map(|l| l.unwrap()).collect();
        assert_eq!(decode_names(file), Ok(expected));
    }
}
