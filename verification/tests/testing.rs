use save::testing::{
    contains_byte, count_hashes, find_str_lit_len, format_patch, format_patch_as, line_with_end,
    lines_with_ends, lit_kind_for_patch, locate_end, trim_indent, write_hashes, Expect, Indel,
    Location, Patchwork, Position, StrLitKind,
};

#[test]
fn literal_kinds_write_their_delimiters() {
    let mut buffer = b"x = ".to_vec();
    StrLitKind::Normal.write_start(&mut buffer);
    buffer.extend_from_slice(b"text");
    StrLitKind::Normal.write_end(&mut buffer);
    assert_eq!(buffer, b"x = \"text\"".to_vec());

    let mut buffer = Vec::new();
    StrLitKind::Raw(2).write_start(&mut buffer);
    buffer.extend_from_slice(b"a\"#b");
    StrLitKind::Raw(2).write_end(&mut buffer);
    assert_eq!(buffer, b"r##\"a\"#b\"##".to_vec());

    let mut buffer = Vec::new();
    StrLitKind::Raw(0).write_start(&mut buffer);
    StrLitKind::Raw(0).write_end(&mut buffer);
    assert_eq!(buffer, b"r\"\"".to_vec());

    let mut buffer = b"#".to_vec();
    write_hashes(&mut buffer, 3);
    assert_eq!(buffer, b"####".to_vec());
}

#[test]
fn literal_kind_fits_the_patch() {
    assert_eq!(lit_kind_for_patch(b""), StrLitKind::Normal);
    assert_eq!(lit_kind_for_patch(b"abc # def"), StrLitKind::Normal);
    assert_eq!(lit_kind_for_patch(b"a\\b"), StrLitKind::Raw(1));
    assert_eq!(lit_kind_for_patch(b"a\nb"), StrLitKind::Raw(1));
    assert_eq!(lit_kind_for_patch(b"say \"hi\""), StrLitKind::Raw(1));
    assert_eq!(lit_kind_for_patch(b"a\"#b"), StrLitKind::Raw(2));
    assert_eq!(lit_kind_for_patch(b"##x\"###y\"#"), StrLitKind::Raw(4));
    assert_eq!(lit_kind_for_patch(b"###\""), StrLitKind::Raw(4));
    assert_eq!(lit_kind_for_patch(b"\""), StrLitKind::Raw(1));
    assert_eq!(lit_kind_for_patch(b"\"##"), StrLitKind::Raw(3));
}

#[test]
fn a_written_literal_is_read_back_whole() {
    for patch in ["plain", "with \"quotes\"", "a\"#b\"##c", "line\nfeed", "#\"", ""] {
        let kind = lit_kind_for_patch(patch.as_bytes());
        let mut buffer = Vec::new();
        kind.write_start(&mut buffer);
        buffer.extend_from_slice(patch.as_bytes());
        kind.write_end(&mut buffer);
        let literal_len = buffer.len();
        buffer.extend_from_slice(b"]] and more \"text\"");
        assert_eq!(find_str_lit_len(&buffer), Some(literal_len));
    }
}

#[test]
fn bytes_and_hashes_are_counted() {
    assert!(contains_byte(b"abc", b'c'));
    assert!(!contains_byte(b"abc", b'd'));
    assert!(!contains_byte(b"", b'a'));
    assert_eq!(count_hashes(b"##a#", 0), 2);
    assert_eq!(count_hashes(b"##a#", 1), 1);
    assert_eq!(count_hashes(b"##a#", 2), 0);
    assert_eq!(count_hashes(b"##a#", 3), 1);
    assert_eq!(count_hashes(b"##a#", 4), 0);
}

#[test]
fn lines_keep_their_ends() {
    assert_eq!(lines_with_ends(b"a\nbc\n\nd"), vec![(0, 2), (2, 5), (5, 6), (6, 7)]);
    assert_eq!(lines_with_ends(b""), vec![]);
    assert_eq!(lines_with_ends(b"x\n"), vec![(0, 2)]);
    assert_eq!(lines_with_ends(b"no end"), vec![(0, 6)]);
    assert_eq!(line_with_end(b"a\nbc", 0), Some(2));
    assert_eq!(line_with_end(b"a\nbc", 1), Some(2));
    assert_eq!(line_with_end(b"a\nbc", 2), Some(4));
    assert_eq!(line_with_end(b"a\nbc", 4), None);
}

#[test]
fn string_literal_lengths() {
    assert_eq!(find_str_lit_len(b"\"abc\" rest"), Some(5));
    assert_eq!(find_str_lit_len(b"\"\""), Some(2));
    assert_eq!(find_str_lit_len(b"\"a\\\"b\"x"), Some(6));
    assert_eq!(find_str_lit_len(b"\"a\\\\\"b\""), Some(5));
    assert_eq!(find_str_lit_len(b"r\"abc\""), Some(6));
    assert_eq!(find_str_lit_len(b"r#\"a\"b\"#x"), Some(8));
    assert_eq!(find_str_lit_len(b"r##\"a\"#\"##"), Some(10));
    assert_eq!(find_str_lit_len(b"r#\"a\\\"#"), Some(7));
    assert_eq!(find_str_lit_len(b""), None);
    assert_eq!(find_str_lit_len(b"\"unclosed"), None);
    assert_eq!(find_str_lit_len(b"\"a\\"), None);
    assert_eq!(find_str_lit_len(b"x\"a\""), None);
    assert_eq!(find_str_lit_len(b"r#x\"a\"#"), None);
    assert_eq!(find_str_lit_len(b"r##\"a\"#"), None);
    assert_eq!(find_str_lit_len(b"r#"), None);
    assert_eq!(find_str_lit_len(b"r"), None);
}

#[test]
fn patches_are_placed_by_the_text_as_it_was() {
    let mut patchwork = Patchwork::new(b"aaa bbb ccc".to_vec());
    patchwork.patch(4, 7, b"XX");
    assert_eq!(patchwork.text, b"aaa XX ccc".to_vec());
    patchwork.patch(8, 11, b"YYYY");
    assert_eq!(patchwork.text, b"aaa XX YYYY".to_vec());
    patchwork.patch(0, 3, b"Z");
    assert_eq!(patchwork.text, b"Z XX YYYY".to_vec());
    assert_eq!(
        patchwork.indels,
        vec![
            Indel { start: 0, end: 3, inserted: 1 },
            Indel { start: 4, end: 7, inserted: 2 },
            Indel { start: 8, end: 11, inserted: 4 },
        ]
    );
    patchwork.patch(7, 8, b"");
    assert_eq!(patchwork.text, b"Z XXYYYY".to_vec());
}

#[test]
fn arguments_end_at_their_closing_bracket() {
    assert_eq!(locate_end(b"[\"abc\"]"), Some(7));
    assert_eq!(locate_end(b"[\"abc\"] and more ]"), Some(7));
    assert_eq!(locate_end(b"[  r#\"x\"#  ]"), Some(12));
    assert_eq!(locate_end(b"(\"a\")"), Some(5));
    assert_eq!(locate_end(b"(\n    \"a\",\n)"), Some(12));
    assert_eq!(locate_end(b"[]"), Some(2));
    assert_eq!(locate_end(b"[ ]"), Some(2));
    assert_eq!(locate_end(b"]"), Some(0));
    assert_eq!(locate_end(b"}"), Some(0));
    assert_eq!(locate_end(b")"), Some(0));
    assert_eq!(locate_end(b"\"ab\" more"), Some(4));
    assert_eq!(locate_end(b"r\"ab\""), Some(5));
    assert_eq!(locate_end(b"[\"abc\""), None);
    assert_eq!(locate_end(b"[\"abc\")"), None);
    assert_eq!(locate_end(b"[abc]"), None);
    assert_eq!(locate_end(b"abc"), None);
    assert_eq!(locate_end(b""), None);
}

#[test]
fn expectations_are_located_in_their_file() {
    let file = b"fn f() {\n    expect(\"text\").assert_eq(x);\n}\n";
    let position = Position { file: "src/f.rs", line: 2, column: 5 };
    assert_eq!(
        Expect::new(position, "text").locate(file),
        Some(Location { line_indent: 4, literal_start: 20, literal_end: 26 })
    );

    let file = b"\n\n  let e = expect![[r#\"a\n  b\"#]];\n";
    let position = Position { file: "src/f.rs", line: 3, column: 11 };
    let found = Expect::new(position, "a\nb").locate(file).unwrap();
    assert_eq!(found.line_indent, 2);
    assert_eq!(&file[found.literal_start..found.literal_end], b"[r#\"a\n  b\"#]");

    let file = b"expect(   \n   \"later\")";
    let position = Position { file: "src/f.rs", line: 1, column: 1 };
    let found = Expect::new(position, "later").locate(file).unwrap();
    assert_eq!(&file[found.literal_start..found.literal_end], b"\"later\"");
    assert_eq!(found.line_indent, 0);
}

#[test]
fn expectations_that_are_not_there_are_not_located() {
    let file = b"fn f() {\n    expect(\"text\").assert_eq(x);\n}\n";
    let at = |line: u32, column: u32| {
        Expect::new(Position { file: "src/f.rs", line, column }, "text").locate(file)
    };
    assert!(at(2, 5).is_some());
    assert_eq!(at(0, 5), None);
    assert_eq!(at(2, 0), None);
    assert_eq!(at(4, 1), None);
    assert_eq!(at(9, 1), None);
    assert_eq!(at(3, 1), None);
    assert_eq!(at(2, 40), None);
    assert_eq!(at(2, 12), None);
    assert_eq!(at(2, 11), Some(Location { line_indent: 4, literal_start: 20, literal_end: 26 }));
    assert_eq!(at(1, 1), Some(Location { line_indent: 0, literal_start: 5, literal_end: 5 }));
    assert_eq!(Expect::new(Position { file: "f", line: 1, column: 1 }, "").locate(b""), None);
    assert_eq!(Expect::new(Position { file: "f", line: 1, column: 1 }, "").locate(b"x("), None);
}

#[test]
fn shared_indentation_is_trimmed() {
    assert_eq!(trim_indent(b"\n    hello\n      world\n    "), b"hello\n  world\n".to_vec());
    assert_eq!(trim_indent(b"  a\n\n  b\n"), b"a\n\nb\n".to_vec());
    assert_eq!(trim_indent(b"\ta\n\t\tb"), b"a\n\tb".to_vec());
    assert_eq!(trim_indent(b"a\n  b\n"), b"a\n  b\n".to_vec());
    assert_eq!(trim_indent(b"\n\n  a\n"), b"\na\n".to_vec());
    assert_eq!(trim_indent(b"   \n \n"), b"   \n \n".to_vec());
    assert_eq!(trim_indent(b""), b"".to_vec());
    assert_eq!(trim_indent(b"\n"), b"".to_vec());
    assert_eq!(trim_indent(b"      x\n    y\n  \n"), b"  x\ny\n\n".to_vec());
}

#[test]
fn expected_text_is_compared_as_it_is_meant() {
    let position = Position { file: "src/f.rs", line: 1, column: 1 };
    let one_line = Expect::new(position, "  kept as it is ");
    assert_eq!(one_line.trimmed(), b"  kept as it is ".to_vec());
    assert!(one_line.matches("  kept as it is "));
    assert!(!one_line.matches("kept as it is"));
    let lines = Expect::new(position, "\n        first\n          second\n    ");
    assert_eq!(lines.trimmed(), b"first\n  second\n".to_vec());
    assert!(lines.matches("first\n  second\n"));
    assert!(!lines.matches("first\n  second"));
    assert!(!lines.matches("first\n  secons\n"));
}

#[test]
fn patches_are_written_as_literals() {
    assert_eq!(format_patch(None, b"abc"), b"\"abc\"".to_vec());
    assert_eq!(format_patch(Some(8), b"abc"), b"\"abc\"".to_vec());
    assert_eq!(format_patch(None, b""), b"\"\"".to_vec());
    assert_eq!(format_patch(None, b"say \"hi\""), b"[r#\"say \"hi\"\"#]".to_vec());
    assert_eq!(format_patch(None, b"a\\b"), b"[r#\"a\\b\"#]".to_vec());
    assert_eq!(
        format_patch(Some(4), b"a\nb\n"),
        b"[r#\"\n        a\n        b\n    \"#]".to_vec()
    );
    assert_eq!(format_patch(None, b"a\nb\n"), b"[r#\"\na\nb\n\"#]".to_vec());
    assert_eq!(format_patch(Some(0), b"a\n\n  b"), b"[r#\"\n    a\n\n      b\"#]".to_vec());
    assert_eq!(format_patch(Some(2), b"x\"#\n"), b"[r##\"\n      x\"#\n  \"##]".to_vec());
    assert_eq!(
        format_patch_as(StrLitKind::Raw(3), Some(1), b"q"),
        b"[r###\"q\"###]".to_vec()
    );
}

#[test]
fn a_formatted_patch_is_read_back_as_one_argument() {
    for patch in ["plain", "two\nlines\n", "with \"quotes\"\n  and # hashes \"#\n"] {
        let mut text = format_patch(Some(4), patch.as_bytes());
        let argument_len = text.len();
        text.extend_from_slice(b".assert_eq(\"x\")]");
        assert_eq!(locate_end(&text), Some(argument_len));
        let literal = if text[0] == b'[' { &text[1..argument_len - 1] } else { &text[..argument_len] };
        assert_eq!(find_str_lit_len(literal), Some(literal.len()));
    }
}
