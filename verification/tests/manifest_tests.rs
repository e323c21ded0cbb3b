use runtime_diff::manifest::{join_lines, parse_manifest};
use runtime_diff::strutil::{find_char, str_eq, trim};

#[test]
fn parse_build_and_test_sections() {
    let text = "build:\necho building\n\ntest:\na: printf 'RUNTIME CHECK: 1\\nRUNTIME CHECK: 2\\n'\nb: printf 'RUNTIME CHECK: 1\\nRUNTIME CHECK: 3\\n'\n";
    let m = parse_manifest(text);
    assert_eq!(m.build_commands, vec!["echo building".to_string()]);
    assert_eq!(m.test_specs.len(), 2);
    assert_eq!(m.test_specs[0].name, "a");
    assert_eq!(
        m.test_specs[0].command,
        "printf 'RUNTIME CHECK: 1\\nRUNTIME CHECK: 2\\n'"
    );
    assert_eq!(m.test_specs[1].name, "b");
    assert_eq!(
        m.test_specs[1].command,
        "printf 'RUNTIME CHECK: 1\\nRUNTIME CHECK: 3\\n'"
    );
}

#[test]
fn parse_twice_yields_identical_specs() {
    let text = "# comment\nbuild:\nmake all\nmake extra\n\ntest:\nfirst: ./a\nsecond: ./b\n";
    let m1 = parse_manifest(text);
    let m2 = parse_manifest(text);
    assert_eq!(m1, m2);
    assert_eq!(m1.test_specs.len(), 2);
    assert_eq!(m1.build_commands, vec!["make all".to_string(), "make extra".to_string()]);
}

#[test]
fn parse_skips_comments_blanks_and_unknown_sections() {
    let text = "# heading\n\nextras:\nignored line\n\nbuild:\n  cc main.c  \n# another comment\ntest:\nrun: ./main\n";
    let m = parse_manifest(text);
    assert_eq!(m.build_commands, vec!["cc main.c".to_string()]);
    assert_eq!(m.test_specs.len(), 1);
    assert_eq!(m.test_specs[0].name, "run");
    assert_eq!(m.test_specs[0].command, "./main");
}

#[test]
fn parse_drops_test_lines_without_colon() {
    let text = "test:\nnocolonhere\nok: ./x\n";
    let m = parse_manifest(text);
    assert_eq!(m.test_specs.len(), 1);
    assert_eq!(m.test_specs[0].name, "ok");
}

#[test]
fn parse_header_is_one_identifier_and_one_colon() {
    // a doubled colon is no identifier: the line is content, not a header,
    // so no build section ever opens
    let m = parse_manifest("build::\necho hi\n");
    assert!(m.build_commands.is_empty());
    // a blank inside the line keeps it from being a header too
    let m2 = parse_manifest("build:\necho done:\nnot a header:\n");
    assert_eq!(
        m2.build_commands,
        vec!["echo done:".to_string(), "not a header:".to_string()]
    );
}

#[test]
fn parse_test_line_with_trailing_colon_is_an_entry() {
    // "name: cmd:" holds a blank and a second colon, so it is a test entry,
    // not a section header
    let m = parse_manifest("test:\nname: cmd:\n");
    assert_eq!(m.test_specs.len(), 1);
    assert_eq!(m.test_specs[0].name, "name");
    assert_eq!(m.test_specs[0].command, "cmd:");
}

#[test]
fn parse_test_command_splits_on_first_colon() {
    let text = "test:\nname: sh -c 'echo a: b'\n";
    let m = parse_manifest(text);
    assert_eq!(m.test_specs[0].name, "name");
    assert_eq!(m.test_specs[0].command, "sh -c 'echo a: b'");
}

#[test]
fn parse_empty_text_yields_nothing() {
    let m = parse_manifest("");
    assert!(m.build_commands.is_empty());
    assert!(m.test_specs.is_empty());
}

#[test]
fn join_lines_builds_one_script() {
    assert_eq!(join_lines(&Vec::new()), "");
    assert_eq!(join_lines(&vec!["make".to_string()]), "make");
    assert_eq!(
        join_lines(&vec!["cc a.c".to_string(), "cc b.c".to_string(), "ld a.o b.o".to_string()]),
        "cc a.c\ncc b.c\nld a.o b.o"
    );
}

#[test]
fn trim_removes_blank_edges() {
    assert_eq!(trim("  hello world \t"), "hello world");
    assert_eq!(trim("\r\n"), "");
    assert_eq!(trim("x"), "x");
}

#[test]
fn find_char_reports_first_occurrence() {
    assert_eq!(find_char("a:b:c", ':'), Some(1));
    assert_eq!(find_char("abc", ':'), None);
}

#[test]
fn str_eq_compares_contents() {
    assert!(str_eq("same", "same"));
    assert!(!str_eq("same", "sane"));
    assert!(!str_eq("same", "same "));
}
