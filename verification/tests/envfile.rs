use justgui::envfile::EnvFile;

fn parse(text: &str) -> EnvFile {
    EnvFile::parse(text)
}

fn render(f: &EnvFile) -> String {
    f.render()
}

#[test]
fn parses_simple_assignments() {
    let f = parse("FOO=bar\nBAZ=1\n");
    assert_eq!(f.vars(), vec![("FOO", "bar"), ("BAZ", "1")]);
}

#[test]
fn strips_matching_quotes() {
    let f = parse("FOO=\"hello world\"\nBAR='single'\n");
    assert_eq!(f.vars(), vec![("FOO", "hello world"), ("BAR", "single")]);
}

#[test]
fn comments_and_blank_lines_are_not_vars() {
    let f = parse("# a comment\n\nFOO=bar\n");
    assert_eq!(f.vars(), vec![("FOO", "bar")]);
}

#[test]
fn export_prefix_is_recognized_and_preserved_on_save() {
    let f = parse("export FOO=bar\n");
    assert_eq!(f.vars(), vec![("FOO", "bar")]);
    assert_eq!(render(&f), "export FOO=bar\n");
}

#[test]
fn set_updates_existing_var_in_place() {
    let mut f = parse("# keep me\nFOO=old\nBAR=1\n");
    f.set("FOO", "new");
    assert_eq!(render(&f), "# keep me\nFOO=new\nBAR=1\n");
}

#[test]
fn set_appends_new_var() {
    let mut f = parse("FOO=1\n");
    f.set("BAR", "2");
    assert_eq!(render(&f), "FOO=1\nBAR=2\n");
}

#[test]
fn set_quotes_values_containing_whitespace() {
    let mut f = EnvFile::default();
    f.set("FOO", "hello world");
    assert_eq!(render(&f), "FOO=\"hello world\"\n");
}

#[test]
fn remove_drops_the_var_but_keeps_other_lines() {
    let mut f = parse("# note\nFOO=1\nBAR=2\n");
    f.remove("FOO");
    assert_eq!(render(&f), "# note\nBAR=2\n");
}

#[test]
fn empty_text_has_no_lines() {
    let f = parse("");
    assert!(f.vars().is_empty());
    assert_eq!(render(&f), "");
    assert_eq!(render(&EnvFile::new()), "");
}

#[test]
fn crlf_line_endings_are_read() {
    let f = parse("A=1\r\nB=2\r\n");
    assert_eq!(f.vars(), vec![("A", "1"), ("B", "2")]);
    assert_eq!(render(&f), "A=1\nB=2\n");
}

#[test]
fn last_line_without_newline_is_read() {
    let f = parse("A=1\nB=two");
    assert_eq!(f.vars(), vec![("A", "1"), ("B", "two")]);
}

#[test]
fn invalid_names_and_lines_without_equals_are_kept_verbatim() {
    let text = "1ABC=x\nno equals here\n  # indented comment\nA B=c\n";
    let f = parse(text);
    assert!(f.vars().is_empty());
    assert_eq!(render(&f), text);
}

#[test]
fn whitespace_around_name_and_value_is_trimmed() {
    let f = parse("  KEY  =   some value  \n\texport\t  OTHER = 'x y'\n");
    assert_eq!(f.vars(), vec![("KEY", "some value"), ("OTHER", "x y")]);
    assert_eq!(render(&f), "  KEY  =   some value  \n\texport\t  OTHER = 'x y'\n");
}

#[test]
fn set_leaves_untouched_assignments_verbatim() {
    let mut f = parse("BAR='single'\nFOO=1\n");
    f.set("FOO", "2");
    assert_eq!(render(&f), "BAR='single'\nFOO=2\n");
}

#[test]
fn set_rewrites_only_the_line_it_touches() {
    let mut f = parse("# c\n  A = 'x'  \nexport B=\"y z\"\nA=2\n");
    f.set("B", "w");
    assert_eq!(render(&f), "# c\n  A = 'x'  \nexport B=w\nA=2\n");
    f.set("C", "q r");
    assert_eq!(render(&f), "# c\n  A = 'x'  \nexport B=w\nA=2\nC=\"q r\"\n");
}

#[test]
fn parse_then_render_is_verbatim() {
    for text in ["", "A=1\n", "  K = \"v\" \n# c\n\nexport\tX='y'\n1BAD=z\n"] {
        assert_eq!(render(&parse(text)), text);
    }
}

#[test]
fn mismatched_quotes_are_kept() {
    let f = parse("A=\"abc'\nB=\"\nC=''\n");
    assert_eq!(f.vars(), vec![("A", "\"abc'"), ("B", "\""), ("C", "")]);
}

#[test]
fn values_with_hash_or_quote_are_quoted_and_escaped() {
    let mut f = EnvFile::new();
    f.set("A", "x#y");
    f.set("B", "say \"hi\"");
    f.set("C", "");
    assert_eq!(render(&f), "A=\"x#y\"\nB=\"say \\\"hi\\\"\"\nC=\"\"\n");
}

#[test]
fn set_keeps_export_and_changes_only_first_assignment() {
    let mut f = parse("export A=1\nA=2\n");
    f.set("A", "3");
    assert_eq!(render(&f), "export A=3\nA=2\n");
}

#[test]
fn set_twice_is_set_once() {
    let mut f = parse("# c\nX=1\n");
    f.set("Y", "a");
    f.set("Y", "b");
    let mut g = parse("# c\nX=1\n");
    g.set("Y", "b");
    assert_eq!(render(&f), render(&g));
}

#[test]
fn remove_drops_every_assignment_and_is_idempotent() {
    let mut f = parse("A=1\n# c\nA=2\nB=3\n");
    f.remove("A");
    assert_eq!(render(&f), "# c\nB=3\n");
    f.remove("A");
    assert_eq!(render(&f), "# c\nB=3\n");
}

#[test]
fn render_then_parse_gives_the_same_vars() {
    let mut f = EnvFile::new();
    f.set("PLAIN", "value");
    f.set("SPACED", "a b c");
    f.set("EMPTY", "");
    f.set("HASH", "#1");
    let back = parse(&render(&f));
    assert_eq!(back.vars(), f.vars());
    assert_eq!(render(&back), render(&f));
}

#[test]
fn add_key_adds_trimmed_new_keys_only() {
    let mut f = parse("FOO=bar\n");
    assert!(f.add_key("  NEW_KEY "));
    assert_eq!(render(&f), "FOO=bar\nNEW_KEY=\"\"\n");
    assert!(!f.add_key("FOO"));
    assert!(!f.add_key("   "));
    assert_eq!(render(&f), "FOO=bar\nNEW_KEY=\"\"\n");
}

#[test]
fn reload_of_a_saved_file_gives_the_same_file() {
    let text = "# c\n  A = 'x'  \nexport B=\"y z\"\n\nbad line\nC=1";
    let f = parse(text);
    let saved = render(&f);
    let back = parse(&saved);
    assert_eq!(back.vars(), f.vars());
    assert_eq!(render(&back), saved);
}
