use justgui::termout::{append_chunk, looks_like_prompt};

fn run(chunk: &str) -> String {
    let mut log = String::new();
    append_chunk(&mut log, chunk);
    log
}

#[test]
fn plain_text_passes_through() {
    assert_eq!(run("hello world\n"), "hello world\n");
}

#[test]
fn crlf_collapses_to_lf() {
    assert_eq!(run("a\r\nb\r\n"), "a\nb\n");
}

#[test]
fn bare_cr_redraws_current_line() {
    assert_eq!(run("10%\r50%\r100%\n"), "100%\n");
}

#[test]
fn bare_cr_only_erases_back_to_last_newline() {
    assert_eq!(run("line one\n10%\r100%\n"), "line one\n100%\n");
}

#[test]
fn ansi_csi_color_codes_are_stripped() {
    assert_eq!(run("\x1b[32mHELLO\x1b[0m\n"), "HELLO\n");
}

#[test]
fn ansi_osc_title_sequence_is_stripped_without_eating_following_text() {
    assert_eq!(run("\x1b]0;window title\x07after\n"), "after\n");
}

#[test]
fn recognizes_common_prompt_shapes() {
    assert!(looks_like_prompt("[sudo] password for user: "));
    assert!(looks_like_prompt("Continue? [y/N] "));
    assert!(looks_like_prompt("profile> "));
    assert!(looks_like_prompt("some prior line\nEnter passphrase:"));
}

#[test]
fn does_not_flag_ordinary_output() {
    assert!(!looks_like_prompt("Building project...\n"));
    assert!(!looks_like_prompt(""));
    assert!(!looks_like_prompt("Building project"));
}

#[test]
fn output_is_appended_to_an_existing_log() {
    let mut log = String::from("$ just build\n");
    append_chunk(&mut log, "compiling\r\n");
    append_chunk(&mut log, "done");
    assert_eq!(log, "$ just build\ncompiling\ndone");
}

#[test]
fn bare_cr_across_chunks_erases_only_the_current_line() {
    let mut log = String::from("first\nprogress 10%");
    append_chunk(&mut log, "\rprogress 90%");
    assert_eq!(log, "first\nprogress 90%");
}

#[test]
fn osc_terminated_by_esc_backslash_is_stripped() {
    assert_eq!(run("a\x1b]2;title\x1b\\b"), "ab");
}

#[test]
fn two_character_escape_is_dropped() {
    assert_eq!(run("x\x1b=y\x1b>z"), "xyz");
}

#[test]
fn unterminated_csi_swallows_rest_of_chunk() {
    assert_eq!(run("keep\x1b[12;3"), "keep");
}

#[test]
fn trailing_escape_alone_is_dropped() {
    assert_eq!(run("end\x1b"), "end");
}

#[test]
fn non_ascii_text_is_kept() {
    assert_eq!(run("héllo → wörld\n"), "héllo → wörld\n");
}

#[test]
fn plain_chunks_can_be_split_anywhere() {
    let mut a = String::from("x\n");
    append_chunk(&mut a, "abc");
    append_chunk(&mut a, "\x1b[1mdef\r\ng");
    let mut b = String::from("x\n");
    append_chunk(&mut b, "abc\x1b[1mdef\r\ng");
    assert_eq!(a, b);
}

#[test]
fn completed_lines_survive_a_redraw() {
    let mut log = String::from("one\ntwo\nthr");
    append_chunk(&mut log, "\r\rthree");
    assert!(log.starts_with("one\ntwo\n"));
    assert_eq!(log, "one\ntwo\nthree");
}

#[test]
fn prompt_heuristic_looks_at_last_line_only() {
    assert!(looks_like_prompt("Password accepted\nName:"));
    assert!(!looks_like_prompt("Enter password:\nok"));
    assert!(looks_like_prompt("PASSWORD"));
    assert!(looks_like_prompt("choose [a/b]\t "));
    assert!(!looks_like_prompt("line\n   \t"));
}

#[test]
fn splitting_after_text_with_inner_cr_keeps_the_log() {
    let mut once = String::from("start\n");
    append_chunk(&mut once, "10%\r50%\r\nnext");
    let mut twice = String::from("start\n");
    append_chunk(&mut twice, "10%\r50%");
    append_chunk(&mut twice, "\r\nnext");
    assert_eq!(once, twice);
    assert_eq!(once, "start\n50%\nnext");
}
