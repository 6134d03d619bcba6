use justgui::sessions::Sessions;

#[test]
fn a_long_running_session_does_not_block_another() {
    let mut s = Sessions::new();
    let stay = s.start("stay-up", "just 'stay-up'");
    assert_eq!(s.len(), 1);
    assert_eq!(s.active(), stay);
    let quick = s.start("quick", "just 'quick'");
    assert_eq!(s.len(), 2, "second recipe should have started its own session");
    assert_eq!(s.active(), quick);

    s.record_output(quick, "quick done\r\n", None);
    s.record_output(quick, "", Some(0));
    s.sweep();
    let (log, running, needs) = s.active_state();
    assert_eq!(log, "$ just 'quick'\nquick done\n\n[exit code 0]\n");
    assert!(!running && !needs);

    // switching back sweeps the finished, no longer shown session
    s.select(stay);
    assert_eq!(s.len(), 1);
    assert_eq!(s.get(0).id, stay);
    assert!(!s.get(0).finished);

    s.close(stay);
    assert_eq!(s.len(), 0);
    assert_eq!(s.active(), -1);
}

#[test]
fn exit_code_line_handles_negative_codes_and_finished_sessions_ignore_output() {
    let mut s = Sessions::new();
    let id = s.start("r", "cmd");
    s.record_output(id, "out", Some(-1));
    s.record_output(id, "late", None);
    assert_eq!(s.get(0).log, "$ cmd\nout\n[exit code -1]\n");
    assert!(s.get(0).finished);
    s.record_output(99, "nobody", None);
    assert_eq!(s.len(), 1);
}

#[test]
fn closing_the_shown_session_shows_the_last_remaining() {
    let mut s = Sessions::new();
    let a = s.start("a", "ca");
    let b = s.start("b", "cb");
    let c = s.start("c", "cc");
    s.select(b);
    s.close(b);
    assert_eq!(s.active(), c);
    s.close(a);
    assert_eq!(s.active(), c);
    assert_eq!(s.len(), 1);
    assert_eq!(s.next_id(), 3);
}

#[test]
fn tabs_and_recipe_state_reflect_prompts() {
    let mut s = Sessions::new();
    let id = s.start("jam", "just 'jam'");
    s.record_output(id, "Select a profile:\n1) fast\nprofile> ", None);
    let tabs = s.tabs();
    assert_eq!(tabs.len(), 1);
    assert_eq!(tabs[0].name, "jam");
    assert!(tabs[0].running && tabs[0].needs_input);
    assert_eq!(s.recipe_state("jam"), (true, true));
    assert_eq!(s.recipe_state("other"), (false, false));
    s.record_output(id, "2\nchosen profile: fast\n", None);
    assert_eq!(s.recipe_state("jam"), (true, false));
    s.clear_log();
    assert_eq!(s.active_state(), (String::new(), true, false));
}

#[test]
fn finished_shown_session_stays_until_switching_away() {
    let mut s = Sessions::new();
    let a = s.start("a", "ca");
    s.record_output(a, "", Some(3));
    s.sweep();
    assert_eq!(s.len(), 1);
    let b = s.start("b", "cb");
    assert_eq!(s.len(), 1);
    assert_eq!(s.get(0).id, b);
}
