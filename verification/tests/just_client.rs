use justgui::just_client::{
    build_run_command, build_run_command_for, model_from_dump, recipes_from_dump, shell_quote,
    shell_quote_for, DumpOutcome, DumpParam, DumpRecipe, JustParam, JustRecipe, Shell,
};

fn param(name: &str, default: Option<&str>, variadic: bool) -> JustParam {
    JustParam {
        name: name.to_string(),
        default_value: default.unwrap_or("").to_string(),
        has_default: default.is_some(),
        variadic,
    }
}

fn recipe(name: &str, params: Vec<JustParam>) -> JustRecipe {
    JustRecipe { name: name.to_string(), doc: String::new(), params, is_private: false }
}

fn vals(v: &[&str]) -> Vec<String> {
    v.iter().map(|s| s.to_string()).collect()
}

#[test]
fn posix_quote_wraps_in_single_quotes() {
    assert_eq!(shell_quote("hello world"), "'hello world'");
    assert_eq!(shell_quote(""), "''");
    assert_eq!(shell_quote("it's"), "'it'\\''s'");
    assert_eq!(shell_quote("$HOME \"x\""), "'$HOME \"x\"'");
}

#[test]
fn cmd_quote_escapes_double_quotes() {
    assert_eq!(shell_quote_for(Shell::Cmd, "a b"), "\"a b\"");
    assert_eq!(shell_quote_for(Shell::Cmd, "say \"hi\""), "\"say \\\"hi\\\"\"");
    assert_eq!(shell_quote_for(Shell::Posix, "x"), shell_quote("x"));
}

#[test]
fn command_without_params() {
    let r = recipe("build", vec![]);
    assert_eq!(build_run_command(&r, &[]), "just 'build'");
}

#[test]
fn trailing_defaults_are_omitted() {
    let r = recipe("deploy", vec![param("env", Some("dev"), false), param("tag", Some("latest"), false)]);
    assert_eq!(build_run_command(&r, &vals(&["dev", "latest"])), "just 'deploy'");
    assert_eq!(build_run_command(&r, &vals(&["prod", "latest"])), "just 'deploy' 'prod'");
}

#[test]
fn later_override_forces_earlier_defaults() {
    let r = recipe("deploy", vec![param("env", Some("dev"), false), param("tag", Some("latest"), false)]);
    assert_eq!(build_run_command(&r, &vals(&["", "v2"])), "just 'deploy' 'dev' 'v2'");
    assert_eq!(build_run_command(&r, &vals(&["dev", "v2"])), "just 'deploy' 'dev' 'v2'");
}

#[test]
fn required_params_are_always_passed() {
    let r = recipe("greet", vec![param("who", None, false)]);
    assert_eq!(build_run_command(&r, &vals(&[""])), "just 'greet' ''");
    assert_eq!(build_run_command(&r, &vals(&["Ann Lee"])), "just 'greet' 'Ann Lee'");
}

#[test]
fn variadic_values_are_split_on_whitespace() {
    let r = recipe("test", vec![param("args", None, true)]);
    assert_eq!(build_run_command(&r, &vals(&["  -v   --release \t x"])), "just 'test' '-v' '--release' 'x'");
    assert_eq!(build_run_command(&r, &vals(&[""])), "just 'test'");
    assert_eq!(build_run_command(&r, &vals(&["   "])), "just 'test'");
}

#[test]
fn variadic_after_default_param() {
    let r = recipe("run", vec![param("mode", Some("fast"), false), param("rest", None, true)]);
    assert_eq!(build_run_command(&r, &vals(&["fast", "a b"])), "just 'run' 'fast' 'a' 'b'");
}

#[test]
fn fewer_values_than_params_use_only_given_ones() {
    let r = recipe("two", vec![param("a", None, false), param("b", None, false)]);
    assert_eq!(build_run_command(&r, &vals(&["x"])), "just 'two' 'x'");
    assert_eq!(build_run_command(&r, &vals(&[])), "just 'two'");
}

#[test]
fn quotes_in_names_and_values_are_escaped() {
    let r = recipe("it's", vec![param("v", None, false)]);
    assert_eq!(build_run_command(&r, &vals(&["o'k"])), "just 'it'\\''s' 'o'\\''k'");
    assert_eq!(
        build_run_command_for(Shell::Cmd, &r, &vals(&["a \"b\""])),
        "just \"it's\" \"a \\\"b\\\"\""
    );
}

fn dump_param(name: &str, default: Option<&str>, kind: &str) -> DumpParam {
    DumpParam { name: name.to_string(), default: default.map(|s| s.to_string()), kind: kind.to_string() }
}

fn dump_recipe(key: &str, name: Option<&str>, params: Vec<DumpParam>) -> DumpRecipe {
    DumpRecipe {
        key: key.to_string(),
        name: name.map(|s| s.to_string()),
        doc: Some(format!("doc of {key}")),
        private: key.starts_with('_'),
        parameters: params,
    }
}

#[test]
fn dump_recipes_are_converted_and_sorted_by_name() {
    let dump = vec![
        dump_recipe("_hidden", None, vec![]),
        dump_recipe("b", Some("zeta"), vec![dump_param("x", Some("1"), "singular"), dump_param("rest", None, "plus")]),
        dump_recipe("c", None, vec![dump_param("all", None, "star")]),
    ];
    let rs = recipes_from_dump(&dump);
    let names: Vec<&str> = rs.iter().map(|r| r.name.as_str()).collect();
    assert_eq!(names, vec!["_hidden", "c", "zeta"]);
    assert!(rs[0].is_private);
    assert_eq!(rs[0].doc, "doc of _hidden");
    let zeta = &rs[2];
    assert_eq!(zeta.params.len(), 2);
    assert_eq!(zeta.params[0].name, "x");
    assert!(zeta.params[0].has_default);
    assert_eq!(zeta.params[0].default_value, "1");
    assert!(!zeta.params[0].variadic);
    assert!(zeta.params[1].variadic && !zeta.params[1].has_default);
    assert!(rs[1].params[0].variadic);
}

#[test]
fn equal_names_keep_dump_order() {
    let mut first = dump_recipe("k1", Some("same"), vec![]);
    first.doc = Some("first".to_string());
    let mut second = dump_recipe("k2", Some("same"), vec![]);
    second.doc = Some("second".to_string());
    let rs = recipes_from_dump(&vec![dump_recipe("k0", Some("z"), vec![]), first, second]);
    assert_eq!(rs[0].doc, "first");
    assert_eq!(rs[1].doc, "second");
    assert_eq!(rs[2].name, "z");
}

#[test]
fn dump_failures_become_error_messages() {
    let m = model_from_dump(&DumpOutcome::LaunchFailed);
    assert_eq!(m.error, "failed to launch `just`");
    assert!(m.recipes.is_empty());
    let m = model_from_dump(&DumpOutcome::Failed { stderr: "  error: Unknown recipe\n".to_string() });
    assert_eq!(m.error, "error: Unknown recipe");
    let m = model_from_dump(&DumpOutcome::Failed { stderr: " \n".to_string() });
    assert_eq!(m.error, "`just` exited with an error");
    let m = model_from_dump(&DumpOutcome::Unparsable { message: "EOF".to_string() });
    assert_eq!(m.error, "could not parse `just` output: EOF");
}

#[test]
fn parsed_dump_gives_path_and_recipes() {
    let m = model_from_dump(&DumpOutcome::Parsed {
        source: Some("/p/justfile".to_string()),
        recipes: vec![dump_recipe("b", None, vec![]), dump_recipe("a", None, vec![])],
    });
    assert_eq!(m.error, "");
    assert_eq!(m.justfile_path, "/p/justfile");
    assert_eq!(m.recipes[0].name, "a");
    assert_eq!(m.recipes[1].name, "b");
    let m = model_from_dump(&DumpOutcome::Parsed { source: None, recipes: vec![] });
    assert_eq!(m.justfile_path, "");
}
