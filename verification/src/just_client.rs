//! The `just` side of things: the recipes of a justfile as `just --dump`
//! reports them, and the command line that runs one of them.
use vstd::prelude::*;
use crate::text::{
    chars_of, is_text_order, is_whitespace, is_ws, lead_ws, lemma_lead_ws, skip_ws_backward,
    skip_ws_forward, string_from_chars, string_from_range, text_order, trim,
};

verus! {

/// One parameter of a recipe.
#[derive(Debug, Clone)]
pub struct JustParam {
    pub name: String,
    /// Only meaningful when `has_default` holds.
    pub default_value: String,
    pub has_default: bool,
    /// `*args` / `+args`: zero or more / one or more words.
    pub variadic: bool,
}

/// One recipe of the justfile.
#[derive(Debug, Clone)]
pub struct JustRecipe {
    pub name: String,
    pub doc: String,
    pub params: Vec<JustParam>,
    pub is_private: bool,
}

/// Everything the window shows about a justfile.
#[derive(Debug, Clone)]
pub struct JustModel {
    pub justfile_path: String,
    pub recipes: Vec<JustRecipe>,
    /// Empty when the justfile was read fine.
    pub error: String,
}

impl Default for JustParam {
    fn default() -> (r: Self)
        ensures
            r.name@.len() == 0 && r.default_value@.len() == 0 && !r.has_default && !r.variadic,
    {
        JustParam { name: String::new(), default_value: String::new(), has_default: false, variadic: false }
    }
}

impl Default for JustRecipe {
    fn default() -> (r: Self)
        ensures
            r.name@.len() == 0 && r.doc@.len() == 0 && r.params@.len() == 0 && !r.is_private,
    {
        JustRecipe { name: String::new(), doc: String::new(), params: Vec::new(), is_private: false }
    }
}

impl Default for JustModel {
    fn default() -> (r: Self)
        ensures
            r.justfile_path@.len() == 0 && r.recipes@.len() == 0 && r.error@.len() == 0,
    {
        JustModel { justfile_path: String::new(), recipes: Vec::new(), error: String::new() }
    }
}

/// The shell a command line is written for.
#[derive(Debug, Clone, Copy, PartialEq, Eq, Structural)]
pub enum Shell {
    /// `/bin/sh -c` (POSIX).
    Posix,
    /// `cmd.exe /c` (Windows).
    Cmd,
}

/// The quoting of one character inside POSIX single quotes.
pub open spec fn posix_escape(c: char) -> Seq<char> {
    if c == '\'' {
        seq!['\'', '\\', '\'', '\'']
    } else {
        seq![c]
    }
}

/// The quoting of one character inside `cmd.exe` double quotes.
pub open spec fn cmd_escape(c: char) -> Seq<char> {
    if c == '"' {
        seq!['\\', '"']
    } else {
        seq![c]
    }
}

pub open spec fn escape_for(shell: Shell, c: char) -> Seq<char> {
    match shell {
        Shell::Posix => posix_escape(c),
        Shell::Cmd => cmd_escape(c),
    }
}

pub open spec fn quote_char(shell: Shell) -> char {
    match shell {
        Shell::Posix => '\'',
        Shell::Cmd => '"',
    }
}

/// The escaped characters of `s`, between the quotes.
pub open spec fn quoted_body(shell: Shell, s: Seq<char>) -> Seq<char>
    decreases s.len(),
{
    if s.len() == 0 {
        seq![]
    } else {
        escape_for(shell, s[0]) + quoted_body(shell, s.drop_first())
    }
}

/// `s` as one quoted shell word.
pub open spec fn spec_quote(shell: Shell, s: Seq<char>) -> Seq<char> {
    seq![quote_char(shell)] + quoted_body(shell, s) + seq![quote_char(shell)]
}

pub proof fn lemma_quoted_body_push(shell: Shell, s: Seq<char>, c: char)
    ensures
        quoted_body(shell, s.push(c)) == quoted_body(shell, s) + escape_for(shell, c),
    decreases s.len(),
{
    if s.len() == 0 {
        assert(s.push(c).drop_first() =~= Seq::<char>::empty());
        assert(s.push(c)[0] == c);
        assert(quoted_body(shell, s.push(c).drop_first()) == Seq::<char>::empty());
        assert(quoted_body(shell, s) == Seq::<char>::empty());
        assert(quoted_body(shell, s.push(c)) =~= escape_for(shell, c));
    } else {
        assert(s.push(c).drop_first() =~= s.drop_first().push(c));
        lemma_quoted_body_push(shell, s.drop_first(), c);
        assert(quoted_body(shell, s.push(c)) =~= quoted_body(shell, s) + escape_for(shell, c));
    }
}

/// Appends `v@[from..to]`, quoted for `shell`, to `out`.
fn push_quoted(out: &mut Vec<char>, shell: Shell, v: &Vec<char>, from: usize, to: usize)
    requires
        from <= to <= v.len(),
    ensures
        final(out)@ == old(out)@ + spec_quote(shell, v@.subrange(from as int, to as int)),
{
    let q = match shell {
        Shell::Posix => '\'',
        Shell::Cmd => '"',
    };
    out.push(q);
    let ghost start = out@;
    let mut i = from;
    assert(v@.subrange(from as int, from as int) =~= Seq::<char>::empty());
    while i < to
        invariant
            from <= i <= to <= v.len(),
            out@ == start + quoted_body(shell, v@.subrange(from as int, i as int)),
        decreases to - i,
    {
        let c = v[i];
        proof {
            assert(v@.subrange(from as int, i + 1) =~= v@.subrange(from as int, i as int).push(c));
            lemma_quoted_body_push(shell, v@.subrange(from as int, i as int), c);
        }
        match shell {
            Shell::Posix => {
                if c == '\'' {
                    out.push('\'');
                    out.push('\\');
                    out.push('\'');
                    out.push('\'');
                } else {
                    out.push(c);
                }
            },
            Shell::Cmd => {
                if c == '"' {
                    out.push('\\');
                }
                out.push(c);
            },
        }
        i = i + 1;
        assert(out@ =~= start + quoted_body(shell, v@.subrange(from as int, i as int)));
    }
    out.push(q);
    assert(out@ =~= old(out)@ + spec_quote(shell, v@.subrange(from as int, to as int)));
}

/// Quotes `arg` as a single word for `shell`: POSIX wraps it in single
/// quotes (a `'` becomes `'\''`); `cmd.exe` wraps it in double quotes (a `"`
/// becomes `\"`).
pub fn shell_quote_for(shell: Shell, arg: &str) -> (r: String)
    ensures
        r@ == spec_quote(shell, arg@),
{
    let v = chars_of(arg);
    let mut out: Vec<char> = Vec::new();
    push_quoted(&mut out, shell, &v, 0, v.len());
    assert(v@.subrange(0, v.len() as int) =~= v@);
    assert(out@ =~= spec_quote(shell, arg@));
    string_from_chars(&out)
}

/// Quotes `arg` so that `/bin/sh -c` sees it as a single word.
pub fn shell_quote(arg: &str) -> (r: String)
    ensures
        r@ == spec_quote(Shell::Posix, arg@),
{
    shell_quote_for(Shell::Posix, arg)
}

/// Number of leading non-whitespace characters of `s`.
pub open spec fn word_len(s: Seq<char>) -> nat
    decreases s.len(),
{
    if s.len() > 0 && !is_ws(s[0]) {
        1 + word_len(s.drop_first())
    } else {
        0
    }
}

pub proof fn lemma_word_len(s: Seq<char>)
    ensures
        word_len(s) <= s.len(),
        forall|k: int| 0 <= k < word_len(s) ==> !is_ws(#[trigger] s[k]),
        word_len(s) < s.len() ==> is_ws(s[word_len(s) as int]),
    decreases s.len(),
{
    if s.len() > 0 && !is_ws(s[0]) {
        lemma_word_len(s.drop_first());
        assert forall|k: int| 0 <= k < word_len(s) implies !is_ws(#[trigger] s[k]) by {
            if k > 0 {
                assert(s[k] == s.drop_first()[k - 1]);
            }
        }
    }
}

/// The whitespace-separated words of `s`, as `str::split_whitespace` gives them.
pub open spec fn ws_tokens(s: Seq<char>) -> Seq<Seq<char>>
    decreases s.len(),
{
    let a = lead_ws(s);
    if a >= s.len() {
        seq![]
    } else {
        let t = s.skip(a as int);
        proof {
            lemma_lead_ws(s);
            lemma_word_len(t);
        }
        seq![t.take(word_len(t) as int)] + ws_tokens(t.skip(word_len(t) as int))
    }
}

/// The words `ws`, each preceded by a space and quoted for `shell`.
pub open spec fn join_words(shell: Shell, ws: Seq<Seq<char>>) -> Seq<char>
    decreases ws.len(),
{
    if ws.len() == 0 {
        seq![]
    } else {
        seq![' '] + spec_quote(shell, ws[0]) + join_words(shell, ws.drop_first())
    }
}

pub proof fn lemma_join_words_concat(shell: Shell, a: Seq<Seq<char>>, b: Seq<Seq<char>>)
    ensures
        join_words(shell, a + b) == join_words(shell, a) + join_words(shell, b),
    decreases a.len(),
{
    if a.len() == 0 {
        assert(a + b =~= b);
        assert(join_words(shell, a) == Seq::<char>::empty());
        assert(join_words(shell, a + b) =~= join_words(shell, a) + join_words(shell, b));
    } else {
        assert((a + b).drop_first() =~= a.drop_first() + b);
        assert((a + b)[0] == a[0]);
        lemma_join_words_concat(shell, a.drop_first(), b);
        assert(join_words(shell, a + b) =~= join_words(shell, a) + join_words(shell, b));
    }
}

/// Index just past the word of `v@` that starts at `from` (bounded by `to`).
fn skip_word(v: &Vec<char>, from: usize, to: usize) -> (r: usize)
    requires
        from <= to <= v.len(),
    ensures
        r == from + word_len(v@.subrange(from as int, to as int)),
        from <= r <= to,
{
    let mut i = from;
    proof {
        lemma_word_len(v@.subrange(from as int, to as int));
    }
    while i < to && !is_whitespace(v[i])
        invariant
            from <= i <= to <= v.len(),
            word_len(v@.subrange(from as int, to as int)) == (i - from) + word_len(
                v@.subrange(i as int, to as int),
            ),
        decreases to - i,
    {
        assert(v@.subrange(i as int, to as int).drop_first() =~= v@.subrange(i + 1, to as int));
        i = i + 1;
    }
    i
}

/// Appends every whitespace-separated word of `v@`, each as ` 'word'`.
fn push_words(out: &mut Vec<char>, shell: Shell, v: &Vec<char>)
    ensures
        final(out)@ == old(out)@ + join_words(shell, ws_tokens(v@)),
{
    let n = v.len();
    let mut pos: usize = 0;
    assert(v@.subrange(0, n as int) =~= v@);
    while pos < n
        invariant
            pos <= n == v.len(),
            old(out)@ + join_words(shell, ws_tokens(v@)) == out@ + join_words(
                shell,
                ws_tokens(v@.subrange(pos as int, n as int)),
            ),
        decreases n - pos,
    {
        let ghost rest = v@.subrange(pos as int, n as int);
        let a = skip_ws_forward(v, pos, n);
        proof {
            lemma_lead_ws(rest);
            assert(rest.skip(lead_ws(rest) as int) =~= v@.subrange(a as int, n as int));
        }
        if a == n {
            assert(ws_tokens(rest) =~= Seq::<Seq<char>>::empty());
            assert(v@.subrange(n as int, n as int) =~= Seq::<char>::empty());
            assert(ws_tokens(v@.subrange(n as int, n as int)) =~= Seq::<Seq<char>>::empty());
            pos = n;
        } else {
            let b = skip_word(v, a, n);
            proof {
                let t = v@.subrange(a as int, n as int);
                assert(t.take(word_len(t) as int) =~= v@.subrange(a as int, b as int));
                assert(t.skip(word_len(t) as int) =~= v@.subrange(b as int, n as int));
                assert(ws_tokens(rest) =~= seq![v@.subrange(a as int, b as int)] + ws_tokens(
                    v@.subrange(b as int, n as int),
                ));
                let ws = ws_tokens(rest);
                assert(ws[0] == v@.subrange(a as int, b as int));
                assert(ws.drop_first() =~= ws_tokens(v@.subrange(b as int, n as int)));
            }
            out.push(' ');
            push_quoted(out, shell, v, a, b);
            pos = b;
        }
    }
}

/// A parameter's value must be passed on the command line: a variadic one
/// when non-empty, another one when it has no default or differs from it.
pub open spec fn overridden(p: JustParam, v: Seq<char>) -> bool {
    if p.variadic {
        v.len() > 0
    } else {
        !p.has_default || v != p.default_value@
    }
}

/// The words passed for one parameter: the words of a variadic value, the
/// default for a blank value with a default, or the value itself.
pub open spec fn param_words(p: JustParam, v: Seq<char>) -> Seq<Seq<char>> {
    if p.variadic {
        ws_tokens(v)
    } else if v.len() == 0 && p.has_default {
        seq![p.default_value@]
    } else {
        seq![v]
    }
}

/// Number of parameters that have a value.
pub open spec fn given_count(r: JustRecipe, vals: Seq<String>) -> int {
    if vals.len() < r.params@.len() {
        vals.len() as int
    } else {
        r.params@.len() as int
    }
}

/// The last of the first `k` parameters whose value must be passed.
pub open spec fn last_needed(r: JustRecipe, vals: Seq<String>, k: int) -> Option<nat>
    decreases k,
{
    if k <= 0 {
        None
    } else if overridden(r.params@[k - 1], vals[k - 1]@) {
        Some((k - 1) as nat)
    } else {
        last_needed(r, vals, k - 1)
    }
}

/// The words for the first `k` parameters.
pub open spec fn words_upto(r: JustRecipe, vals: Seq<String>, k: int) -> Seq<Seq<char>>
    decreases k,
{
    if k <= 0 {
        seq![]
    } else {
        words_upto(r, vals, k - 1) + param_words(r.params@[k - 1], vals[k - 1]@)
    }
}

/// The arguments after the recipe name: arguments are positional, so every
/// parameter up to the last one that must be passed is passed.
pub open spec fn run_args(r: JustRecipe, vals: Seq<String>) -> Seq<Seq<char>> {
    match last_needed(r, vals, given_count(r, vals)) {
        None => seq![],
        Some(l) => words_upto(r, vals, l + 1int),
    }
}

pub open spec fn just_word() -> Seq<char> {
    seq!['j', 'u', 's', 't']
}

/// The command line that runs recipe `r` with parameter values `vals`.
pub open spec fn spec_run_command(shell: Shell, r: JustRecipe, vals: Seq<String>) -> Seq<char> {
    just_word() + join_words(shell, seq![r.name@] + run_args(r, vals))
}

proof fn lemma_last_needed(r: JustRecipe, vals: Seq<String>, k: int)
    ensures
        last_needed(r, vals, k) matches Some(l) ==> l < k,
    decreases k,
{
    if k > 0 {
        lemma_last_needed(r, vals, k - 1);
    }
}

/// Builds the `just <recipe> <args...>` command line for `shell`, quoting
/// each word. `param_values[i]` belongs to `recipe.params[i]`; variadic
/// parameters are split on whitespace into several words, and trailing
/// parameters left at their defaults are omitted.
pub fn build_run_command_for(shell: Shell, recipe: &JustRecipe, param_values: &[String]) -> (r:
    String)
    ensures
        r@ == spec_run_command(shell, *recipe, param_values@),
{
    let ghost vals = param_values@;
    let n = if param_values.len() < recipe.params.len() {
        param_values.len()
    } else {
        recipe.params.len()
    };
    let mut last: usize = 0;
    let mut any = false;
    let mut i: usize = 0;
    while i < n
        invariant
            i <= n,
            n == given_count(*recipe, vals),
            vals == param_values@,
            any == (last_needed(*recipe, vals, i as int) is Some),
            any ==> last_needed(*recipe, vals, i as int) == Some(last as nat),
        decreases n - i,
    {
        let p = &recipe.params[i];
        let v = &param_values[i];
        let over = if p.variadic {
            !v.as_str().is_empty()
        } else {
            !p.has_default || !(*v == p.default_value)
        };
        if over {
            last = i;
            any = true;
        }
        i = i + 1;
    }
    let mut out: Vec<char> = Vec::new();
    out.push('j');
    out.push('u');
    out.push('s');
    out.push('t');
    let name = chars_of(recipe.name.as_str());
    out.push(' ');
    push_quoted(&mut out, shell, &name, 0, name.len());
    proof {
        assert(name@.subrange(0, name.len() as int) =~= recipe.name@);
        let ws = seq![recipe.name@];
        assert(ws.drop_first() =~= Seq::<Seq<char>>::empty());
        assert(join_words(shell, ws.drop_first()) == Seq::<char>::empty());
        assert(ws[0] == recipe.name@);
        assert(out@ =~= just_word() + join_words(shell, ws));
        lemma_last_needed(*recipe, vals, n as int);
    }
    if !any {
        assert(seq![recipe.name@] + run_args(*recipe, vals) =~= seq![recipe.name@]);
        return string_from_chars(&out);
    }
    let mut k: usize = 0;
    assert(seq![recipe.name@] + words_upto(*recipe, vals, 0) =~= seq![recipe.name@]);
    while k <= last
        invariant
            last < n <= recipe.params.len(),
            n <= param_values.len(),
            vals == param_values@,
            k <= last + 1,
            out@ == just_word() + join_words(
                shell,
                seq![recipe.name@] + words_upto(*recipe, vals, k as int),
            ),
        decreases last + 1 - k,
    {
        let p = &recipe.params[k];
        let v = &param_values[k];
        let ghost before = out@;
        let ghost prev = seq![recipe.name@] + words_upto(*recipe, vals, k as int);
        if p.variadic {
            let c = chars_of(v.as_str());
            push_words(&mut out, shell, &c);
        } else {
            let chosen = if v.as_str().is_empty() && p.has_default {
                chars_of(p.default_value.as_str())
            } else {
                chars_of(v.as_str())
            };
            out.push(' ');
            push_quoted(&mut out, shell, &chosen, 0, chosen.len());
            proof {
                assert(chosen@.subrange(0, chosen.len() as int) =~= chosen@);
                let w = param_words(recipe.params@[k as int], vals[k as int]@);
                assert(w.drop_first() =~= Seq::<Seq<char>>::empty());
                assert(join_words(shell, w.drop_first()) == Seq::<char>::empty());
                assert(w[0] == chosen@);
                assert(join_words(shell, w) =~= seq![' '] + spec_quote(shell, chosen@));
            }
        }
        proof {
            let w = param_words(recipe.params@[k as int], vals[k as int]@);
            lemma_join_words_concat(shell, prev, w);
            assert(seq![recipe.name@] + words_upto(*recipe, vals, k + 1) =~= prev + w);
            assert(out@ =~= just_word() + join_words(shell, prev + w));
        }
        k = k + 1;
    }
    string_from_chars(&out)
}

/// Builds the POSIX `just <recipe> <args...>` command line.
pub fn build_run_command(recipe: &JustRecipe, param_values: &[String]) -> (r: String)
    ensures
        r@ == spec_run_command(Shell::Posix, *recipe, param_values@),
{
    build_run_command_for(Shell::Posix, recipe, param_values)
}

/// The word being read so far (none yet means empty).
pub open spec fn pending(cur: Option<Seq<char>>) -> Seq<char> {
    match cur {
        Some(w) => w,
        None => seq![],
    }
}

/// `words` with the word being read, if any, added.
pub open spec fn finish(words: Seq<Seq<char>>, cur: Option<Seq<char>>) -> Seq<Seq<char>> {
    match cur {
        Some(w) => words.push(w),
        None => words,
    }
}

/// How POSIX `sh` splits `s` into words, for the part of its syntax that the
/// command lines built here use: space, tab and newline separate words, a
/// single quote quotes everything up to the next single quote, a backslash
/// outside quotes makes the next character literal, and every other
/// character is taken literally. `None` for an unterminated quote or a
/// trailing backslash.
pub open spec fn sh_lex(
    s: Seq<char>,
    words: Seq<Seq<char>>,
    cur: Option<Seq<char>>,
    in_quote: bool,
) -> Option<Seq<Seq<char>>>
    decreases s.len(),
{
    if s.len() == 0 {
        if in_quote {
            None
        } else {
            Some(finish(words, cur))
        }
    } else {
        let c = s[0];
        let rest = s.drop_first();
        if in_quote {
            if c == '\'' {
                sh_lex(rest, words, cur, false)
            } else {
                sh_lex(rest, words, Some(pending(cur).push(c)), true)
            }
        } else if c == '\'' {
            sh_lex(rest, words, Some(pending(cur)), true)
        } else if c == '\\' {
            if rest.len() == 0 {
                None
            } else {
                sh_lex(rest.drop_first(), words, Some(pending(cur).push(rest[0])), false)
            }
        } else if c == ' ' || c == '\t' || c == '\n' {
            sh_lex(rest, finish(words, cur), None, false)
        } else {
            sh_lex(rest, words, Some(pending(cur).push(c)), false)
        }
    }
}

/// The words `sh` reads from the command line `s`.
pub open spec fn sh_words(s: Seq<char>) -> Option<Seq<Seq<char>>> {
    sh_lex(s, seq![], None, false)
}

proof fn lemma_lex_quoted_body(
    a: Seq<char>,
    rest: Seq<char>,
    words: Seq<Seq<char>>,
    w: Seq<char>,
)
    ensures
        sh_lex(quoted_body(Shell::Posix, a) + seq!['\''] + rest, words, Some(w), true) == sh_lex(
            rest,
            words,
            Some(w + a),
            false,
        ),
    decreases a.len(),
{
    let s = quoted_body(Shell::Posix, a) + seq!['\''] + rest;
    if a.len() == 0 {
        assert(quoted_body(Shell::Posix, a) == Seq::<char>::empty());
        assert(s =~= seq!['\''] + rest);
        assert(s[0] == '\'');
        assert(s.drop_first() =~= rest);
        assert(w + a =~= w);
        assert(sh_lex(s, words, Some(w), true) == sh_lex(rest, words, Some(w), false));
    } else {
        let tail = quoted_body(Shell::Posix, a.drop_first()) + seq!['\''] + rest;
        lemma_lex_quoted_body(a.drop_first(), rest, words, w.push(a[0]));
        assert(w.push(a[0]) + a.drop_first() =~= w + a);
        if a[0] == '\'' {
            assert(s =~= seq!['\'', '\\', '\'', '\''] + tail);
            assert(s.drop_first() =~= seq!['\\', '\'', '\''] + tail);
            assert(s.drop_first().drop_first() =~= seq!['\'', '\''] + tail);
            assert(s.drop_first().drop_first().drop_first() =~= seq!['\''] + tail);
            assert((seq!['\''] + tail).drop_first() =~= tail);
            let s1 = s.drop_first();
            let s3 = s1.drop_first().drop_first();
            assert(sh_lex(s, words, Some(w), true) == sh_lex(s1, words, Some(w), false));
            assert(s1[0] == '\\' && s1.drop_first()[0] == '\'');
            assert(sh_lex(s1, words, Some(w), false) == sh_lex(
                s3,
                words,
                Some(w.push('\'')),
                false,
            ));
            assert(s3[0] == '\'');
            assert(sh_lex(s3, words, Some(w.push('\'')), false) == sh_lex(
                tail,
                words,
                Some(w.push('\'')),
                true,
            ));
        } else {
            assert(s =~= seq![a[0]] + tail);
            assert(s.drop_first() =~= tail);
            assert(sh_lex(s, words, Some(w), true) == sh_lex(
                tail,
                words,
                Some(w.push(a[0])),
                true,
            ));
        }
    }
}

proof fn lemma_lex_quote(
    a: Seq<char>,
    rest: Seq<char>,
    words: Seq<Seq<char>>,
    cur: Option<Seq<char>>,
)
    ensures
        sh_lex(spec_quote(Shell::Posix, a) + rest, words, cur, false) == sh_lex(
            rest,
            words,
            Some(pending(cur) + a),
            false,
        ),
{
    let s = spec_quote(Shell::Posix, a) + rest;
    assert(s[0] == '\'');
    assert(s.drop_first() =~= quoted_body(Shell::Posix, a) + seq!['\''] + rest);
    lemma_lex_quoted_body(a, rest, words, pending(cur));
}

proof fn lemma_lex_words(ws: Seq<Seq<char>>, words: Seq<Seq<char>>, x: Seq<char>)
    ensures
        sh_lex(join_words(Shell::Posix, ws), words, Some(x), false) == Some(words.push(x) + ws),
    decreases ws.len(),
{
    if ws.len() == 0 {
        assert(join_words(Shell::Posix, ws) == Seq::<char>::empty());
        assert(words.push(x) + ws =~= words.push(x));
    } else {
        let s = join_words(Shell::Posix, ws);
        let after = join_words(Shell::Posix, ws.drop_first());
        assert(s[0] == ' ');
        assert(s.drop_first() =~= spec_quote(Shell::Posix, ws[0]) + after);
        lemma_lex_quote(ws[0], after, words.push(x), None);
        assert(pending(None) + ws[0] =~= ws[0]);
        lemma_lex_words(ws.drop_first(), words.push(x), ws[0]);
        assert(words.push(x).push(ws[0]) + ws.drop_first() =~= words.push(x) + ws);
    }
}

/// The shell sees exactly the intended words: `sh` splits the POSIX command
/// line into `just`, the recipe name, and the arguments, whatever characters
/// (quotes, blanks, `$`...) they hold.
pub proof fn lemma_run_command_words(r: JustRecipe, vals: Seq<String>)
    ensures
        sh_words(spec_run_command(Shell::Posix, r, vals)) == Some(
            seq![just_word(), r.name@] + run_args(r, vals),
        ),
{
    let ws = seq![r.name@] + run_args(r, vals);
    let j = join_words(Shell::Posix, ws);
    let s = spec_run_command(Shell::Posix, r, vals);
    assert(s =~= just_word() + j);
    assert(s.drop_first() =~= seq!['u', 's', 't'] + j);
    assert(s.drop_first().drop_first() =~= seq!['s', 't'] + j);
    assert(s.drop_first().drop_first().drop_first() =~= seq!['t'] + j);
    assert(s.drop_first().drop_first().drop_first().drop_first() =~= j);
    assert(seq!['j'].push('u').push('s').push('t') =~= just_word());
    let e: Seq<Seq<char>> = seq![];
    let s1 = s.drop_first();
    let s2 = s1.drop_first();
    let s3 = s2.drop_first();
    let s4 = s3.drop_first();
    assert(pending(None).push('j') =~= seq!['j']);
    assert(sh_lex(s, e, None, false) == sh_lex(s1, e, Some(seq!['j']), false));
    assert(sh_lex(s1, e, Some(seq!['j']), false) == sh_lex(s2, e, Some(seq!['j', 'u']), false)) by {
        assert(seq!['j'].push('u') =~= seq!['j', 'u']);
    }
    assert(sh_lex(s2, e, Some(seq!['j', 'u']), false) == sh_lex(
        s3,
        e,
        Some(seq!['j', 'u', 's']),
        false,
    )) by {
        assert(seq!['j', 'u'].push('s') =~= seq!['j', 'u', 's']);
    }
    assert(sh_lex(s3, e, Some(seq!['j', 'u', 's']), false) == sh_lex(
        s4,
        e,
        Some(just_word()),
        false,
    )) by {
        assert(seq!['j', 'u', 's'].push('t') =~= just_word());
    }
    lemma_lex_words(ws, seq![], just_word());
    assert(Seq::<Seq<char>>::empty().push(just_word()) + ws =~= seq![just_word(), r.name@]
        + run_args(r, vals));
}

/// Quoting gives one word that `sh` reads back as the original text.
pub proof fn lemma_shell_quote_round_trip(arg: Seq<char>)
    ensures
        sh_words(spec_quote(Shell::Posix, arg)) == Some(seq![arg]),
{
    lemma_lex_quote(arg, seq![], seq![], None);
    assert(spec_quote(Shell::Posix, arg) + Seq::<char>::empty() =~= spec_quote(Shell::Posix, arg));
    assert(pending(None) + arg =~= arg);
    assert(Seq::<Seq<char>>::empty().push(arg) =~= seq![arg]);
}

/// One parameter as `just --dump --dump-format json` describes it.
pub struct DumpParam {
    pub name: String,
    /// The default, when it is a plain string.
    pub default: Option<String>,
    /// `"singular"`, `"star"` or `"plus"`.
    pub kind: String,
}

/// One recipe as `just --dump --dump-format json` describes it.
pub struct DumpRecipe {
    /// Its key in the dump's `recipes` table.
    pub key: String,
    pub name: Option<String>,
    pub doc: Option<String>,
    pub private: bool,
    pub parameters: Vec<DumpParam>,
}

/// What running `just --dump --dump-format json` came to.
pub enum DumpOutcome {
    /// `just` could not be started.
    LaunchFailed,
    /// `just` exited unsuccessfully, with this standard error.
    Failed { stderr: String },
    /// Its output was not a dump; `message` says why.
    Unparsable { message: String },
    /// The dump: the justfile's path, if given, and its recipes in key order.
    Parsed { source: Option<String>, recipes: Vec<DumpRecipe> },
}

pub open spec fn is_variadic_kind(k: Seq<char>) -> bool {
    k == seq!['s', 't', 'a', 'r'] || k == seq!['p', 'l', 'u', 's']
}

/// `p` is the parameter described by `d`.
pub open spec fn param_from_dump(p: JustParam, d: DumpParam) -> bool {
    &&& p.name@ == d.name@
    &&& p.variadic == is_variadic_kind(d.kind@)
    &&& match d.default {
        Some(v) => p.has_default && p.default_value@ == v@,
        None => !p.has_default && p.default_value@.len() == 0,
    }
}

/// The name a dumped recipe is shown under: its `name`, else its key.
pub open spec fn dump_name(d: DumpRecipe) -> Seq<char> {
    match d.name {
        Some(n) => n@,
        None => d.key@,
    }
}

/// `r` is the recipe described by `d`.
pub open spec fn recipe_from_dump(r: JustRecipe, d: DumpRecipe) -> bool {
    &&& r.name@ == dump_name(d)
    &&& r.doc@ == match d.doc {
        Some(x) => x@,
        None => Seq::<char>::empty(),
    }
    &&& r.is_private == d.private
    &&& r.params@.len() == d.parameters@.len()
    &&& forall|i: int|
        0 <= i < r.params@.len() ==> param_from_dump(#[trigger] r.params@[i], d.parameters@[i])
}

/// `out` holds the recipes described by `dump`, sorted by name, recipes with
/// equal names in dump order; `p[i]` is where `out[i]` came from.
pub open spec fn sorted_from_dump(out: Seq<JustRecipe>, dump: Seq<DumpRecipe>, p: Seq<usize>) -> bool {
    &&& is_text_order(dump.map_values(|d: DumpRecipe| dump_name(d)), p)
    &&& out.len() == dump.len()
    &&& forall|i: int| 0 <= i < out.len() ==> recipe_from_dump(#[trigger] out[i], dump[p[i] as int])
}

pub open spec fn launch_error() -> Seq<char> {
    "failed to launch `just`"@
}

pub open spec fn exit_error() -> Seq<char> {
    "`just` exited with an error"@
}

pub open spec fn parse_error_prefix() -> Seq<char> {
    "could not parse `just` output: "@
}

fn copy_string(s: &String) -> (r: String)
    ensures
        r@ == s@,
{
    s.clone()
}

fn is_variadic_kind_exec(k: &str) -> (r: bool)
    ensures
        r == is_variadic_kind(k@),
{
    let c = chars_of(k);
    let r = c.len() == 4 && ((c[0] == 's' && c[1] == 't' && c[2] == 'a' && c[3] == 'r') || (c[0]
        == 'p' && c[1] == 'l' && c[2] == 'u' && c[3] == 's'));
    proof {
        if c.len() == 4 {
            if c@ == seq!['s', 't', 'a', 'r'] {
                assert(c@[0] == 's' && c@[1] == 't' && c@[2] == 'a' && c@[3] == 'r');
            }
            if c@ == seq!['p', 'l', 'u', 's'] {
                assert(c@[0] == 'p' && c@[1] == 'l' && c@[2] == 'u' && c@[3] == 's');
            }
            if r {
                if c@[0] == 's' {
                    assert(c@ =~= seq!['s', 't', 'a', 'r']);
                } else {
                    assert(c@ =~= seq!['p', 'l', 'u', 's']);
                }
            }
        }
    }
    r
}

fn param_of(d: &DumpParam) -> (p: JustParam)
    ensures
        param_from_dump(p, *d),
{
    let (has_default, default_value) = match &d.default {
        Some(v) => (true, copy_string(v)),
        None => (false, String::new()),
    };
    JustParam {
        name: copy_string(&d.name),
        default_value,
        has_default,
        variadic: is_variadic_kind_exec(d.kind.as_str()),
    }
}

fn recipe_of(d: &DumpRecipe) -> (r: JustRecipe)
    ensures
        recipe_from_dump(r, *d),
{
    let mut params: Vec<JustParam> = Vec::new();
    let mut i: usize = 0;
    while i < d.parameters.len()
        invariant
            i <= d.parameters.len(),
            params@.len() == i,
            forall|k: int| 0 <= k < i ==> param_from_dump(#[trigger] params@[k], d.parameters@[k]),
        decreases d.parameters.len() - i,
    {
        params.push(param_of(&d.parameters[i]));
        i = i + 1;
    }
    JustRecipe {
        name: match &d.name {
            Some(n) => copy_string(n),
            None => copy_string(&d.key),
        },
        doc: match &d.doc {
            Some(x) => copy_string(x),
            None => String::new(),
        },
        params,
        is_private: d.private,
    }
}

/// The recipes described by a dump, sorted by name (stably).
pub fn recipes_from_dump(dump: &Vec<DumpRecipe>) -> (r: Vec<JustRecipe>)
    ensures
        exists|p: Seq<usize>| sorted_from_dump(r@, dump@, p),
{
    let mut names: Vec<Vec<char>> = Vec::new();
    let mut i: usize = 0;
    while i < dump.len()
        invariant
            i <= dump.len(),
            names@.len() == i,
            forall|k: int| 0 <= k < i ==> #[trigger] names@[k]@ == dump_name(dump@[k]),
        decreases dump.len() - i,
    {
        let d = &dump[i];
        let c = match &d.name {
            Some(n) => chars_of(n.as_str()),
            None => chars_of(d.key.as_str()),
        };
        names.push(c);
        i = i + 1;
    }
    let order = text_order(&names);
    assert(names@.map_values(|k: Vec<char>| k@) =~= dump@.map_values(|d: DumpRecipe| dump_name(d)));
    let mut out: Vec<JustRecipe> = Vec::new();
    let mut k: usize = 0;
    while k < order.len()
        invariant
            k <= order.len() == dump.len(),
            is_text_order(dump@.map_values(|d: DumpRecipe| dump_name(d)), order@),
            out@.len() == k,
            forall|m: int| 0 <= m < k ==> recipe_from_dump(#[trigger] out@[m], dump@[order@[m] as int]),
        decreases order.len() - k,
    {
        let j = order[k];
        out.push(recipe_of(&dump[j]));
        k = k + 1;
    }
    assert(sorted_from_dump(out@, dump@, order@));
    out
}

/// The justfile model for what `just --dump --dump-format json` came to: an
/// error message when it failed (trimmed standard error, or a fixed text),
/// otherwise the justfile path and the recipes sorted by name.
pub fn model_from_dump(outcome: &DumpOutcome) -> (m: JustModel)
    ensures
        *outcome is LaunchFailed ==> m.error@ == launch_error() && m.recipes@.len() == 0
            && m.justfile_path@.len() == 0,
        *outcome matches DumpOutcome::Failed { stderr } ==> m.error@ == (if trim(stderr@).len()
            == 0 {
            exit_error()
        } else {
            trim(stderr@)
        }) && m.recipes@.len() == 0 && m.justfile_path@.len() == 0,
        *outcome matches DumpOutcome::Unparsable { message } ==> m.error@ == parse_error_prefix()
            + message@ && m.recipes@.len() == 0 && m.justfile_path@.len() == 0,
        *outcome is Parsed ==> m.error@.len() == 0 && m.justfile_path@ == match outcome->source {
            Some(s) => s@,
            None => Seq::<char>::empty(),
        } && exists|p: Seq<usize>| sorted_from_dump(m.recipes@, outcome->recipes@, p),
{
    match outcome {
        DumpOutcome::LaunchFailed => {
            let error = "failed to launch `just`".to_owned();
            assert(error@ == launch_error());
            let recipes: Vec<JustRecipe> = Vec::new();
            let justfile_path = String::new();
            JustModel { justfile_path, recipes, error }
        },
        DumpOutcome::Failed { stderr } => {
            let c = chars_of(stderr.as_str());
            let a = skip_ws_forward(&c, 0, c.len());
            let b = skip_ws_backward(&c, a, c.len());
            proof {
                crate::text::lemma_lead_ws(c@);
                assert(c@.subrange(0, c.len() as int) =~= c@);
                assert(c@.skip(lead_ws(c@) as int) =~= c@.subrange(a as int, c.len() as int));
            }
            let error = if a == b {
                "`just` exited with an error".to_owned()
            } else {
                string_from_range(&c, a, b)
            };
            JustModel { justfile_path: String::new(), recipes: Vec::new(), error }
        },
        DumpOutcome::Unparsable { message } => {
            let mut error = "could not parse `just` output: ".to_owned();
            error.append(message.as_str());
            JustModel { justfile_path: String::new(), recipes: Vec::new(), error }
        },
        DumpOutcome::Parsed { source, recipes } => {
            let justfile_path = match source {
                Some(s) => copy_string(s),
                None => String::new(),
            };
            let list = recipes_from_dump(recipes);
            let m = JustModel { justfile_path, recipes: list, error: String::new() };
            assert(m.recipes@ == list@);
            assert(exists|p: Seq<usize>| sorted_from_dump(m.recipes@, recipes@, p));
            m
        },
    }
}

} // verus!
