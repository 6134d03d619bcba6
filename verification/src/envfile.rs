//! The project's `.env` file, as edited from the Settings panel.
//!
//! It is the same file `just` loads with `set dotenv-load := true`; this
//! module only reads and rewrites it. Every line is written back verbatim
//! unless it is a `KEY=VALUE` assignment that was set from the panel, so
//! comments, blank lines, line order and untouched assignments survive an
//! edit.
use vstd::prelude::*;
use crate::text::{
    chars_of, find_char, find_first, is_ws, lead_ws, lemma_find_first, lemma_lead_ws, push_str,
    same_text, skip_ws_backward, skip_ws_forward, string_from_chars, string_from_range, trim,
    trim_start, vec_range,
};

verus! {

/// One line of a `.env` file, as the contracts see it.
pub enum EnvLine {
    /// A `KEY=VALUE` assignment, optionally prefixed by `export`; `raw` is
    /// its text as read from the file, `None` once it has been set.
    Var { key: Seq<char>, value: Seq<char>, exported: bool, raw: Option<Seq<char>> },
    /// Anything else (comment, blank line, unparsable text), kept verbatim.
    Other(Seq<char>),
}

pub open spec fn is_key_start(c: char) -> bool {
    ('a' <= c && c <= 'z') || ('A' <= c && c <= 'Z') || c == '_'
}

pub open spec fn is_key_char(c: char) -> bool {
    is_key_start(c) || ('0' <= c && c <= '9')
}

/// A variable name: a letter or `_`, then letters, digits or `_`.
pub open spec fn valid_key(k: Seq<char>) -> bool {
    &&& k.len() > 0
    &&& is_key_start(k[0])
    &&& forall|i: int| 0 <= i < k.len() ==> is_key_char(#[trigger] k[i])
}

pub open spec fn is_quote(c: char) -> bool {
    c == '"' || c == '\''
}

/// `v` without one pair of matching surrounding quotes.
pub open spec fn spec_unquote(v: Seq<char>) -> Seq<char> {
    if v.len() >= 2 && is_quote(v[0]) && v.last() == v[0] {
        v.subrange(1, v.len() - 1)
    } else {
        v
    }
}

pub open spec fn export_word() -> Seq<char> {
    seq!['e', 'x', 'p', 'o', 'r', 't']
}

/// `t` starts with `export` followed by a space or a tab.
pub open spec fn has_export_prefix(t: Seq<char>) -> bool {
    t.len() >= 7 && t.take(6) == export_word() && (t[6] == ' ' || t[6] == '\t')
}

/// The name and value of an assignment `KEY = VALUE` (no `export`), if
/// `rest` is one.
pub open spec fn spec_assignment(rest: Seq<char>) -> Option<(Seq<char>, Seq<char>)> {
    match find_first(rest, '=') {
        None => None,
        Some(eq) => {
            let key = trim(rest.take(eq as int));
            if !valid_key(key) {
                None
            } else {
                Some((key, spec_unquote(trim(rest.skip(eq + 1int)))))
            }
        },
    }
}

/// How one line of text is read.
pub open spec fn spec_parse_line(raw: Seq<char>) -> EnvLine {
    let t = trim_start(raw);
    if t.len() == 0 || t[0] == '#' {
        EnvLine::Other(raw)
    } else {
        let exported = has_export_prefix(t);
        let rest = if exported {
            trim_start(t.skip(6))
        } else {
            t
        };
        match spec_assignment(rest) {
            None => EnvLine::Other(raw),
            Some((key, value)) => EnvLine::Var { key, value, exported, raw: Some(raw) },
        }
    }
}

#[derive(Debug, Clone)]
enum Line {
    Var { key: String, value: String, exported: bool, raw: Option<String> },
    Other(String),
}

impl Line {
    closed spec fn model(self) -> EnvLine {
        match self {
            Line::Var { key, value, exported, raw } => EnvLine::Var {
                key: key@,
                value: value@,
                exported,
                raw: match raw {
                    Some(r) => Some(r@),
                    None => None,
                },
            },
            Line::Other(raw) => EnvLine::Other(raw@),
        }
    }
}

fn is_key_start_char(c: char) -> (r: bool)
    ensures
        r == is_key_start(c),
{
    ('a' <= c && c <= 'z') || ('A' <= c && c <= 'Z') || c == '_'
}

fn is_key_char_exec(c: char) -> (r: bool)
    ensures
        r == is_key_char(c),
{
    is_key_start_char(c) || ('0' <= c && c <= '9')
}

/// Whether `v@[from..to]` is a valid variable name.
fn is_valid_key(v: &Vec<char>, from: usize, to: usize) -> (r: bool)
    requires
        from <= to <= v.len(),
    ensures
        r == valid_key(v@.subrange(from as int, to as int)),
{
    let ghost k = v@.subrange(from as int, to as int);
    if from == to || !is_key_start_char(v[from]) {
        return false;
    }
    let mut i = from;
    while i < to
        invariant
            from <= i <= to <= v.len(),
            k == v@.subrange(from as int, to as int),
            forall|m: int| 0 <= m < i - from ==> is_key_char(#[trigger] k[m]),
        decreases to - i,
    {
        if !is_key_char_exec(v[i]) {
            assert(k[i - from] == v@[i as int]);
            return false;
        }
        assert(k[i - from] == v@[i as int]);
        i = i + 1;
    }
    true
}

proof fn lemma_trim_start_sub(s: Seq<char>, from: int, to: int)
    requires
        0 <= from <= to <= s.len(),
    ensures
        trim_start(s.subrange(from, to)) =~= s.subrange(
            from + lead_ws(s.subrange(from, to)),
            to,
        ),
{
    lemma_lead_ws(s.subrange(from, to));
}

/// Whether `raw@[ts..]` starts with `export` and a blank.
fn export_prefix(raw: &Vec<char>, ts: usize) -> (r: bool)
    requires
        ts <= raw.len(),
    ensures
        r == has_export_prefix(raw@.subrange(ts as int, raw.len() as int)),
{
    let n = raw.len();
    let ghost t = raw@.subrange(ts as int, n as int);
    let r = n - ts >= 7 && raw[ts] == 'e' && raw[ts + 1] == 'x' && raw[ts + 2] == 'p' && raw[ts
        + 3] == 'o' && raw[ts + 4] == 'r' && raw[ts + 5] == 't' && (raw[ts + 6] == ' ' || raw[ts
        + 6] == '\t');
    proof {
        if n - ts >= 7 {
            assert(t[6] == raw@[ts + 6]);
            if t.take(6) == export_word() {
                assert(t.take(6)[0] == raw@[ts as int]);
                assert(t.take(6)[1] == raw@[ts + 1]);
                assert(t.take(6)[2] == raw@[ts + 2]);
                assert(t.take(6)[3] == raw@[ts + 3]);
                assert(t.take(6)[4] == raw@[ts + 4]);
                assert(t.take(6)[5] == raw@[ts + 5]);
            }
            if r {
                assert(t.take(6) =~= export_word());
            }
        }
    }
    r
}

/// The ranges of the name and of the (unquoted) value, if `raw@[rs..]` is an
/// assignment.
fn parse_assignment(raw: &Vec<char>, rs: usize) -> (r: Option<(usize, usize, usize, usize)>)
    requires
        rs <= raw.len(),
    ensures
        match r {
            None => spec_assignment(raw@.subrange(rs as int, raw.len() as int)) is None,
            Some((ks, ke, us, ue)) => {
                &&& ks <= ke <= raw.len()
                &&& us <= ue <= raw.len()
                &&& spec_assignment(raw@.subrange(rs as int, raw.len() as int)) == Some(
                    (raw@.subrange(ks as int, ke as int), raw@.subrange(us as int, ue as int)),
                )
            },
        },
{
    let n = raw.len();
    let ghost rest = raw@.subrange(rs as int, n as int);
    let e = find_char(raw, '=', rs, n);
    if e == n {
        return None;
    }
    let ghost eq = (e - rs) as nat;
    let ks = skip_ws_forward(raw, rs, e);
    let ke = skip_ws_backward(raw, ks, e);
    proof {
        assert(rest.take(eq as int) =~= raw@.subrange(rs as int, e as int));
        lemma_trim_start_sub(raw@, rs as int, e as int);
    }
    if !is_valid_key(raw, ks, ke) {
        return None;
    }
    let vs = skip_ws_forward(raw, e + 1, n);
    let ve = skip_ws_backward(raw, vs, n);
    proof {
        assert(rest.skip(eq + 1int) =~= raw@.subrange(e + 1, n as int));
        lemma_trim_start_sub(raw@, e + 1, n as int);
    }
    let (us, ue) = unquote(raw, vs, ve);
    Some((ks, ke, us, ue))
}

/// The range of `raw@[from..to]` without one pair of matching surrounding
/// quotes.
fn unquote(raw: &Vec<char>, from: usize, to: usize) -> (r: (usize, usize))
    requires
        from <= to <= raw.len(),
    ensures
        r.0 <= r.1 <= raw.len(),
        raw@.subrange(r.0 as int, r.1 as int) == spec_unquote(raw@.subrange(from as int, to as int)),
{
    let ghost tv = raw@.subrange(from as int, to as int);
    if to - from >= 2 && (raw[from] == '"' || raw[from] == '\'') && raw[to - 1] == raw[from] {
        assert(tv[0] == raw@[from as int]);
        assert(tv.last() == raw@[to - 1]);
        assert(tv.subrange(1, tv.len() - 1) =~= raw@.subrange(from + 1, to - 1));
        (from + 1, to - 1)
    } else {
        proof {
            if tv.len() >= 2 {
                assert(tv[0] == raw@[from as int]);
                assert(tv.last() == raw@[to - 1]);
            }
        }
        (from, to)
    }
}

/// Reads one line (given as its characters).
fn parse_line(raw: &Vec<char>) -> (r: Line)
    ensures
        r.model() == spec_parse_line(raw@),
{
    let n = raw.len();
    let ghost t = trim_start(raw@);
    let ts = skip_ws_forward(raw, 0, n);
    proof {
        assert(raw@.subrange(0, n as int) =~= raw@);
        lemma_trim_start_sub(raw@, 0, n as int);
        assert(t =~= raw@.subrange(ts as int, n as int));
    }
    if ts == n || raw[ts] == '#' {
        return Line::Other(string_from_chars(raw));
    }
    let exported = export_prefix(raw, ts);
    let rs = if exported {
        let r = skip_ws_forward(raw, ts + 6, n);
        proof {
            lemma_trim_start_sub(raw@, ts + 6, n as int);
            assert(t.skip(6) =~= raw@.subrange(ts + 6, n as int));
        }
        r
    } else {
        ts
    };
    match parse_assignment(raw, rs) {
        None => Line::Other(string_from_chars(raw)),
        Some((ks, ke, us, ue)) => Line::Var {
            key: string_from_range(raw, ks, ke),
            value: string_from_range(raw, us, ue),
            exported,
            raw: Some(string_from_chars(raw)),
        },
    }
}

/// `x` without one trailing carriage return.
pub open spec fn strip_cr(x: Seq<char>) -> Seq<char> {
    if x.len() > 0 && x.last() == '\r' {
        x.drop_last()
    } else {
        x
    }
}

/// The lines of `s`, as `str::lines` splits them: at each `'\n'` (a `'\r'`
/// just before it is dropped), with no empty line after a final `'\n'`.
pub open spec fn text_lines(s: Seq<char>) -> Seq<Seq<char>>
    decreases s.len(),
{
    if s.len() == 0 {
        seq![]
    } else {
        match find_first(s, '\n') {
            Some(i) => {
                proof {
                    lemma_find_first(s, '\n');
                }
                seq![strip_cr(s.take(i as int))] + text_lines(s.skip(i + 1int))
            },
            None => seq![s],
        }
    }
}

/// The model of the file whose text is `text`.
pub open spec fn spec_parse(text: Seq<char>) -> Seq<EnvLine> {
    text_lines(text).map_values(|l: Seq<char>| spec_parse_line(l))
}

/// `v` with every `"` preceded by a backslash.
pub open spec fn escape_quotes(v: Seq<char>) -> Seq<char>
    decreases v.len(),
{
    if v.len() == 0 {
        seq![]
    } else if v.last() == '"' {
        escape_quotes(v.drop_last()) + seq!['\\', '"']
    } else {
        escape_quotes(v.drop_last()).push(v.last())
    }
}

/// A value must be quoted when it is empty or holds whitespace, `#` or `"`.
pub open spec fn needs_quoting(v: Seq<char>) -> bool {
    v.len() == 0 || exists|i: int| 0 <= i < v.len() && (is_ws(#[trigger] v[i]) || v[i] == '#' || v[i] == '"')
}

/// How a value is written back.
pub open spec fn spec_quote_if_needed(v: Seq<char>) -> Seq<char> {
    if needs_quoting(v) {
        seq!['"'] + escape_quotes(v) + seq!['"']
    } else {
        v
    }
}

/// How an assignment set from the panel is written: `[export ]KEY=VALUE`,
/// the value quoted where needed.
pub open spec fn written_assignment(key: Seq<char>, value: Seq<char>, exported: bool) -> Seq<char> {
    (if exported {
        export_word().push(' ')
    } else {
        seq![]
    }) + key + seq!['='] + spec_quote_if_needed(value)
}

/// How one line is written back (without its newline): a line read from the
/// file and not set since is written exactly as it was read; an assignment
/// that was set is written afresh.
pub open spec fn render_line(l: EnvLine) -> Seq<char> {
    match l {
        EnvLine::Var { key, value, exported, raw } => match raw {
            Some(r) => r,
            None => written_assignment(key, value, exported),
        },
        EnvLine::Other(raw) => raw,
    }
}

/// The text written for the lines `ls`, each followed by a newline.
pub open spec fn render_lines(ls: Seq<EnvLine>) -> Seq<char>
    decreases ls.len(),
{
    if ls.len() == 0 {
        seq![]
    } else {
        render_lines(ls.drop_last()) + render_line(ls.last()).push('\n')
    }
}

/// The `(name, value)` pairs of the assignments among `ls`, in order.
pub open spec fn spec_vars(ls: Seq<EnvLine>) -> Seq<(Seq<char>, Seq<char>)>
    decreases ls.len(),
{
    if ls.len() == 0 {
        seq![]
    } else {
        match ls.last() {
            EnvLine::Var { key, value, .. } => spec_vars(ls.drop_last()).push((key, value)),
            EnvLine::Other(_) => spec_vars(ls.drop_last()),
        }
    }
}

/// `l` assigns the variable `key`.
pub open spec fn assigns(l: EnvLine, key: Seq<char>) -> bool {
    l matches EnvLine::Var { key: k, .. } && k == key
}

/// Index of the first line that assigns `key`.
pub open spec fn first_assignment(ls: Seq<EnvLine>, key: Seq<char>) -> Option<nat>
    decreases ls.len(),
{
    if ls.len() == 0 {
        None
    } else if assigns(ls[0], key) {
        Some(0)
    } else {
        match first_assignment(ls.drop_first(), key) {
            Some(i) => Some(i + 1),
            None => None,
        }
    }
}

/// The lines after `set(key, value)`: the first assignment of `key` gets the
/// new value (keeping its `export`) and is written afresh, or a new
/// unexported assignment is appended.
pub open spec fn spec_set(ls: Seq<EnvLine>, key: Seq<char>, value: Seq<char>) -> Seq<EnvLine> {
    match first_assignment(ls, key) {
        Some(i) => ls.update(
            i as int,
            EnvLine::Var { key, value, exported: ls[i as int]->Var_exported, raw: None },
        ),
        None => ls.push(EnvLine::Var { key, value, exported: false, raw: None }),
    }
}

/// The lines after `remove(key)`: every assignment of `key` is dropped, all
/// other lines are kept in order.
pub open spec fn spec_remove(ls: Seq<EnvLine>, key: Seq<char>) -> Seq<EnvLine>
    decreases ls.len(),
{
    if ls.len() == 0 {
        seq![]
    } else if assigns(ls.last(), key) {
        spec_remove(ls.drop_last(), key)
    } else {
        spec_remove(ls.drop_last(), key).push(ls.last())
    }
}

pub proof fn lemma_first_assignment(ls: Seq<EnvLine>, key: Seq<char>)
    ensures
        first_assignment(ls, key) matches Some(i) ==> i < ls.len() && assigns(ls[i as int], key)
            && forall|k: int| 0 <= k < i ==> !assigns(#[trigger] ls[k], key),
        first_assignment(ls, key) is None ==> forall|k: int|
            0 <= k < ls.len() ==> !assigns(#[trigger] ls[k], key),
    decreases ls.len(),
{
    if ls.len() > 0 && !assigns(ls[0], key) {
        lemma_first_assignment(ls.drop_first(), key);
        assert forall|k: int| 1 <= k < ls.len() implies #[trigger] ls[k] == ls.drop_first()[k - 1] by {
        }
    }
}

proof fn lemma_first_assignment_at(ls: Seq<EnvLine>, key: Seq<char>, j: int)
    requires
        0 <= j <= ls.len(),
        forall|k: int| 0 <= k < j ==> !assigns(#[trigger] ls[k], key),
        j < ls.len() ==> assigns(ls[j], key),
    ensures
        j < ls.len() ==> first_assignment(ls, key) == Some(j as nat),
        j == ls.len() ==> first_assignment(ls, key) is None,
{
    lemma_first_assignment(ls, key);
    match first_assignment(ls, key) {
        Some(i) => {
            if (i as int) < j {
                assert(!assigns(ls[i as int], key));
            } else if (i as int) > j {
                assert(!assigns(ls[j], key));
            }
        },
        None => {
            if j < ls.len() {
                assert(!assigns(ls[j], key));
            }
        },
    }
}

fn quote_if_needed(v: &str) -> (r: Vec<char>)
    ensures
        r@ == spec_quote_if_needed(v@),
{
    let c = chars_of(v);
    let mut needs = c.len() == 0;
    let mut i: usize = 0;
    while i < c.len()
        invariant
            i <= c.len(),
            c@ == v@,
            needs == (c.len() == 0 || exists|k: int|
                0 <= k < i && (is_ws(#[trigger] c@[k]) || c@[k] == '#' || c@[k] == '"')),
        decreases c.len() - i,
    {
        let x = c[i];
        if crate::text::is_whitespace(x) || x == '#' || x == '"' {
            needs = true;
        }
        i = i + 1;
    }
    if !needs {
        return c;
    }
    let mut out: Vec<char> = Vec::new();
    out.push('"');
    let mut j: usize = 0;
    while j < c.len()
        invariant
            j <= c.len(),
            c@ == v@,
            out@ == seq!['"'] + escape_quotes(c@.take(j as int)),
        decreases c.len() - j,
    {
        assert(c@.take(j + 1).drop_last() =~= c@.take(j as int));
        if c[j] == '"' {
            out.push('\\');
            out.push('"');
        } else {
            out.push(c[j]);
        }
        j = j + 1;
        assert(out@ =~= seq!['"'] + escape_quotes(c@.take(j as int)));
    }
    assert(c@.take(c.len() as int) =~= c@);
    out.push('"');
    out
}

fn copy_line(l: &Line) -> (r: Line)
    ensures
        r.model() == l.model(),
{
    match l {
        Line::Var { key, value, exported, raw } => Line::Var {
            key: key.clone(),
            value: value.clone(),
            exported: *exported,
            raw: match raw {
                Some(r) => Some(r.clone()),
                None => None,
            },
        },
        Line::Other(raw) => Line::Other(raw.clone()),
    }
}

/// A `.env` file held in memory, line by line.
#[derive(Debug, Clone)]
pub struct EnvFile {
    lines: Vec<Line>,
}

impl View for EnvFile {
    type V = Seq<EnvLine>;

    closed spec fn view(&self) -> Seq<EnvLine> {
        self.lines@.map_values(|l: Line| l.model())
    }
}

impl Default for EnvFile {
    fn default() -> (r: Self)
        ensures
            r@ == Seq::<EnvLine>::empty(),
    {
        let r = EnvFile { lines: Vec::new() };
        assert(r@ =~= Seq::<EnvLine>::empty());
        r
    }
}

impl EnvFile {
    /// An empty file (what a missing `.env` loads as).
    pub fn new() -> (r: Self)
        ensures
            r@ == Seq::<EnvLine>::empty(),
    {
        EnvFile::default()
    }

    /// Reads the text of a `.env` file, line by line.
    pub fn parse(text: &str) -> (r: Self)
        ensures
            r@ == spec_parse(text@),
    {
        let s = chars_of(text);
        let n = s.len();
        let mut lines: Vec<Line> = Vec::new();
        let mut start: usize = 0;
        assert(s@.skip(0) =~= s@);
        while start < n
            invariant
                start <= n == s.len(),
                s@ == text@,
                spec_parse(text@) =~= lines@.map_values(|l: Line| l.model()) + spec_parse(
                    s@.skip(start as int),
                ),
            decreases n - start,
        {
            let ghost rest = s@.skip(start as int);
            let e = find_char(&s, '\n', start, n);
            assert(s@.subrange(start as int, n as int) =~= rest);
            let ghost old_lines = lines@;
            if e == n {
                let seg = vec_range(&s, start, n);
                lines.push(parse_line(&seg));
                assert(text_lines(rest) =~= seq![rest]);
                assert(s@.skip(n as int) =~= Seq::<char>::empty());
                start = n;
            } else {
                let end = if e > start && s[e - 1] == '\r' {
                    e - 1
                } else {
                    e
                };
                let seg = vec_range(&s, start, end);
                proof {
                    let i = (e - start) as nat;
                    assert(rest.take(i as int) =~= s@.subrange(start as int, e as int));
                    if e > start && s@[e - 1] == '\r' {
                        assert(strip_cr(rest.take(i as int)) =~= seg@);
                    } else {
                        assert(strip_cr(rest.take(i as int)) =~= seg@);
                    }
                    assert(rest.skip(i + 1int) =~= s@.skip(e + 1));
                }
                lines.push(parse_line(&seg));
                start = e + 1;
            }
            assert(lines@.map_values(|l: Line| l.model()) =~= old_lines.map_values(
                |l: Line| l.model(),
            ).push(spec_parse_line(text_lines(rest)[0])));
        }
        let r = EnvFile { lines };
        assert(spec_parse(s@.skip(start as int)) =~= Seq::<EnvLine>::empty());
        r
    }

    /// The text of the file: every line followed by a newline. Lines read
    /// from the file are written exactly as read; assignments set since are
    /// written `[export ]KEY=VALUE`, quoting the value where needed.
    pub fn render(&self) -> (r: String)
        ensures
            r@ == render_lines(self@),
    {
        let mut out: Vec<char> = Vec::new();
        let mut i: usize = 0;
        while i < self.lines.len()
            invariant
                i <= self.lines.len(),
                out@ == render_lines(self@.take(i as int)),
            decreases self.lines.len() - i,
        {
            assert(self@.take(i + 1).drop_last() =~= self@.take(i as int));
            assert(self@.take(i + 1).last() == self.lines@[i as int].model());
            match &self.lines[i] {
                Line::Var { raw: Some(r), .. } => {
                    push_str(&mut out, r.as_str());
                },
                Line::Var { key, value, exported, raw: None } => {
                    if *exported {
                        out.push('e');
                        out.push('x');
                        out.push('p');
                        out.push('o');
                        out.push('r');
                        out.push('t');
                        out.push(' ');
                    }
                    push_str(&mut out, key.as_str());
                    out.push('=');
                    let q = quote_if_needed(value.as_str());
                    let mut k: usize = 0;
                    let ghost before = out@;
                    while k < q.len()
                        invariant
                            k <= q.len(),
                            out@ == before + q@.take(k as int),
                        decreases q.len() - k,
                    {
                        out.push(q[k]);
                        k = k + 1;
                        assert(out@ =~= before + q@.take(k as int));
                    }
                    assert(q@.take(q.len() as int) =~= q@);
                },
                Line::Other(raw) => {
                    push_str(&mut out, raw.as_str());
                },
            }
            out.push('\n');
            i = i + 1;
            assert(out@ =~= render_lines(self@.take(i as int)));
        }
        assert(self@.take(self.lines.len() as int) =~= self@);
        string_from_chars(&out)
    }

    /// The `(name, value)` pairs of the assignments, in file order.
    pub fn vars(&self) -> (r: Vec<(&str, &str)>)
        ensures
            r@.map_values(|p: (&str, &str)| (p.0@, p.1@)) == spec_vars(self@),
    {
        let mut out: Vec<(&str, &str)> = Vec::new();
        let mut i: usize = 0;
        while i < self.lines.len()
            invariant
                i <= self.lines.len(),
                out@.map_values(|p: (&str, &str)| (p.0@, p.1@)) =~= spec_vars(
                    self@.take(i as int),
                ),
            decreases self.lines.len() - i,
        {
            assert(self@.take(i + 1).drop_last() =~= self@.take(i as int));
            assert(self@.take(i + 1).last() == self.lines@[i as int].model());
            match &self.lines[i] {
                Line::Var { key, value, .. } => {
                    out.push((key.as_str(), value.as_str()));
                },
                Line::Other(_) => {},
            }
            i = i + 1;
        }
        assert(self@.take(self.lines.len() as int) =~= self@);
        out
    }

    /// Sets `key` to `value`: the first assignment of `key` takes the new
    /// value in place (keeping its `export`) and is written afresh,
    /// otherwise an unexported `KEY=VALUE` line is appended. All other lines
    /// are left as they are, to be written back as they were read.
    pub fn set(&mut self, key: &str, value: &str)
        ensures
            final(self)@ == spec_set(old(self)@, key@, value@),
    {
        let mut i: usize = 0;
        while i < self.lines.len()
            invariant
                i <= self.lines.len(),
                self@ == old(self)@,
                forall|k: int| 0 <= k < i ==> !assigns(#[trigger] self@[k], key@),
            decreases self.lines.len() - i,
        {
            let found = match &self.lines[i] {
                Line::Var { key: k, exported, .. } => {
                    if same_text(k.as_str(), key) {
                        Some(*exported)
                    } else {
                        None
                    }
                },
                Line::Other(_) => None,
            };
            assert(self@[i as int] == self.lines@[i as int].model());
            if let Some(exported) = found {
                proof {
                    lemma_first_assignment_at(self@, key@, i as int);
                }
                let ghost before = self.lines@;
                self.lines.set(
                    i,
                    Line::Var { key: key.to_owned(), value: value.to_owned(), exported, raw: None },
                );
                assert(self@ =~= spec_set(old(self)@, key@, value@));
                return ;
            }
            i = i + 1;
        }
        proof {
            lemma_first_assignment_at(self@, key@, i as int);
        }
        self.lines.push(Line::Var { key: key.to_owned(), value: value.to_owned(), exported: false, raw: None });
        assert(self@ =~= spec_set(old(self)@, key@, value@));
    }

    /// Drops every assignment of `key`; all other lines are kept in order.
    pub fn remove(&mut self, key: &str)
        ensures
            final(self)@ == spec_remove(old(self)@, key@),
    {
        let mut kept: Vec<Line> = Vec::new();
        let mut i: usize = 0;
        while i < self.lines.len()
            invariant
                i <= self.lines.len(),
                self@ == old(self)@,
                kept@.map_values(|l: Line| l.model()) =~= spec_remove(self@.take(i as int), key@),
            decreases self.lines.len() - i,
        {
            assert(self@.take(i + 1).drop_last() =~= self@.take(i as int));
            assert(self@.take(i + 1).last() == self.lines@[i as int].model());
            let drop = match &self.lines[i] {
                Line::Var { key: k, .. } => same_text(k.as_str(), key),
                Line::Other(_) => false,
            };
            if !drop {
                kept.push(copy_line(&self.lines[i]));
            }
            i = i + 1;
        }
        assert(self@.take(self.lines.len() as int) =~= self@);
        self.lines = kept;
    }

    /// Adds a new, empty entry named `key` (trimmed). Nothing changes, and
    /// `false` is returned, when the trimmed name is empty or already
    /// assigned.
    pub fn add_key(&mut self, key: &str) -> (r: bool)
        ensures
            r == (trim(key@).len() > 0 && first_assignment(old(self)@, trim(key@)) is None),
            r ==> final(self)@ == spec_set(old(self)@, trim(key@), Seq::<char>::empty()),
            !r ==> final(self)@ == old(self)@,
    {
        let c = chars_of(key);
        let ks = skip_ws_forward(&c, 0, c.len());
        let ke = skip_ws_backward(&c, ks, c.len());
        proof {
            assert(c@.subrange(0, c.len() as int) =~= c@);
            lemma_trim_start_sub(c@, 0, c.len() as int);
        }
        if ks == ke {
            return false;
        }
        let k = string_from_range(&c, ks, ke);
        let mut i: usize = 0;
        while i < self.lines.len()
            invariant
                i <= self.lines.len(),
                self@ == old(self)@,
                k@ == trim(key@),
                forall|m: int| 0 <= m < i ==> !assigns(#[trigger] self@[m], k@),
            decreases self.lines.len() - i,
        {
            let hit = match &self.lines[i] {
                Line::Var { key: name, .. } => same_text(name.as_str(), k.as_str()),
                Line::Other(_) => false,
            };
            assert(self@[i as int] == self.lines@[i as int].model());
            if hit {
                proof {
                    lemma_first_assignment_at(self@, k@, i as int);
                }
                return false;
            }
            i = i + 1;
        }
        proof {
            lemma_first_assignment_at(self@, k@, i as int);
        }
        let empty = String::new();
        self.set(k.as_str(), empty.as_str());
        true
    }

} // impl EnvFile

/// The comment, blank and other non-assignment lines of `ls`, in order.
pub open spec fn other_lines(ls: Seq<EnvLine>) -> Seq<Seq<char>>
    decreases ls.len(),
{
    if ls.len() == 0 {
        seq![]
    } else {
        match ls.last() {
            EnvLine::Other(raw) => other_lines(ls.drop_last()).push(raw),
            EnvLine::Var { .. } => other_lines(ls.drop_last()),
        }
    }
}

/// After `set(key, value)` the first assignment of `key` holds `value`.
pub proof fn lemma_set_then_lookup(ls: Seq<EnvLine>, key: Seq<char>, value: Seq<char>)
    ensures
        first_assignment(spec_set(ls, key, value), key) matches Some(i) && spec_set(
            ls,
            key,
            value,
        )[i as int]->Var_value == value,
{
    lemma_first_assignment(ls, key);
    let r = spec_set(ls, key, value);
    match first_assignment(ls, key) {
        Some(i) => {
            assert forall|k: int| 0 <= k < i implies !assigns(#[trigger] r[k], key) by {
                assert(r[k] == ls[k]);
            }
            lemma_first_assignment_at(r, key, i as int);
        },
        None => {
            assert forall|k: int| 0 <= k < ls.len() implies !assigns(#[trigger] r[k], key) by {
                assert(r[k] == ls[k]);
            }
            lemma_first_assignment_at(r, key, ls.len() as int);
        },
    }
}

/// `set` only touches the line it assigns: every other line keeps its place
/// and content (comments and blank lines survive an edit).
pub proof fn lemma_set_keeps_other_lines(ls: Seq<EnvLine>, key: Seq<char>, value: Seq<char>, j: int)
    requires
        0 <= j < ls.len(),
        !assigns(ls[j], key),
    ensures
        spec_set(ls, key, value)[j] == ls[j],
{
    lemma_first_assignment(ls, key);
}

/// Setting a variable twice is the same as setting it once to the last value.
pub proof fn lemma_set_twice(ls: Seq<EnvLine>, key: Seq<char>, v1: Seq<char>, v2: Seq<char>)
    ensures
        spec_set(spec_set(ls, key, v1), key, v2) == spec_set(ls, key, v2),
{
    lemma_first_assignment(ls, key);
    let r = spec_set(ls, key, v1);
    match first_assignment(ls, key) {
        Some(i) => {
            assert forall|k: int| 0 <= k < i implies !assigns(#[trigger] r[k], key) by {
                assert(r[k] == ls[k]);
            }
            lemma_first_assignment_at(r, key, i as int);
            assert(spec_set(r, key, v2) =~= spec_set(ls, key, v2));
        },
        None => {
            assert forall|k: int| 0 <= k < ls.len() implies !assigns(#[trigger] r[k], key) by {
                assert(r[k] == ls[k]);
            }
            lemma_first_assignment_at(r, key, ls.len() as int);
            assert(spec_set(r, key, v2) =~= spec_set(ls, key, v2));
        },
    }
}

/// After `remove(key)` no line assigns `key`, and every line that did not
/// assign it is still there, in order.
pub proof fn lemma_remove_drops_only_key(ls: Seq<EnvLine>, key: Seq<char>)
    ensures
        forall|k: int|
            0 <= k < spec_remove(ls, key).len() ==> !assigns(#[trigger] spec_remove(ls, key)[k], key),
        other_lines(spec_remove(ls, key)) == other_lines(ls),
    decreases ls.len(),
{
    if ls.len() > 0 {
        lemma_remove_drops_only_key(ls.drop_last(), key);
        let p = spec_remove(ls.drop_last(), key);
        if !assigns(ls.last(), key) {
            assert(spec_remove(ls, key).drop_last() =~= p);
            assert forall|k: int| 0 <= k < p.push(ls.last()).len() implies !assigns(
                #[trigger] p.push(ls.last())[k],
                key,
            ) by {
                if k < p.len() {
                    assert(p.push(ls.last())[k] == p[k]);
                }
            }
        } else {
            assert(ls.last() is Var);
        }
    }
}

/// Removing a variable twice is the same as removing it once.
pub proof fn lemma_remove_idempotent(ls: Seq<EnvLine>, key: Seq<char>)
    ensures
        spec_remove(spec_remove(ls, key), key) == spec_remove(ls, key),
    decreases ls.len(),
{
    if ls.len() > 0 {
        lemma_remove_idempotent(ls.drop_last(), key);
        let p = spec_remove(ls.drop_last(), key);
        if !assigns(ls.last(), key) {
            assert(p.push(ls.last()).drop_last() =~= p);
        }
    }
}

/// A line that is written on one line and read back as meant: an
/// assignment set from the panel needs a valid name and a value without `"`
/// or newline (and not wrapped in single quotes when written bare); any
/// other line needs a text without newline or trailing CR that reads as that
/// very line.
pub open spec fn representable(l: EnvLine) -> bool {
    match l {
        EnvLine::Var { key, value, raw: None, .. } => {
            &&& valid_key(key)
            &&& forall|i: int| 0 <= i < value.len() ==> #[trigger] value[i] != '"' && value[i] != '\n'
            &&& needs_quoting(value) || !(value.len() >= 2 && value[0] == '\'' && value.last()
                == '\'')
        },
        _ => {
            &&& forall|i: int| 0 <= i < render_line(l).len() ==> #[trigger] render_line(l)[i] != '\n'
            &&& !(render_line(l).len() > 0 && render_line(l).last() == '\r')
            &&& spec_parse_line(render_line(l)) == l
        },
    }
}

/// What a line reads back as once written: an assignment set from the panel
/// becomes the same assignment, with the text it was written as; any other
/// line is unchanged.
pub open spec fn reread(l: EnvLine) -> EnvLine {
    match l {
        EnvLine::Var { key, value, exported, raw: None } => EnvLine::Var {
            key,
            value,
            exported,
            raw: Some(written_assignment(key, value, exported)),
        },
        _ => l,
    }
}

proof fn lemma_render_lines_front(ls: Seq<EnvLine>)
    requires
        ls.len() > 0,
    ensures
        render_lines(ls) == render_line(ls[0]).push('\n') + render_lines(ls.drop_first()),
    decreases ls.len(),
{
    if ls.len() == 1 {
        assert(ls.drop_first() =~= Seq::<EnvLine>::empty());
        assert(ls.drop_last() =~= Seq::<EnvLine>::empty());
        assert(render_lines(ls.drop_last()) == Seq::<char>::empty());
        assert(render_lines(ls.drop_first()) == Seq::<char>::empty());
        assert(ls.last() == ls[0]);
        assert(render_lines(ls) =~= render_line(ls[0]).push('\n'));
    } else {
        lemma_render_lines_front(ls.drop_last());
        assert(ls.drop_last().drop_first() =~= ls.drop_first().drop_last());
        assert(ls.drop_last()[0] == ls[0]);
        assert(ls.drop_first().last() == ls.last());
        assert(render_lines(ls) =~= render_line(ls[0]).push('\n') + render_lines(ls.drop_first()));
    }
}

proof fn lemma_text_lines_front(x: Seq<char>, rest: Seq<char>)
    requires
        forall|i: int| 0 <= i < x.len() ==> #[trigger] x[i] != '\n',
    ensures
        text_lines(x.push('\n') + rest) == seq![strip_cr(x)] + text_lines(rest),
{
    let s = x.push('\n') + rest;
    assert forall|k: int| 0 <= k < x.len() implies #[trigger] s[k] != '\n' by {
        assert(s[k] == x[k]);
    }
    assert(s[x.len() as int] == '\n');
    crate::text::lemma_find_first_at(s, '\n', x.len() as int);
    assert(s.take(x.len() as int) =~= x);
    assert(s.skip(x.len() + 1int) =~= rest);
}

proof fn lemma_quoted_value_reads_back(value: Seq<char>)
    requires
        forall|i: int| 0 <= i < value.len() ==> #[trigger] value[i] != '"',
    ensures
        escape_quotes(value) == value,
    decreases value.len(),
{
    if value.len() > 0 {
        lemma_quoted_value_reads_back(value.drop_last());
        assert(value.drop_last().push(value.last()) =~= value);
    }
}

proof fn lemma_trim_no_ws(v: Seq<char>)
    requires
        v.len() == 0 || (!is_ws(v[0]) && !is_ws(v.last())),
    ensures
        trim(v) == v,
{
    assert(lead_ws(v) == 0);
    assert(v.skip(0) =~= v);
}

proof fn lemma_written_value(value: Seq<char>)
    requires
        forall|i: int| 0 <= i < value.len() ==> #[trigger] value[i] != '"' && value[i] != '\n',
        needs_quoting(value) || !(value.len() >= 2 && value[0] == '\'' && value.last() == '\''),
    ensures
        spec_unquote(trim(spec_quote_if_needed(value))) == value,
        forall|i: int|
            0 <= i < spec_quote_if_needed(value).len() ==> #[trigger] spec_quote_if_needed(value)[i]
                != '\n',
        spec_quote_if_needed(value).len() > 0 ==> spec_quote_if_needed(value).last() != '\r',
{
    let q = spec_quote_if_needed(value);
    lemma_quoted_value_reads_back(value);
    if needs_quoting(value) {
        assert(q =~= seq!['"'] + value + seq!['"']);
        lemma_trim_no_ws(q);
        assert(q.subrange(1, q.len() - 1) =~= value);
        assert forall|i: int| 0 <= i < q.len() implies #[trigger] q[i] != '\n' by {
            if 0 < i < q.len() - 1 {
                assert(q[i] == value[i - 1]);
            }
        }
    } else {
        if value.len() > 0 {
            assert(!is_ws(value[0]));
            assert(!is_ws(value.last()));
        }
        lemma_trim_no_ws(q);
    }
}

proof fn lemma_written_assignment(key: Seq<char>, value: Seq<char>)
    requires
        valid_key(key),
        forall|i: int| 0 <= i < value.len() ==> #[trigger] value[i] != '"' && value[i] != '\n',
        needs_quoting(value) || !(value.len() >= 2 && value[0] == '\'' && value.last() == '\''),
    ensures
        ({
            let body = key + seq!['='] + spec_quote_if_needed(value);
            &&& spec_assignment(body) == Some((key, value))
            &&& forall|i: int| 0 <= i < body.len() ==> #[trigger] body[i] != '\n'
            &&& body.last() != '\r'
            &&& !is_ws(body[0]) && body[0] != '#'
            &&& !has_export_prefix(body)
        }),
{
    let q = spec_quote_if_needed(value);
    let body = key + seq!['='] + q;
    lemma_written_value(value);
    assert forall|i: int| 0 <= i < key.len() implies #[trigger] body[i] != '=' by {
        assert(body[i] == key[i]);
        assert(is_key_char(key[i]));
    }
    assert(body[key.len() as int] == '=');
    crate::text::lemma_find_first_at(body, '=', key.len() as int);
    assert(body.take(key.len() as int) =~= key);
    assert(body.skip(key.len() + 1int) =~= q);
    assert(is_key_char(key.last()));
    lemma_trim_no_ws(key);
    assert forall|i: int| 0 <= i < body.len() implies #[trigger] body[i] != '\n' by {
        if i < key.len() {
            assert(body[i] == key[i]);
            assert(is_key_char(key[i]));
        } else if i > key.len() {
            assert(body[i] == q[i - key.len() - 1]);
        }
    }
    if q.len() > 0 {
        assert(body.last() == q.last());
    }
    assert(body[0] == key[0]);
    if body.len() >= 7 && body.take(6) == export_word() && (body[6] == ' ' || body[6] == '\t') {
        if key.len() > 6 {
            assert(body[6] == key[6]);
            assert(is_key_char(key[6]));
        } else if key.len() == 6 {
            assert(body[6] == '=');
        } else {
            assert(body.take(6)[key.len() as int] == '=');
            assert(export_word()[key.len() as int] != '=');
        }
    }
}

proof fn lemma_line_reads_back(l: EnvLine)
    requires
        representable(l),
    ensures
        spec_parse_line(render_line(l)) == reread(l),
        forall|i: int| 0 <= i < render_line(l).len() ==> #[trigger] render_line(l)[i] != '\n',
        !(render_line(l).len() > 0 && render_line(l).last() == '\r'),
{
    match l {
        EnvLine::Var { key, value, exported, raw: None } => {
            let body = key + seq!['='] + spec_quote_if_needed(value);
            let r = render_line(l);
            lemma_written_assignment(key, value);
            assert(lead_ws(body) == 0);
            assert(body.skip(0) =~= body);
            if exported {
                assert(r =~= export_word().push(' ') + body);
                assert(lead_ws(r) == 0);
                assert(r.skip(0) =~= r);
                assert(r.take(6) =~= export_word());
                assert(r.skip(6) =~= seq![' '] + body);
                assert(lead_ws(r.skip(6)) == 1) by {
                    assert((seq![' '] + body).drop_first() =~= body);
                }
                assert(trim_start(r.skip(6)) =~= body);
                assert forall|i: int| 0 <= i < r.len() implies #[trigger] r[i] != '\n' by {
                    if i >= 7 {
                        assert(r[i] == body[i - 7]);
                    }
                }
                assert(r.last() == body.last());
            } else {
                assert(r =~= body);
            }
        },
        _ => {},
    }
}

proof fn lemma_vars_reread(ls: Seq<EnvLine>)
    ensures
        spec_vars(ls.map_values(|l: EnvLine| reread(l))) == spec_vars(ls),
    decreases ls.len(),
{
    if ls.len() > 0 {
        let f = |l: EnvLine| reread(l);
        lemma_vars_reread(ls.drop_last());
        assert(ls.map_values(f).drop_last() =~= ls.drop_last().map_values(f));
        assert(ls.map_values(f).last() == reread(ls.last()));
    }
}

/// Writing a file and reading the text back gives the same lines, each
/// assignment set from the panel now carrying the text it was written as,
/// and so the same variables, for every file whose lines can be written
/// faithfully (see `representable`).
pub proof fn lemma_render_then_parse(ls: Seq<EnvLine>)
    requires
        forall|i: int| 0 <= i < ls.len() ==> representable(#[trigger] ls[i]),
    ensures
        spec_parse(render_lines(ls)) == ls.map_values(|l: EnvLine| reread(l)),
        spec_vars(spec_parse(render_lines(ls))) == spec_vars(ls),
        render_lines(spec_parse(render_lines(ls))) == render_lines(ls),
    decreases ls.len(),
{
    let g = |l: EnvLine| reread(l);
    if ls.len() == 0 {
        assert(spec_parse(render_lines(ls)) =~= ls.map_values(g));
    } else {
        lemma_render_lines_front(ls);
        assert(representable(ls[0]));
        lemma_line_reads_back(ls[0]);
        assert forall|i: int| 0 <= i < ls.drop_first().len() implies representable(
            #[trigger] ls.drop_first()[i],
        ) by {
            assert(ls.drop_first()[i] == ls[i + 1]);
        }
        lemma_render_then_parse(ls.drop_first());
        lemma_text_lines_front(render_line(ls[0]), render_lines(ls.drop_first()));
        assert(strip_cr(render_line(ls[0])) == render_line(ls[0]));
        let t = text_lines(render_lines(ls.drop_first()));
        let f = |l: Seq<char>| spec_parse_line(l);
        assert((seq![render_line(ls[0])] + t).map_values(f) =~= seq![f(render_line(ls[0]))]
            + t.map_values(f));
        assert(ls.map_values(g) =~= seq![reread(ls[0])] + ls.drop_first().map_values(g));
        assert(spec_parse(render_lines(ls)) =~= ls.map_values(g));
    }
    lemma_vars_reread(ls);
    lemma_render_reread(ls);
}

proof fn lemma_render_reread(ls: Seq<EnvLine>)
    ensures
        render_lines(ls.map_values(|l: EnvLine| reread(l))) == render_lines(ls),
    decreases ls.len(),
{
    if ls.len() > 0 {
        let f = |l: EnvLine| reread(l);
        lemma_render_reread(ls.drop_last());
        assert(ls.map_values(f).drop_last() =~= ls.drop_last().map_values(f));
        assert(ls.map_values(f).last() == reread(ls.last()));
        assert(render_line(reread(ls.last())) == render_line(ls.last()));
    }
}

/// A line of text is written back exactly as it was read.
pub proof fn lemma_line_written_as_read(raw: Seq<char>)
    ensures
        render_line(spec_parse_line(raw)) == raw,
{
}

/// The text of `lines`, each followed by a newline.
pub open spec fn join_lines(lines: Seq<Seq<char>>) -> Seq<char>
    decreases lines.len(),
{
    if lines.len() == 0 {
        seq![]
    } else {
        join_lines(lines.drop_last()) + lines.last().push('\n')
    }
}

/// A text that splitting into lines loses nothing of: empty or ending in a
/// newline, and with no CR just before a newline.
pub open spec fn splits_exactly(text: Seq<char>) -> bool {
    &&& text.len() == 0 || text.last() == '\n'
    &&& forall|i: int| 0 <= i < text.len() - 1 && #[trigger] text[i] == '\r' ==> text[i + 1] != '\n'
}

proof fn lemma_render_lines_join(ls: Seq<EnvLine>)
    ensures
        render_lines(ls) == join_lines(ls.map_values(|l: EnvLine| render_line(l))),
    decreases ls.len(),
{
    if ls.len() > 0 {
        let f = |l: EnvLine| render_line(l);
        lemma_render_lines_join(ls.drop_last());
        assert(ls.map_values(f).drop_last() =~= ls.drop_last().map_values(f));
        assert(ls.map_values(f).last() == render_line(ls.last()));
    }
}

proof fn lemma_join_front(x: Seq<char>, rest: Seq<Seq<char>>)
    ensures
        join_lines(seq![x] + rest) == x.push('\n') + join_lines(rest),
    decreases rest.len(),
{
    if rest.len() == 0 {
        assert(seq![x] + rest =~= seq![x]);
        assert(seq![x].drop_last() =~= Seq::<Seq<char>>::empty());
        assert(join_lines(seq![x].drop_last()) =~= Seq::<char>::empty());
        assert(seq![x].last() == x);
        assert(join_lines(seq![x]) =~= x.push('\n'));
    } else {
        lemma_join_front(x, rest.drop_last());
        assert((seq![x] + rest).drop_last() =~= seq![x] + rest.drop_last());
        assert((seq![x] + rest).last() == rest.last());
        assert(join_lines(seq![x] + rest) =~= x.push('\n') + join_lines(rest));
    }
}

proof fn lemma_text_lines_join(text: Seq<char>)
    requires
        splits_exactly(text),
    ensures
        join_lines(text_lines(text)) == text,
    decreases text.len(),
{
    if text.len() > 0 {
        lemma_find_first(text, '\n');
        assert(text[text.len() - 1] == '\n');
        let i = find_first(text, '\n')->0;
        let line = text.take(i as int);
        let rest = text.skip(i + 1int);
        if i > 0 {
            assert(text[i - 1] != '\r');
            assert(line.last() == text[i - 1]);
        }
        assert(strip_cr(line) == line);
        assert(rest.len() == 0 || rest.last() == text.last());
        assert forall|k: int| 0 <= k < rest.len() - 1 && #[trigger] rest[k] == '\r' implies rest[k + 1]
            != '\n' by {
            assert(rest[k] == text[k + i + 1]);
            assert(rest[k + 1] == text[k + i + 2]);
        }
        lemma_text_lines_join(rest);
        lemma_join_front(line, text_lines(rest));
        assert(line.push('\n') + rest =~= text);
    }
}

proof fn lemma_parsed_lines_render(text: Seq<char>)
    ensures
        spec_parse(text).map_values(|l: EnvLine| render_line(l)) == text_lines(text),
{
    let ls = spec_parse(text);
    let m = ls.map_values(|l: EnvLine| render_line(l));
    assert forall|k: int| 0 <= k < ls.len() implies #[trigger] m[k] == text_lines(text)[k] by {
        lemma_line_written_as_read(text_lines(text)[k]);
    }
    assert(m =~= text_lines(text));
}

/// A file read from `text` and written back unchanged is `text` again,
/// when `text` is empty or ends in a newline and has no CR before a newline.
pub proof fn lemma_parse_then_render(text: Seq<char>)
    requires
        splits_exactly(text),
    ensures
        render_lines(spec_parse(text)) == text,
{
    lemma_render_lines_join(spec_parse(text));
    lemma_parsed_lines_render(text);
    lemma_text_lines_join(text);
}

/// Setting a variable in a file read from `text` changes only the line of
/// its first assignment, which is written afresh, or, when nothing assigns
/// it, appends one line; every other line is written back exactly as it
/// stands in `text`.
pub proof fn lemma_set_rewrites_only_its_line(text: Seq<char>, key: Seq<char>, value: Seq<char>)
    requires
        splits_exactly(text),
    ensures
        match first_assignment(spec_parse(text), key) {
            Some(i) => render_lines(spec_set(spec_parse(text), key, value)) == join_lines(
                text_lines(text).update(
                    i as int,
                    written_assignment(key, value, spec_parse(text)[i as int]->Var_exported),
                ),
            ),
            None => render_lines(spec_set(spec_parse(text), key, value)) == text
                + written_assignment(key, value, false).push('\n'),
        },
{
    let ls = spec_parse(text);
    let f = |l: EnvLine| render_line(l);
    lemma_parsed_lines_render(text);
    lemma_first_assignment(ls, key);
    let r = spec_set(ls, key, value);
    lemma_render_lines_join(r);
    match first_assignment(ls, key) {
        Some(i) => {
            assert(r.map_values(f) =~= text_lines(text).update(
                i as int,
                written_assignment(key, value, ls[i as int]->Var_exported),
            ));
        },
        None => {
            lemma_parse_then_render(text);
            assert(r.drop_last() =~= ls);
        },
    }
}

proof fn lemma_vars_valid(ls: Seq<EnvLine>)
    requires
        forall|i: int| 0 <= i < ls.len() ==> (#[trigger] ls[i] is Var ==> valid_key(ls[i]->Var_key)),
    ensures
        forall|i: int| 0 <= i < spec_vars(ls).len() ==> valid_key(#[trigger] spec_vars(ls)[i].0),
    decreases ls.len(),
{
    if ls.len() > 0 {
        assert forall|i: int| 0 <= i < ls.drop_last().len() implies (#[trigger] ls.drop_last()[i] is Var
            ==> valid_key(ls.drop_last()[i]->Var_key)) by {
            assert(ls.drop_last()[i] == ls[i]);
        }
        lemma_vars_valid(ls.drop_last());
        assert(ls.last() == ls[ls.len() - 1]);
        let p = spec_vars(ls.drop_last());
        let r = spec_vars(ls);
        assert forall|i: int| 0 <= i < r.len() implies valid_key(#[trigger] r[i].0) by {
            if i < p.len() {
                assert(r[i] == p[i]);
            }
        }
    }
}

/// Every name read from a file is a valid variable name: lines that do not
/// assign a valid name are kept as other lines.
pub proof fn lemma_parsed_names_are_valid(text: Seq<char>)
    ensures
        forall|i: int| 0 <= i < spec_vars(spec_parse(text)).len() ==> valid_key(
            #[trigger] spec_vars(spec_parse(text))[i].0,
        ),
{
    let ls = spec_parse(text);
    assert forall|i: int| 0 <= i < ls.len() implies (#[trigger] ls[i] is Var ==> valid_key(ls[i]->Var_key)) by {
        let raw = text_lines(text)[i];
        assert(ls[i] == spec_parse_line(raw));
    }
    lemma_vars_valid(ls);
}

/// No line of `text` keeps a carriage return at its end once split (a
/// CR just before a newline is dropped by the split).
pub open spec fn no_line_ends_in_cr(text: Seq<char>) -> bool {
    forall|i: int|
        0 <= i < text_lines(text).len() ==> !(#[trigger] text_lines(text)[i].len() > 0
            && text_lines(text)[i].last() == '\r')
}

proof fn lemma_text_lines_no_newline(text: Seq<char>)
    ensures
        forall|i: int, k: int|
            0 <= i < text_lines(text).len() && 0 <= k < text_lines(text)[i].len() ==> #[trigger] text_lines(
                text,
            )[i][k] != '\n',
    decreases text.len(),
{
    if text.len() > 0 {
        lemma_find_first(text, '\n');
        match find_first(text, '\n') {
            Some(j) => {
                let rest = text.skip(j + 1int);
                lemma_text_lines_no_newline(rest);
                let first = strip_cr(text.take(j as int));
                let ls = text_lines(text);
                assert(ls =~= seq![first] + text_lines(rest));
                assert forall|i: int, k: int| 0 <= i < ls.len() && 0 <= k < ls[i].len() implies #[trigger] ls[i][k]
                    != '\n' by {
                    if i == 0 {
                        assert(ls[0] == first);
                        assert(first[k] == text[k]);
                    } else {
                        assert(ls[i] == text_lines(rest)[i - 1]);
                    }
                }
            },
            None => {},
        }
    }
}

/// Every line read from a text is one that is written on one line and read
/// back as itself, unless it ends in a carriage return.
pub proof fn lemma_parsed_lines_representable(text: Seq<char>)
    ensures
        forall|i: int|
            0 <= i < spec_parse(text).len() && !(text_lines(text)[i].len() > 0
                && text_lines(text)[i].last() == '\r') ==> representable(#[trigger] spec_parse(text)[i]),
{
    lemma_text_lines_no_newline(text);
    assert forall|i: int|
        0 <= i < spec_parse(text).len() && !(text_lines(text)[i].len() > 0
            && text_lines(text)[i].last() == '\r') implies representable(#[trigger] spec_parse(text)[i]) by {
        let raw = text_lines(text)[i];
        let l = spec_parse(text)[i];
        assert(l == spec_parse_line(raw));
        lemma_line_written_as_read(raw);
        assert(render_line(l) == raw);
        assert forall|k: int| 0 <= k < raw.len() implies #[trigger] raw[k] != '\n' by {
            assert(text_lines(text)[i][k] != '\n');
        }
    }
}

/// A file read from `text`, written and read again, gives the very same
/// lines (and so the same variables, comments and blank lines), and writing
/// it again gives the same text, when no line of `text` ends in a carriage
/// return.
pub proof fn lemma_reload_after_parse(text: Seq<char>)
    requires
        no_line_ends_in_cr(text),
    ensures
        spec_parse(render_lines(spec_parse(text))) == spec_parse(text),
        spec_vars(spec_parse(render_lines(spec_parse(text)))) == spec_vars(spec_parse(text)),
        render_lines(spec_parse(render_lines(spec_parse(text)))) == render_lines(spec_parse(text)),
{
    let ls = spec_parse(text);
    lemma_parsed_lines_representable(text);
    assert forall|i: int| 0 <= i < ls.len() implies representable(#[trigger] ls[i]) by {
        assert(!(text_lines(text)[i].len() > 0 && text_lines(text)[i].last() == '\r'));
    }
    lemma_render_then_parse(ls);
    let m = ls.map_values(|l: EnvLine| reread(l));
    assert forall|i: int| 0 <= i < ls.len() implies #[trigger] m[i] == ls[i] by {
        assert(ls[i] == spec_parse_line(text_lines(text)[i]));
    }
    assert(m =~= ls);
}

/// `set` keeps every line writable and readable as meant, when the name is
/// valid and the value holds no `"` or newline (and, written bare, is not
/// wrapped in single quotes).
pub proof fn lemma_set_keeps_representable(ls: Seq<EnvLine>, key: Seq<char>, value: Seq<char>)
    requires
        forall|i: int| 0 <= i < ls.len() ==> representable(#[trigger] ls[i]),
        valid_key(key),
        forall|i: int| 0 <= i < value.len() ==> #[trigger] value[i] != '"' && value[i] != '\n',
        needs_quoting(value) || !(value.len() >= 2 && value[0] == '\'' && value.last() == '\''),
    ensures
        forall|i: int| 0 <= i < spec_set(ls, key, value).len() ==> representable(
            #[trigger] spec_set(ls, key, value)[i],
        ),
{
    lemma_first_assignment(ls, key);
    let r = spec_set(ls, key, value);
    assert forall|i: int| 0 <= i < r.len() implies representable(#[trigger] r[i]) by {
        if i < ls.len() && r[i] == ls[i] {
        }
    }
}

/// `remove` keeps every line writable and readable as meant.
pub proof fn lemma_remove_keeps_representable(ls: Seq<EnvLine>, key: Seq<char>)
    requires
        forall|i: int| 0 <= i < ls.len() ==> representable(#[trigger] ls[i]),
    ensures
        forall|i: int| 0 <= i < spec_remove(ls, key).len() ==> representable(
            #[trigger] spec_remove(ls, key)[i],
        ),
    decreases ls.len(),
{
    if ls.len() > 0 {
        assert forall|i: int| 0 <= i < ls.drop_last().len() implies representable(#[trigger] ls.drop_last()[i]) by {
            assert(ls.drop_last()[i] == ls[i]);
        }
        lemma_remove_keeps_representable(ls.drop_last(), key);
        let p = spec_remove(ls.drop_last(), key);
        if !assigns(ls.last(), key) {
            assert(representable(ls[ls.len() - 1]));
            assert forall|i: int| 0 <= i < p.push(ls.last()).len() implies representable(
                #[trigger] p.push(ls.last())[i],
            ) by {
                if i < p.len() {
                    assert(p.push(ls.last())[i] == p[i]);
                }
            }
        }
    }
}

/// A line `NAME=VALUE` is read as that assignment when the name is an ASCII
/// letter or `_` followed by ASCII letters, digits or `_`, and the value is
/// printable ASCII without spaces or quotes (or empty); the line is kept as
/// its text.
pub proof fn lemma_assignment_line_is_read(k: Seq<char>, v: Seq<char>)
    requires
        k.len() > 0,
        ('a' <= k[0] && k[0] <= 'z') || ('A' <= k[0] && k[0] <= 'Z') || k[0] == '_',
        forall|i: int|
            0 <= i < k.len() ==> ('a' <= #[trigger] k[i] && k[i] <= 'z') || ('A' <= k[i] && k[i] <= 'Z')
                || ('0' <= k[i] && k[i] <= '9') || k[i] == '_',
        forall|i: int| 0 <= i < v.len() ==> '!' <= #[trigger] v[i] && v[i] <= '~' && v[i] != '"' && v[i] != '\'',
    ensures
        spec_parse_line(k + seq!['='] + v) == (EnvLine::Var {
            key: k,
            value: v,
            exported: false,
            raw: Some(k + seq!['='] + v),
        }),
{
    let body = k + seq!['='] + v;
    assert forall|i: int| 0 <= i < k.len() implies #[trigger] body[i] != '=' by {
        assert(body[i] == k[i]);
    }
    assert(body[k.len() as int] == '=');
    crate::text::lemma_find_first_at(body, '=', k.len() as int);
    assert(body.take(k.len() as int) =~= k);
    assert(body.skip(k.len() + 1int) =~= v);
    assert(valid_key(k));
    lemma_trim_no_ws(k);
    if v.len() > 0 {
        assert(!is_ws(v[0]));
        assert(!is_ws(v.last()));
    }
    lemma_trim_no_ws(v);
    assert(spec_unquote(v) == v);
    assert(body[0] == k[0]);
    assert(lead_ws(body) == 0);
    assert(body.skip(0) =~= body);
    if body.len() >= 7 && body.take(6) == export_word() && (body[6] == ' ' || body[6] == '\t') {
        if k.len() > 6 {
            assert(body[6] == k[6]);
        } else if k.len() == 6 {
            assert(body[6] == '=');
        } else {
            assert(body.take(6)[k.len() as int] == '=');
            assert(export_word()[k.len() as int] != '=');
        }
    }
}

} // verus!
