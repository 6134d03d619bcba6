//! Normalizes raw pseudo-terminal output into the flat, append-only text log
//! shown in the output panel, and guesses whether a recipe waits for input.
//!
//! This is no terminal emulator: CRLF becomes LF, a bare CR redraws the
//! current line (progress bars), and ANSI CSI / OSC escape sequences are
//! dropped.
use vstd::prelude::*;
use crate::text::{
    ascii_lower, chars_of, contains, find_line_start, lemma_line_start, line_start, seq_contains,
    skip_ws_backward, string_from_chars, to_ascii_lower, trim_end,
};

verus! {

pub open spec fn is_csi_final(c: char) -> bool {
    '\x40' <= c && c <= '\x7e'
}

/// Characters consumed by the body of a CSI sequence (after `ESC [`): up to
/// and including the first final byte, or everything that is left.
pub open spec fn csi_len(t: Seq<char>) -> nat
    decreases t.len(),
{
    if t.len() == 0 {
        0
    } else if is_csi_final(t[0]) {
        1
    } else {
        1 + csi_len(t.drop_first())
    }
}

/// Characters consumed by the body of an OSC sequence (after `ESC ]`): up to
/// and including a BEL or an `ESC \` terminator, or everything that is left.
pub open spec fn osc_len(t: Seq<char>) -> nat
    decreases t.len(),
{
    if t.len() == 0 {
        0
    } else if t[0] == '\x07' {
        1
    } else if t[0] == '\x1b' && t.len() > 1 && t[1] == '\\' {
        2
    } else {
        1 + osc_len(t.drop_first())
    }
}

/// Characters consumed after an `ESC`: a CSI or OSC sequence, or one
/// character of a two-character escape.
pub open spec fn escape_len(t: Seq<char>) -> nat {
    if t.len() == 0 {
        0
    } else if t[0] == '[' {
        1 + csi_len(t.drop_first())
    } else if t[0] == ']' {
        1 + osc_len(t.drop_first())
    } else {
        1
    }
}

pub proof fn lemma_escape_len_bound(t: Seq<char>)
    ensures
        escape_len(t) <= t.len(),
{
    if t.len() > 0 {
        lemma_csi_len_bound(t.drop_first());
        lemma_osc_len_bound(t.drop_first());
    }
}

pub proof fn lemma_csi_len_bound(t: Seq<char>)
    ensures
        csi_len(t) <= t.len(),
    decreases t.len(),
{
    if t.len() > 0 {
        lemma_csi_len_bound(t.drop_first());
    }
}

pub proof fn lemma_osc_len_bound(t: Seq<char>)
    ensures
        osc_len(t) <= t.len(),
    decreases t.len(),
{
    if t.len() > 0 {
        lemma_osc_len_bound(t.drop_first());
    }
}

/// `log` with the current (unterminated) line erased.
pub open spec fn erase_current_line(log: Seq<char>) -> Seq<char> {
    log.take(line_start(log) as int)
}

/// The log that results from appending the raw output `chunk` to `log`.
pub open spec fn normalize(log: Seq<char>, chunk: Seq<char>) -> Seq<char>
    decreases chunk.len(),
{
    if chunk.len() == 0 {
        log
    } else {
        let c = chunk[0];
        let rest = chunk.drop_first();
        if c == '\x1b' {
            proof {
                lemma_escape_len_bound(rest);
            }
            normalize(log, rest.skip(escape_len(rest) as int))
        } else if c == '\r' && rest.len() > 0 && rest[0] == '\n' {
            normalize(log.push('\n'), rest.drop_first())
        } else if c == '\r' {
            normalize(erase_current_line(log), rest)
        } else {
            normalize(log.push(c), rest)
        }
    }
}

/// The characters after the last `'\n'` of `log`, without trailing whitespace.
pub open spec fn last_line(log: Seq<char>) -> Seq<char> {
    trim_end(log.skip(line_start(log) as int))
}

pub open spec fn password_word() -> Seq<char> {
    seq!['p', 'a', 's', 's', 'w', 'o', 'r', 'd']
}

pub open spec fn passphrase_word() -> Seq<char> {
    seq!['p', 'a', 's', 's', 'p', 'h', 'r', 'a', 's', 'e']
}

pub open spec fn is_prompt_end(c: char) -> bool {
    c == ':' || c == '?' || c == '>' || c == ']'
}

/// The prompt heuristic: the last line of output is non-empty and either
/// mentions a password/passphrase (in any ASCII case) or ends in prompt
/// punctuation.
pub open spec fn spec_looks_like_prompt(log: Seq<char>) -> bool {
    let tail = last_line(log);
    let lower = tail.map_values(|c: char| ascii_lower(c));
    &&& tail.len() > 0
    &&& (seq_contains(lower, password_word()) || seq_contains(lower, passphrase_word())
        || is_prompt_end(tail.last()))
}

/// Index just past the escape sequence whose body starts at `i` (the
/// character after the `ESC`).
fn consume_escape(ch: &Vec<char>, i: usize) -> (j: usize)
    requires
        i <= ch.len(),
    ensures
        j == i + escape_len(ch@.skip(i as int)),
        j <= ch.len(),
{
    proof {
        lemma_escape_len_bound(ch@.skip(i as int));
    }
    if i == ch.len() {
        return i;
    }
    let n = ch.len();
    assert(ch@.skip(i as int)[0] == ch@[i as int]);
    if ch[i] == '[' {
        let start = i + 1;
        let mut j = start;
        assert(ch@.skip(i as int).drop_first() =~= ch@.skip(start as int));
        while j < n
            invariant
                start <= j <= n == ch.len(),
                csi_len(ch@.skip(start as int)) == (j - start) + csi_len(ch@.skip(j as int)),
                start == i + 1,
                escape_len(ch@.skip(i as int)) == 1 + csi_len(ch@.skip(start as int)),
            decreases n - j,
        {
            assert(ch@.skip(j as int).drop_first() =~= ch@.skip(j + 1));
            assert(ch@.skip(j as int)[0] == ch@[j as int]);
            if is_final_char(ch[j]) {
                return j + 1;
            }
            j = j + 1;
        }
        j
    } else if ch[i] == ']' {
        let start = i + 1;
        let mut j = start;
        assert(ch@.skip(i as int).drop_first() =~= ch@.skip(start as int));
        while j < n
            invariant
                start <= j <= n == ch.len(),
                osc_len(ch@.skip(start as int)) == (j - start) + osc_len(ch@.skip(j as int)),
                start == i + 1,
                escape_len(ch@.skip(i as int)) == 1 + osc_len(ch@.skip(start as int)),
            decreases n - j,
        {
            assert(ch@.skip(j as int).drop_first() =~= ch@.skip(j + 1));
            assert(ch@.skip(j as int)[0] == ch@[j as int]);
            assert(j + 1 < n ==> ch@.skip(j as int)[1] == ch@[j + 1]);
            let c = ch[j];
            if c == '\x07' {
                return j + 1;
            }
            if c == '\x1b' && j + 1 < n && ch[j + 1] == '\\' {
                return j + 2;
            }
            j = j + 1;
        }
        j
    } else {
        i + 1
    }
}

fn is_final_char(c: char) -> (r: bool)
    ensures
        r == is_csi_final(c),
{
    '\x40' <= c && c <= '\x7e'
}

/// Appends the raw terminal output `chunk` to `log`: CRLF is collapsed to LF,
/// a bare CR erases back to the last newline (progress-bar redraws), and ANSI
/// CSI / OSC escape sequences are stripped.
pub fn append_chunk(log: &mut String, chunk: &str)
    ensures
        final(log)@ == normalize(old(log)@, chunk@),
{
    let ch = chars_of(chunk);
    let mut out = chars_of(log.as_str());
    let n = ch.len();
    let mut i: usize = 0;
    assert(ch@.skip(0) =~= ch@);
    while i < n
        invariant
            i <= n == ch.len(),
            normalize(old(log)@, chunk@) == normalize(out@, ch@.skip(i as int)),
            ch@ == chunk@,
        decreases n - i,
    {
        let ghost rest = ch@.skip(i as int);
        assert(rest[0] == ch@[i as int]);
        assert(rest.drop_first() =~= ch@.skip(i + 1));
        let c = ch[i];
        if c == '\x1b' {
            let j = consume_escape(&ch, i + 1);
            assert(ch@.skip(i + 1).skip(j - (i + 1)) =~= ch@.skip(j as int));
            i = j;
        } else if c == '\r' && i + 1 < n && ch[i + 1] == '\n' {
            out.push('\n');
            assert(rest.drop_first().drop_first() =~= ch@.skip(i + 2));
            i = i + 2;
        } else if c == '\r' {
            let cut = find_line_start(&out);
            proof {
                lemma_line_start(out@);
            }
            out.truncate(cut);
            i = i + 1;
        } else {
            out.push(c);
            i = i + 1;
        }
    }
    assert(ch@.skip(n as int) =~= Seq::<char>::empty());
    *log = string_from_chars(&out);
}

/// Best-effort guess that a still-running recipe is blocked on input: the
/// last, unterminated line of output mentions "password"/"passphrase", or
/// ends (ignoring trailing whitespace) in `:`, `?`, `>` or `]`.
pub fn looks_like_prompt(log: &str) -> (r: bool)
    ensures
        r == spec_looks_like_prompt(log@),
{
    let s = chars_of(log);
    let start = find_line_start(&s);
    proof {
        lemma_line_start(s@);
    }
    let end = skip_ws_backward(&s, start, s.len());
    assert(s@.subrange(start as int, s.len() as int) =~= s@.skip(start as int));
    if end == start {
        return false;
    }
    let ghost tail = s@.subrange(start as int, end as int);
    let mut lower: Vec<char> = Vec::new();
    let mut k = start;
    while k < end
        invariant
            start <= k <= end <= s.len(),
            lower@ =~= s@.subrange(start as int, k as int).map_values(|c: char| ascii_lower(c)),
        decreases end - k,
    {
        lower.push(to_ascii_lower(s[k]));
        k = k + 1;
    }
    let pw = vec!['p', 'a', 's', 's', 'w', 'o', 'r', 'd'];
    let pp = vec!['p', 'a', 's', 's', 'p', 'h', 'r', 'a', 's', 'e'];
    assert(pw@ =~= password_word());
    assert(pp@ =~= passphrase_word());
    if contains(&lower, &pw) || contains(&lower, &pp) {
        return true;
    }
    let last = s[end - 1];
    assert(tail.last() == last);
    last == ':' || last == '?' || last == '>' || last == ']'
}

/// `s` holds no escape character and no carriage return.
pub open spec fn is_plain(s: Seq<char>) -> bool {
    forall|k: int| 0 <= k < s.len() ==> #[trigger] s[k] != '\x1b' && s[k] != '\r'
}

/// Output free of escape and carriage-return characters is appended verbatim.
pub proof fn lemma_plain_chunk_is_appended(log: Seq<char>, chunk: Seq<char>)
    requires
        is_plain(chunk),
    ensures
        normalize(log, chunk) == log + chunk,
    decreases chunk.len(),
{
    if chunk.len() > 0 {
        let rest = chunk.drop_first();
        assert(is_plain(rest)) by {
            assert forall|k: int| 0 <= k < rest.len() implies #[trigger] rest[k] != '\x1b'
                && rest[k] != '\r' by {
                assert(rest[k] == chunk[k + 1]);
            }
        }
        assert(chunk[0] != '\x1b' && chunk[0] != '\r');
        lemma_plain_chunk_is_appended(log.push(chunk[0]), rest);
        assert(log.push(chunk[0]) + rest =~= log + chunk);
    }
}

/// `a` holds no escape character and does not end in a carriage return:
/// nothing in it waits for what comes after it.
pub open spec fn no_pending_control(a: Seq<char>) -> bool {
    &&& forall|k: int| 0 <= k < a.len() ==> #[trigger] a[k] != '\x1b'
    &&& !(a.len() > 0 && a.last() == '\r')
}

/// Splitting output after a part with no escape character that does not end
/// in a carriage return does not change the resulting log: feeding the two
/// parts one after the other gives the same log as feeding them at once.
pub proof fn lemma_split_after_plain_text(log: Seq<char>, a: Seq<char>, b: Seq<char>)
    requires
        no_pending_control(a),
    ensures
        normalize(normalize(log, a), b) == normalize(log, a + b),
    decreases a.len(),
{
    if a.len() == 0 {
        assert(a + b =~= b);
    } else {
        let rest = a.drop_first();
        let ab = a + b;
        assert(ab[0] == a[0]);
        assert(ab.drop_first() =~= rest + b);
        assert(a[0] != '\x1b');
        if a[0] == '\r' {
            assert(a.len() > 1) by {
                if a.len() == 1 {
                    assert(a.last() == a[0]);
                }
            }
            assert(rest[0] == a[1]);
            assert((rest + b)[0] == rest[0]);
            if rest[0] == '\n' {
                let r2 = rest.drop_first();
                assert(no_pending_control(r2)) by {
                    assert forall|k: int| 0 <= k < r2.len() implies #[trigger] r2[k] != '\x1b' by {
                        assert(r2[k] == a[k + 2]);
                    }
                    if r2.len() > 0 {
                        assert(r2.last() == a.last());
                    }
                }
                assert((rest + b).drop_first() =~= r2 + b);
                lemma_split_after_plain_text(log.push('\n'), r2, b);
            } else {
                assert(no_pending_control(rest)) by {
                    assert forall|k: int| 0 <= k < rest.len() implies #[trigger] rest[k] != '\x1b' by {
                        assert(rest[k] == a[k + 1]);
                    }
                    assert(rest.last() == a.last());
                }
                lemma_split_after_plain_text(erase_current_line(log), rest, b);
            }
        } else {
            assert(no_pending_control(rest)) by {
                assert forall|k: int| 0 <= k < rest.len() implies #[trigger] rest[k] != '\x1b' by {
                    assert(rest[k] == a[k + 1]);
                }
                if rest.len() > 0 {
                    assert(rest.last() == a.last());
                }
            }
            lemma_split_after_plain_text(log.push(a[0]), rest, b);
        }
    }
}

/// A log free of escape and carriage-return characters stays free of them:
/// escape sequences are stripped and carriage returns never reach the log.
pub proof fn lemma_normalized_log_has_no_controls(log: Seq<char>, chunk: Seq<char>)
    requires
        is_plain(log),
    ensures
        is_plain(normalize(log, chunk)),
    decreases chunk.len(),
{
    if chunk.len() > 0 {
        let c = chunk[0];
        let rest = chunk.drop_first();
        if c == '\x1b' {
            lemma_escape_len_bound(rest);
            lemma_normalized_log_has_no_controls(log, rest.skip(escape_len(rest) as int));
        } else if c == '\r' && rest.len() > 0 && rest[0] == '\n' {
            assert(is_plain(log.push('\n'))) by {
                assert forall|k: int| 0 <= k < log.push('\n').len() implies #[trigger] log.push(
                    '\n',
                )[k] != '\x1b' && log.push('\n')[k] != '\r' by {
                    if k < log.len() {
                        assert(log.push('\n')[k] == log[k]);
                    }
                }
            }
            lemma_normalized_log_has_no_controls(log.push('\n'), rest.drop_first());
        } else if c == '\r' {
            lemma_line_start(log);
            assert(is_plain(erase_current_line(log))) by {
                assert forall|k: int| 0 <= k < erase_current_line(log).len() implies
                    #[trigger] erase_current_line(log)[k] != '\x1b' && erase_current_line(
                    log,
                )[k] != '\r' by {
                    assert(erase_current_line(log)[k] == log[k]);
                }
            }
            lemma_normalized_log_has_no_controls(erase_current_line(log), rest);
        } else {
            assert(is_plain(log.push(c))) by {
                assert forall|k: int| 0 <= k < log.push(c).len() implies #[trigger] log.push(
                    c,
                )[k] != '\x1b' && log.push(c)[k] != '\r' by {
                    if k < log.len() {
                        assert(log.push(c)[k] == log[k]);
                    }
                }
            }
            lemma_normalized_log_has_no_controls(log.push(c), rest);
        }
    }
}

/// `p` is empty or ends with a newline: it is made of completed lines.
pub open spec fn ends_a_line(p: Seq<char>) -> bool {
    p.len() == 0 || p.last() == '\n'
}

proof fn lemma_line_start_covers_prefix(p: Seq<char>, s: Seq<char>)
    requires
        ends_a_line(p),
        p.is_prefix_of(s),
    ensures
        p.len() <= line_start(s),
    decreases s.len(),
{
    if s.len() > p.len() {
        if s.last() != '\n' {
            assert(p.is_prefix_of(s.drop_last()));
            lemma_line_start_covers_prefix(p, s.drop_last());
        }
    } else if p.len() > 0 {
        assert(s.last() == p.last());
    }
}

proof fn lemma_completed_lines_survive(p: Seq<char>, log: Seq<char>, chunk: Seq<char>)
    requires
        ends_a_line(p),
        p.is_prefix_of(log),
    ensures
        p.is_prefix_of(normalize(log, chunk)),
    decreases chunk.len(),
{
    if chunk.len() > 0 {
        let c = chunk[0];
        let rest = chunk.drop_first();
        if c == '\x1b' {
            lemma_escape_len_bound(rest);
            lemma_completed_lines_survive(p, log, rest.skip(escape_len(rest) as int));
        } else if c == '\r' && rest.len() > 0 && rest[0] == '\n' {
            assert(p.is_prefix_of(log.push('\n')));
            lemma_completed_lines_survive(p, log.push('\n'), rest.drop_first());
        } else if c == '\r' {
            lemma_line_start_covers_prefix(p, log);
            lemma_line_start(log);
            assert(p.is_prefix_of(erase_current_line(log)));
            lemma_completed_lines_survive(p, erase_current_line(log), rest);
        } else {
            assert(p.is_prefix_of(log.push(c)));
            lemma_completed_lines_survive(p, log.push(c), rest);
        }
    }
}

/// Appending output never rewrites a completed line: everything up to and
/// including the last newline already in the log stays as it was.
pub proof fn lemma_completed_lines_are_kept(log: Seq<char>, chunk: Seq<char>)
    ensures
        erase_current_line(log).is_prefix_of(normalize(log, chunk)),
{
    lemma_line_start(log);
    let p = erase_current_line(log);
    if p.len() > 0 {
        assert(p.last() == log[line_start(log) - 1]);
    }
    lemma_completed_lines_survive(p, log, chunk);
}

proof fn lemma_line_start_after_newline(a: Seq<char>, b: Seq<char>)
    ensures
        line_start(a.push('\n') + b) == a.len() + 1 + line_start(b),
    decreases b.len(),
{
    let s = a.push('\n') + b;
    if b.len() == 0 {
        assert(s =~= a.push('\n'));
    } else {
        assert(s.last() == b.last());
        assert(s.drop_last() =~= a.push('\n') + b.drop_last());
        lemma_line_start_after_newline(a, b.drop_last());
    }
}

/// The prompt guess looks only at the last line: whatever output came before
/// the last newline does not change it.
pub proof fn lemma_prompt_depends_on_last_line_only(earlier: Seq<char>, last: Seq<char>)
    ensures
        spec_looks_like_prompt(earlier.push('\n') + last) == spec_looks_like_prompt(last),
{
    let s = earlier.push('\n') + last;
    lemma_line_start_after_newline(earlier, last);
    lemma_line_start(last);
    let off = earlier.len() + 1;
    assert forall|k: int| 0 <= k < last.len() implies #[trigger] s[off + k] == last[k] by {
        assert(s[off + k] == (earlier.push('\n') + last)[off + k]);
    }
    assert(s.skip(line_start(s) as int) =~= last.skip(line_start(last) as int));
}

/// Output that ends with a newline is never taken for a prompt.
pub proof fn lemma_finished_line_is_no_prompt(log: Seq<char>)
    ensures
        !spec_looks_like_prompt(log.push('\n')),
{
    let s = log.push('\n');
    assert(s.skip(line_start(s) as int) =~= Seq::<char>::empty());
}

proof fn lemma_csi_len_of_sequence(p: Seq<char>, f: char, rest: Seq<char>)
    requires
        forall|i: int| 0 <= i < p.len() ==> '\x20' <= #[trigger] p[i] && p[i] <= '\x3f',
        '\x40' <= f && f <= '\x7e',
    ensures
        csi_len(p + seq![f] + rest) == p.len() + 1,
    decreases p.len(),
{
    let t = p + seq![f] + rest;
    if p.len() == 0 {
        assert(t[0] == f);
    } else {
        assert(t[0] == p[0]);
        let q = p.drop_first();
        assert forall|i: int| 0 <= i < q.len() implies '\x20' <= #[trigger] q[i] && q[i] <= '\x3f' by {
            assert(q[i] == p[i + 1]);
        }
        assert(t.drop_first() =~= q + seq![f] + rest);
        lemma_csi_len_of_sequence(q, f, rest);
    }
}

/// A CSI escape sequence is dropped whole: `ESC [`, any parameter and
/// intermediate bytes (0x20 to 0x3f), then the final byte (0x40 to 0x7e);
/// the output goes on after it as if it were not there.
pub proof fn lemma_csi_sequence_is_dropped(log: Seq<char>, p: Seq<char>, f: char, rest: Seq<char>)
    requires
        forall|i: int| 0 <= i < p.len() ==> '\x20' <= #[trigger] p[i] && p[i] <= '\x3f',
        '\x40' <= f && f <= '\x7e',
    ensures
        normalize(log, seq!['\x1b', '['] + p + seq![f] + rest) == normalize(log, rest),
{
    let chunk = seq!['\x1b', '['] + p + seq![f] + rest;
    let r0 = chunk.drop_first();
    assert(chunk[0] == '\x1b');
    assert(r0[0] == '[');
    assert(r0.drop_first() =~= p + seq![f] + rest);
    lemma_csi_len_of_sequence(p, f, rest);
    assert(r0.skip(escape_len(r0) as int) =~= rest);
}

proof fn lemma_osc_len_of_sequence(t: Seq<char>, term: Seq<char>, rest: Seq<char>)
    requires
        forall|i: int| 0 <= i < t.len() ==> #[trigger] t[i] != '\x07' && t[i] != '\x1b',
        term == seq!['\x07'] || term == seq!['\x1b', '\\'],
    ensures
        osc_len(t + term + rest) == t.len() + term.len(),
    decreases t.len(),
{
    let u = t + term + rest;
    if t.len() == 0 {
        assert(u[0] == term[0]);
        if term.len() == 2 {
            assert(u[1] == term[1]);
        }
    } else {
        assert(u[0] == t[0]);
        let q = t.drop_first();
        assert forall|i: int| 0 <= i < q.len() implies #[trigger] q[i] != '\x07' && q[i] != '\x1b' by {
            assert(q[i] == t[i + 1]);
        }
        assert(u.drop_first() =~= q + term + rest);
        lemma_osc_len_of_sequence(q, term, rest);
    }
}

/// An OSC escape sequence (such as a window title) is dropped whole: `ESC ]`,
/// its text, then BEL or `ESC \`; the output goes on after it as if it were
/// not there.
pub proof fn lemma_osc_sequence_is_dropped(log: Seq<char>, t: Seq<char>, term: Seq<char>, rest: Seq<char>)
    requires
        forall|i: int| 0 <= i < t.len() ==> #[trigger] t[i] != '\x07' && t[i] != '\x1b',
        term == seq!['\x07'] || term == seq!['\x1b', '\\'],
    ensures
        normalize(log, seq!['\x1b', ']'] + t + term + rest) == normalize(log, rest),
{
    let chunk = seq!['\x1b', ']'] + t + term + rest;
    let r0 = chunk.drop_first();
    assert(chunk[0] == '\x1b');
    assert(r0[0] == ']');
    assert(r0.drop_first() =~= t + term + rest);
    lemma_osc_len_of_sequence(t, term, rest);
    assert(r0.skip(escape_len(r0) as int) =~= rest);
}

proof fn lemma_trim_end_padding(line: Seq<char>, pad: Seq<char>)
    requires
        line.len() > 0,
        !crate::text::is_ws(line.last()),
        forall|k: int| 0 <= k < pad.len() ==> #[trigger] pad[k] == ' ' || pad[k] == '\t',
    ensures
        trim_end(line + pad) == line,
    decreases pad.len(),
{
    let s = line + pad;
    if pad.len() == 0 {
        assert(s =~= line);
    } else {
        assert(s.last() == pad.last());
        assert(pad.last() == pad[pad.len() - 1]);
        assert(s.drop_last() =~= line + pad.drop_last());
        assert forall|k: int| 0 <= k < pad.drop_last().len() implies #[trigger] pad.drop_last()[k] == ' '
            || pad.drop_last()[k] == '\t' by {
            assert(pad.drop_last()[k] == pad[k]);
        }
        lemma_trim_end_padding(line, pad.drop_last());
    }
}

proof fn lemma_last_line_of_padded(line: Seq<char>, pad: Seq<char>)
    requires
        line.len() > 0,
        !crate::text::is_ws(line.last()),
        forall|k: int| 0 <= k < line.len() ==> #[trigger] line[k] != '\n',
        forall|k: int| 0 <= k < pad.len() ==> #[trigger] pad[k] == ' ' || pad[k] == '\t',
    ensures
        last_line(line + pad) == line,
{
    let s = line + pad;
    lemma_line_start(s);
    if line_start(s) > 0 {
        let k = line_start(s) - 1;
        if k < line.len() {
            assert(s[k] == line[k]);
        } else {
            assert(s[k] == pad[k - line.len()]);
        }
    }
    assert(s.skip(0) =~= s);
    lemma_trim_end_padding(line, pad);
}

/// A last line that ends in `:`, `?`, `>` or `]`, with nothing but spaces or
/// tabs after it, is taken for a prompt, whatever output came before it.
pub proof fn lemma_prompt_punctuation_is_prompt(earlier: Seq<char>, line: Seq<char>, pad: Seq<char>)
    requires
        line.len() > 0,
        line.last() == ':' || line.last() == '?' || line.last() == '>' || line.last() == ']',
        forall|k: int| 0 <= k < line.len() ==> #[trigger] line[k] != '\n',
        forall|k: int| 0 <= k < pad.len() ==> #[trigger] pad[k] == ' ' || pad[k] == '\t',
    ensures
        spec_looks_like_prompt(line + pad),
        spec_looks_like_prompt(earlier.push('\n') + line + pad),
{
    lemma_last_line_of_padded(line, pad);
    lemma_prompt_depends_on_last_line_only(earlier, line + pad);
    assert(earlier.push('\n') + line + pad =~= earlier.push('\n') + (line + pad));
}

/// A last line that holds the word `password` or `passphrase` (and does not
/// end in whitespace), with nothing but spaces or tabs after it, is taken
/// for a prompt, whatever output came before it.
pub proof fn lemma_password_line_is_prompt(
    earlier: Seq<char>,
    line: Seq<char>,
    pad: Seq<char>,
    word: Seq<char>,
    at: int,
)
    requires
        word == seq!['p', 'a', 's', 's', 'w', 'o', 'r', 'd'] || word == seq![
            'p',
            'a',
            's',
            's',
            'p',
            'h',
            'r',
            'a',
            's',
            'e',
        ],
        0 <= at && at + word.len() <= line.len(),
        line.subrange(at, at + word.len()) == word,
        !crate::text::is_ws(line.last()),
        forall|k: int| 0 <= k < line.len() ==> #[trigger] line[k] != '\n',
        forall|k: int| 0 <= k < pad.len() ==> #[trigger] pad[k] == ' ' || pad[k] == '\t',
    ensures
        spec_looks_like_prompt(line + pad),
        spec_looks_like_prompt(earlier.push('\n') + line + pad),
{
    lemma_last_line_of_padded(line, pad);
    let lower = line.map_values(|c: char| ascii_lower(c));
    assert forall|k: int| 0 <= k < word.len() implies #[trigger] lower.subrange(at, at + word.len())[k]
        == word[k] by {
        assert(line[at + k] == word[k]);
    }
    assert(lower.subrange(at, at + word.len()) =~= word);
    if word == password_word() {
        assert(crate::text::occurs_at(lower, password_word(), at));
    } else {
        assert(word =~= passphrase_word());
        assert(crate::text::occurs_at(lower, passphrase_word(), at));
    }
    lemma_prompt_depends_on_last_line_only(earlier, line + pad);
    assert(earlier.push('\n') + line + pad =~= earlier.push('\n') + (line + pad));
}

} // verus!
