//! Character-level helpers shared by the other modules.
use vstd::prelude::*;

verus! {

/// `String::push` appends one character: the contract says the string's
/// characters are the old ones followed by `ch` (what std documents).
pub assume_specification[ String::push ](s: &mut String, ch: char)
    ensures
        final(s)@ == old(s)@.push(ch),
;

/// The characters of `s`, in order.
pub fn chars_of(s: &str) -> (r: Vec<char>)
    ensures
        r@ == s@,
{
    let mut out: Vec<char> = Vec::new();
    for c in it: s.chars()
        invariant
            out@ == it.seq().take(it.index() as int),
            it.seq() == s@,
    {
        out.push(c);
    }
    out
}

/// A `String` holding exactly the characters of `v`.
pub fn string_from_chars(v: &Vec<char>) -> (r: String)
    ensures
        r@ == v@,
{
    let mut s = String::new();
    let mut i: usize = 0;
    while i < v.len()
        invariant
            i <= v.len(),
            s@ == v@.take(i as int),
        decreases v.len() - i,
    {
        s.push(v[i]);
        i = i + 1;
        assert(s@ =~= v@.take(i as int));
    }
    assert(v@.take(v.len() as int) =~= v@);
    s
}


/// Unicode `White_Space`, the set `char::is_whitespace` tests for.
pub open spec fn is_ws(c: char) -> bool {
    let u = c as u32;
    ||| 0x09 <= u <= 0x0d
    ||| u == 0x20
    ||| u == 0x85
    ||| u == 0xa0
    ||| u == 0x1680
    ||| 0x2000 <= u <= 0x200a
    ||| u == 0x2028
    ||| u == 0x2029
    ||| u == 0x202f
    ||| u == 0x205f
    ||| u == 0x3000
}

pub fn is_whitespace(c: char) -> (r: bool)
    ensures
        r == is_ws(c),
{
    let u = c as u32;
    (0x09 <= u && u <= 0x0d) || u == 0x20 || u == 0x85 || u == 0xa0 || u == 0x1680 || (0x2000
        <= u && u <= 0x200a) || u == 0x2028 || u == 0x2029 || u == 0x202f || u == 0x205f || u
        == 0x3000
}

/// Number of leading whitespace characters of `s`.
pub open spec fn lead_ws(s: Seq<char>) -> nat
    decreases s.len(),
{
    if s.len() > 0 && is_ws(s[0]) {
        1 + lead_ws(s.drop_first())
    } else {
        0
    }
}

/// `s` without its trailing whitespace.
pub open spec fn trim_end(s: Seq<char>) -> Seq<char>
    decreases s.len(),
{
    if s.len() > 0 && is_ws(s.last()) {
        trim_end(s.drop_last())
    } else {
        s
    }
}

/// `s` without its leading whitespace.
pub open spec fn trim_start(s: Seq<char>) -> Seq<char> {
    s.skip(lead_ws(s) as int)
}

/// `s` without whitespace at either end.
pub open spec fn trim(s: Seq<char>) -> Seq<char> {
    trim_end(trim_start(s))
}

pub proof fn lemma_lead_ws(s: Seq<char>)
    ensures
        lead_ws(s) <= s.len(),
        forall|k: int| 0 <= k < lead_ws(s) ==> is_ws(#[trigger] s[k]),
        lead_ws(s) < s.len() ==> !is_ws(s[lead_ws(s) as int]),
    decreases s.len(),
{
    if s.len() > 0 && is_ws(s[0]) {
        lemma_lead_ws(s.drop_first());
        assert forall|k: int| 0 <= k < lead_ws(s) implies is_ws(#[trigger] s[k]) by {
            if k > 0 {
                assert(s[k] == s.drop_first()[k - 1]);
            }
        }
    }
}

pub proof fn lemma_trim_end(s: Seq<char>)
    ensures
        trim_end(s) =~= s.take(trim_end(s).len() as int),
        trim_end(s).len() <= s.len(),
        forall|k: int| trim_end(s).len() <= k < s.len() ==> is_ws(#[trigger] s[k]),
        trim_end(s).len() > 0 ==> !is_ws(trim_end(s).last()),
    decreases s.len(),
{
    if s.len() > 0 && is_ws(s.last()) {
        lemma_trim_end(s.drop_last());
        assert forall|k: int| trim_end(s).len() <= k < s.len() implies is_ws(#[trigger] s[k]) by {
            if k < s.len() - 1 {
                assert(s[k] == s.drop_last()[k]);
            }
        }
    }
}

/// Index of the first character of `s@` at or after `from` that is not whitespace.
pub fn skip_ws_forward(s: &Vec<char>, from: usize, to: usize) -> (r: usize)
    requires
        from <= to <= s.len(),
    ensures
        r == from + lead_ws(s@.subrange(from as int, to as int)),
        from <= r <= to,
{
    let mut i = from;
    proof {
        lemma_lead_ws(s@.subrange(from as int, to as int));
    }
    while i < to && is_whitespace(s[i])
        invariant
            from <= i <= to <= s.len(),
            lead_ws(s@.subrange(from as int, to as int)) == (i - from) + lead_ws(
                s@.subrange(i as int, to as int),
            ),
        decreases to - i,
    {
        assert(s@.subrange(i as int, to as int).drop_first() =~= s@.subrange(i + 1, to as int));
        i = i + 1;
    }
    i
}

/// One past the last non-whitespace character of `s@[from..to]` (or `from`).
pub fn skip_ws_backward(s: &Vec<char>, from: usize, to: usize) -> (r: usize)
    requires
        from <= to <= s.len(),
    ensures
        s@.subrange(from as int, r as int) == trim_end(s@.subrange(from as int, to as int)),
        from <= r <= to,
{
    let mut j = to;
    while j > from && is_whitespace(s[j - 1])
        invariant
            from <= j <= to <= s.len(),
            trim_end(s@.subrange(from as int, to as int)) == trim_end(
                s@.subrange(from as int, j as int),
            ),
        decreases j - from,
    {
        assert(s@.subrange(from as int, j as int).drop_last() =~= s@.subrange(
            from as int,
            j - 1,
        ));
        j = j - 1;
    }
    j
}

/// Number of characters up to and including the last `'\n'` of `s` (0 if none).
pub open spec fn line_start(s: Seq<char>) -> nat
    decreases s.len(),
{
    if s.len() == 0 {
        0
    } else if s.last() == '\n' {
        s.len()
    } else {
        line_start(s.drop_last())
    }
}

pub proof fn lemma_line_start(s: Seq<char>)
    ensures
        line_start(s) <= s.len(),
        line_start(s) > 0 ==> s[line_start(s) - 1] == '\n',
        forall|k: int| line_start(s) <= k < s.len() ==> #[trigger] s[k] != '\n',
    decreases s.len(),
{
    if s.len() > 0 && s.last() != '\n' {
        lemma_line_start(s.drop_last());
        assert forall|k: int| line_start(s) <= k < s.len() implies #[trigger] s[k] != '\n' by {
            if k < s.len() - 1 {
                assert(s[k] == s.drop_last()[k]);
            }
        }
    }
}

pub fn find_line_start(s: &Vec<char>) -> (r: usize)
    ensures
        r == line_start(s@),
{
    let mut k = s.len();
    assert(s@.take(k as int) =~= s@);
    while k > 0 && s[k - 1] != '\n'
        invariant
            k <= s.len(),
            line_start(s@) == line_start(s@.take(k as int)),
        decreases k,
    {
        assert(s@.take(k as int).drop_last() =~= s@.take(k - 1));
        k = k - 1;
    }
    if k > 0 {
        assert(s@.take(k as int).last() == '\n');
    }
    k
}

/// ASCII lower-casing of one character, as `char::to_ascii_lowercase`.
pub open spec fn ascii_lower(c: char) -> char {
    if 'A' <= c && c <= 'Z' {
        ((c as u32) + 32) as char
    } else {
        c
    }
}

pub fn to_ascii_lower(c: char) -> (r: char)
    ensures
        r == ascii_lower(c),
{
    if 'A' <= c && c <= 'Z' {
        ((c as u8) + 32) as char
    } else {
        c
    }
}

/// `pat` occurs in `s` at position `i`.
pub open spec fn occurs_at(s: Seq<char>, pat: Seq<char>, i: int) -> bool {
    0 <= i && i + pat.len() <= s.len() && s.subrange(i, i + pat.len()) == pat
}

/// `pat` occurs somewhere in `s`.
pub open spec fn seq_contains(s: Seq<char>, pat: Seq<char>) -> bool {
    exists|i: int| occurs_at(s, pat, i)
}

pub fn contains_at(s: &Vec<char>, pat: &Vec<char>, i: usize) -> (r: bool)
    ensures
        r == occurs_at(s@, pat@, i as int),
{
    if pat.len() > s.len() || i > s.len() - pat.len() {
        return false;
    }
    let mut k: usize = 0;
    while k < pat.len()
        invariant
            k <= pat.len(),
            i + pat.len() <= s.len(),
            forall|m: int| 0 <= m < k ==> s@[i + m] == pat@[m],
        decreases pat.len() - k,
    {
        if s[i + k] != pat[k] {
            assert(s@.subrange(i as int, i + pat.len())[k as int] != pat@[k as int]);
            return false;
        }
        k = k + 1;
    }
    assert(s@.subrange(i as int, i + pat.len()) =~= pat@);
    true
}

pub fn contains(s: &Vec<char>, pat: &Vec<char>) -> (r: bool)
    ensures
        r == seq_contains(s@, pat@),
{
    let mut i: usize = 0;
    while i < s.len()
        invariant
            i <= s.len(),
            forall|m: int| 0 <= m < i ==> !occurs_at(s@, pat@, m),
        decreases s.len() - i,
    {
        if contains_at(s, pat, i) {
            return true;
        }
        i = i + 1;
    }
    if contains_at(s, pat, i) {
        return true;
    }
    assert forall|m: int| !occurs_at(s@, pat@, m) by {
        if 0 <= m < i {
        } else if m == i {
        }
    }
    false
}

/// A `String` holding the characters `v@[from..to]`.
pub fn string_from_range(v: &Vec<char>, from: usize, to: usize) -> (r: String)
    requires
        from <= to <= v.len(),
    ensures
        r@ == v@.subrange(from as int, to as int),
{
    let mut s = String::new();
    let mut i = from;
    while i < to
        invariant
            from <= i <= to <= v.len(),
            s@ == v@.subrange(from as int, i as int),
        decreases to - i,
    {
        s.push(v[i]);
        i = i + 1;
        assert(s@ =~= v@.subrange(from as int, i as int));
    }
    s
}

/// Position of the first occurrence of `c` in `s`.
pub open spec fn find_first(s: Seq<char>, c: char) -> Option<nat>
    decreases s.len(),
{
    if s.len() == 0 {
        None
    } else if s[0] == c {
        Some(0)
    } else {
        match find_first(s.drop_first(), c) {
            Some(i) => Some(i + 1),
            None => None,
        }
    }
}

pub proof fn lemma_find_first(s: Seq<char>, c: char)
    ensures
        find_first(s, c) matches Some(i) ==> i < s.len() && s[i as int] == c && forall|k: int|
            0 <= k < i ==> #[trigger] s[k] != c,
        find_first(s, c) is None ==> forall|k: int| 0 <= k < s.len() ==> #[trigger] s[k] != c,
    decreases s.len(),
{
    if s.len() > 0 && s[0] != c {
        lemma_find_first(s.drop_first(), c);
        assert forall|k: int| 1 <= k < s.len() implies #[trigger] s[k] == s.drop_first()[k - 1] by {
        }
    }
}

pub proof fn lemma_find_first_at(s: Seq<char>, c: char, j: int)
    requires
        0 <= j <= s.len(),
        forall|k: int| 0 <= k < j ==> #[trigger] s[k] != c,
        j < s.len() ==> s[j] == c,
    ensures
        j < s.len() ==> find_first(s, c) == Some(j as nat),
        j == s.len() ==> find_first(s, c) is None,
{
    lemma_find_first(s, c);
    match find_first(s, c) {
        Some(i) => {
            if (i as int) < j {
                assert(s[i as int] != c);
            } else if (i as int) > j {
                assert(s[j] != c);
            }
        },
        None => {
            if j < s.len() {
                assert(s[j] != c);
            }
        },
    }
}

/// Index of the first `c` in `v@[from..to]` (absolute), or `to` if none.
pub fn find_char(v: &Vec<char>, c: char, from: usize, to: usize) -> (r: usize)
    requires
        from <= to <= v.len(),
    ensures
        from <= r <= to,
        r < to ==> find_first(v@.subrange(from as int, to as int), c) == Some((r - from) as nat),
        r == to ==> find_first(v@.subrange(from as int, to as int), c) is None,
{
    let mut i = from;
    while i < to && v[i] != c
        invariant
            from <= i <= to <= v.len(),
            forall|k: int| from <= k < i ==> #[trigger] v@[k] != c,
        decreases to - i,
    {
        i = i + 1;
    }
    proof {
        let sub = v@.subrange(from as int, to as int);
        assert forall|k: int| 0 <= k < i - from implies #[trigger] sub[k] != c by {
            assert(sub[k] == v@[from + k]);
        }
        lemma_find_first_at(sub, c, i - from);
    }
    i
}

/// A copy of `v@[from..to]`.
pub fn vec_range(v: &Vec<char>, from: usize, to: usize) -> (r: Vec<char>)
    requires
        from <= to <= v.len(),
    ensures
        r@ == v@.subrange(from as int, to as int),
{
    let mut out: Vec<char> = Vec::new();
    let mut i = from;
    while i < to
        invariant
            from <= i <= to <= v.len(),
            out@ == v@.subrange(from as int, i as int),
        decreases to - i,
    {
        out.push(v[i]);
        i = i + 1;
        assert(out@ =~= v@.subrange(from as int, i as int));
    }
    out
}

/// Appends the characters of `s` to `out`.
pub fn push_str(out: &mut Vec<char>, s: &str)
    ensures
        final(out)@ == old(out)@ + s@,
{
    let c = chars_of(s);
    let mut i: usize = 0;
    while i < c.len()
        invariant
            i <= c.len(),
            c@ == s@,
            out@ == old(out)@ + c@.take(i as int),
        decreases c.len() - i,
    {
        out.push(c[i]);
        i = i + 1;
        assert(out@ =~= old(out)@ + c@.take(i as int));
    }
    assert(c@.take(c.len() as int) =~= c@);
}

/// Whether the two strings hold the same characters.
pub fn same_text(a: &str, b: &str) -> (r: bool)
    ensures
        r == (a@ == b@),
{
    let x = chars_of(a);
    let y = chars_of(b);
    if x.len() != y.len() {
        return false;
    }
    let mut i: usize = 0;
    while i < x.len()
        invariant
            i <= x.len() == y.len(),
            x@ == a@,
            y@ == b@,
            forall|k: int| 0 <= k < i ==> x@[k] == y@[k],
        decreases x.len() - i,
    {
        if x[i] != y[i] {
            return false;
        }
        i = i + 1;
    }
    assert(x@ =~= y@);
    true
}

/// Lexicographic order of character sequences by code point (the order of
/// `str`/`String` comparison).
pub open spec fn lex_le(a: Seq<char>, b: Seq<char>) -> bool
    decreases a.len(),
{
    if a.len() == 0 {
        true
    } else if b.len() == 0 {
        false
    } else if a[0] != b[0] {
        a[0] < b[0]
    } else {
        lex_le(a.drop_first(), b.drop_first())
    }
}

/// Strict lexicographic order.
pub open spec fn lex_lt(a: Seq<char>, b: Seq<char>) -> bool {
    lex_le(a, b) && a != b
}

pub proof fn lemma_lex_total(a: Seq<char>, b: Seq<char>)
    ensures
        lex_le(a, b) || lex_le(b, a),
    decreases a.len(),
{
    if a.len() > 0 && b.len() > 0 && a[0] == b[0] {
        lemma_lex_total(a.drop_first(), b.drop_first());
    }
}

pub proof fn lemma_lex_antisym(a: Seq<char>, b: Seq<char>)
    requires
        lex_le(a, b),
        lex_le(b, a),
    ensures
        a == b,
    decreases a.len(),
{
    if a.len() == 0 {
        assert(a =~= b);
    } else {
        lemma_lex_antisym(a.drop_first(), b.drop_first());
        assert(a =~= seq![a[0]] + a.drop_first());
        assert(b =~= seq![b[0]] + b.drop_first());
    }
}

pub proof fn lemma_lex_trans(a: Seq<char>, b: Seq<char>, c: Seq<char>)
    requires
        lex_le(a, b),
        lex_le(b, c),
    ensures
        lex_le(a, c),
    decreases a.len(),
{
    if a.len() > 0 && b.len() > 0 && c.len() > 0 && a[0] == b[0] && b[0] == c[0] {
        lemma_lex_trans(a.drop_first(), b.drop_first(), c.drop_first());
    }
}

pub proof fn lemma_lex_refl(a: Seq<char>)
    ensures
        lex_le(a, a),
    decreases a.len(),
{
    if a.len() > 0 {
        lemma_lex_refl(a.drop_first());
    }
}

/// Whether `a@ < b@` in lexicographic order.
pub fn lex_less(a: &Vec<char>, b: &Vec<char>) -> (r: bool)
    ensures
        r == lex_lt(a@, b@),
{
    let mut i: usize = 0;
    assert(a@.skip(0) =~= a@);
    assert(b@.skip(0) =~= b@);
    while i < a.len() && i < b.len() && a[i] == b[i]
        invariant
            i <= a.len(),
            i <= b.len(),
            a@.take(i as int) == b@.take(i as int),
            lex_le(a@, b@) == lex_le(a@.skip(i as int), b@.skip(i as int)),
        decreases a.len() - i,
    {
        assert(a@.skip(i as int).drop_first() =~= a@.skip(i + 1));
        assert(b@.skip(i as int).drop_first() =~= b@.skip(i + 1));
        assert(a@.take(i + 1) =~= a@.take(i as int).push(a@[i as int]));
        assert(b@.take(i + 1) =~= b@.take(i as int).push(b@[i as int]));
        i = i + 1;
    }
    if i == a.len() {
        // a is a prefix of b
        if i == b.len() {
            assert(a@ =~= a@.take(i as int));
            assert(b@ =~= b@.take(i as int));
            false
        } else {
            assert(a@.len() != b@.len());
            true
        }
    } else if i == b.len() {
        false
    } else {
        assert(a@.skip(i as int)[0] == a@[i as int]);
        assert(b@.skip(i as int)[0] == b@[i as int]);
        assert(a@[i as int] != b@[i as int]);
        assert(a@ != b@);
        a[i] < b[i]
    }
}

/// `order` lists the indices of `keys` sorted by key, ties in index order
/// (what a stable sort by key gives).
pub open spec fn is_text_order(keys: Seq<Seq<char>>, order: Seq<usize>) -> bool {
    &&& order.len() == keys.len()
    &&& forall|k: int| 0 <= k < order.len() ==> #[trigger] order[k] < keys.len()
    &&& forall|a: int, b: int| 0 <= a < b < order.len() ==> #[trigger] order[a] != #[trigger] order[b]
    &&& forall|a: int, b: int|
        0 <= a < b < order.len() ==> lex_le(keys[#[trigger] order[a] as int], keys[#[trigger] order[b] as int])
    &&& forall|a: int, b: int|
        0 <= a < b < order.len() && keys[#[trigger] order[a] as int] == keys[#[trigger] order[b] as int]
            ==> order[a] < order[b]
}

/// The indices of `keys`, stably sorted by key (lexicographic order).
pub fn text_order(keys: &Vec<Vec<char>>) -> (order: Vec<usize>)
    ensures
        is_text_order(keys@.map_values(|k: Vec<char>| k@), order@),
{
    let ghost ks = keys@.map_values(|k: Vec<char>| k@);
    let mut order: Vec<usize> = Vec::new();
    let n = keys.len();
    let mut i: usize = 0;
    while i < n
        invariant
            i <= n == keys.len(),
            ks == keys@.map_values(|k: Vec<char>| k@),
            order.len() == i,
            forall|k: int| 0 <= k < i ==> #[trigger] order@[k] < i,
            forall|a: int, b: int| 0 <= a < b < i ==> #[trigger] order@[a] != #[trigger] order@[b],
            forall|a: int, b: int|
                0 <= a < b < i ==> lex_le(ks[#[trigger] order@[a] as int], ks[#[trigger] order@[b] as int]),
            forall|a: int, b: int|
                0 <= a < b < i && ks[#[trigger] order@[a] as int] == ks[#[trigger] order@[b] as int]
                    ==> order@[a] < order@[b],
        decreases n - i,
    {
        let kx = &keys[i];
        let mut pos: usize = 0;
        while pos < i && !lex_less(kx, &keys[order[pos]])
            invariant
                pos <= i == order.len(),
                i < n == keys.len(),
                ks == keys@.map_values(|k: Vec<char>| k@),
                forall|k: int| 0 <= k < i ==> #[trigger] order@[k] < i,
                forall|a: int| 0 <= a < pos ==> !lex_lt(ks[i as int], ks[#[trigger] order@[a] as int]),
                kx@ == ks[i as int],
            decreases i - pos,
        {
            assert(ks[order@[pos as int] as int] == keys@[order@[pos as int] as int]@);
            pos = pos + 1;
        }
        let ghost old_order = order@;
        proof {
            assert forall|a: int| 0 <= a < pos implies lex_le(
                ks[#[trigger] old_order[a] as int],
                ks[i as int],
            ) by {
                lemma_lex_total(ks[i as int], ks[old_order[a] as int]);
                if lex_le(ks[i as int], ks[old_order[a] as int]) {
                    lemma_lex_refl(ks[i as int]);
                }
            }
            if pos < i {
                assert(lex_lt(ks[i as int], ks[old_order[pos as int] as int]));
                assert forall|b: int| pos <= b < i implies lex_lt(
                    ks[i as int],
                    ks[#[trigger] old_order[b] as int],
                ) by {
                    if b > pos {
                        lemma_lex_trans(
                            ks[i as int],
                            ks[old_order[pos as int] as int],
                            ks[old_order[b] as int],
                        );
                        if ks[i as int] == ks[old_order[b] as int] {
                            lemma_lex_antisym(ks[i as int], ks[old_order[pos as int] as int]);
                        }
                    }
                }
            }
        }
        order.insert(pos, i);
        proof {
            let o = order@;
            assert(o =~= old_order.insert(pos as int, i));
            assert forall|k: int| 0 <= k < i + 1 implies #[trigger] o[k] < i + 1 by {
                if k < pos {
                    assert(o[k] == old_order[k]);
                } else if k > pos {
                    assert(o[k] == old_order[k - 1]);
                }
            }
            assert forall|a: int, b: int| 0 <= a < b < i + 1 implies #[trigger] o[a] != #[trigger] o[b] by {
                if a < pos {
                    assert(o[a] == old_order[a]);
                } else if a > pos {
                    assert(o[a] == old_order[a - 1]);
                }
                if b < pos {
                    assert(o[b] == old_order[b]);
                } else if b > pos {
                    assert(o[b] == old_order[b - 1]);
                }
            }
            assert forall|a: int, b: int| 0 <= a < b < i + 1 implies lex_le(
                ks[#[trigger] o[a] as int],
                ks[#[trigger] o[b] as int],
            ) && (ks[o[a] as int] == ks[o[b] as int] ==> o[a] < o[b]) by {
                if a < pos {
                    assert(o[a] == old_order[a]);
                } else if a > pos {
                    assert(o[a] == old_order[a - 1]);
                }
                if b < pos {
                    assert(o[b] == old_order[b]);
                } else if b > pos {
                    assert(o[b] == old_order[b - 1]);
                }
                if a == pos {
                    if ks[o[a] as int] == ks[o[b] as int] {
                        assert(lex_lt(ks[i as int], ks[old_order[b - 1] as int]));
                    }
                } else if b == pos {
                }
            }
        }
        i = i + 1;
    }
    order
}

/// The decimal digits of `n >= 0`.
pub open spec fn decimal_digits(n: nat) -> Seq<char>
    decreases n,
{
    if n < 10 {
        seq![(n + '0' as u32) as char]
    } else {
        decimal_digits(n / 10).push(((n % 10) + '0' as u32) as char)
    }
}

/// `n` written in decimal, with a leading `-` when negative.
pub open spec fn decimal(n: int) -> Seq<char> {
    if n < 0 {
        seq!['-'] + decimal_digits((-n) as nat)
    } else {
        decimal_digits(n as nat)
    }
}

/// The number written by the decimal digit characters `s`, most significant
/// digit first.
pub open spec fn digits_value(s: Seq<char>) -> int
    decreases s.len(),
{
    if s.len() == 0 {
        0
    } else {
        10 * digits_value(s.drop_last()) + (s.last() as int - 48)
    }
}

/// `decimal_digits(n)` is the usual decimal writing of `n`: digit characters
/// only, most significant first, reading back as `n`, with no leading zero
/// (`0` itself is the one digit `0`).
pub proof fn lemma_decimal_digits_read_back(n: nat)
    ensures
        decimal_digits(n).len() > 0,
        forall|i: int| 0 <= i < decimal_digits(n).len() ==> '0' <= #[trigger] decimal_digits(n)[i]
            && decimal_digits(n)[i] <= '9',
        digits_value(decimal_digits(n)) == n,
        decimal_digits(n)[0] == '0' ==> n == 0,
    decreases n,
{
    let d = decimal_digits(n);
    if n < 10 {
        assert(d.drop_last() =~= Seq::<char>::empty());
        assert(d.last() == d[0]);
        assert(d[0] as int == n + 48);
        assert(digits_value(d.drop_last()) == 0);
    } else {
        lemma_decimal_digits_read_back(n / 10);
        let p = decimal_digits(n / 10);
        assert(d.drop_last() =~= p);
        assert forall|i: int| 0 <= i < d.len() implies '0' <= #[trigger] d[i] && d[i] <= '9' by {
            if i < p.len() {
                assert(d[i] == p[i]);
            }
        }
        assert(d[0] == p[0]);
        assert(d.last() as int == n % 10 + 48);
        assert(n == 10 * (n / 10) + n % 10);
    }
}

/// `decimal(n)` is `n` written in decimal: a `-` exactly when `n` is
/// negative, then the digits of its magnitude.
pub proof fn lemma_decimal_reads_back(n: int)
    ensures
        (decimal(n)[0] == '-') == (n < 0),
        n < 0 ==> digits_value(decimal(n).drop_first()) == -n,
        n >= 0 ==> digits_value(decimal(n)) == n,
        forall|i: int| (if n < 0 { 1int } else { 0int }) <= i < decimal(n).len() ==> '0'
            <= #[trigger] decimal(n)[i] && decimal(n)[i] <= '9',
{
    if n < 0 {
        lemma_decimal_digits_read_back((-n) as nat);
        let d = decimal_digits((-n) as nat);
        assert(decimal(n).drop_first() =~= d);
        assert forall|i: int| 1 <= i < decimal(n).len() implies '0' <= #[trigger] decimal(n)[i]
            && decimal(n)[i] <= '9' by {
            assert(decimal(n)[i] == d[i - 1]);
        }
    } else {
        lemma_decimal_digits_read_back(n as nat);
    }
}

fn push_digits(out: &mut Vec<char>, n: u64)
    ensures
        final(out)@ == old(out)@ + decimal_digits(n as nat),
    decreases n,
{
    if n < 10 {
        out.push(((n as u8) + 48) as char);
    } else {
        push_digits(out, n / 10);
        out.push((((n % 10) as u8) + 48) as char);
    }
}

/// Appends `n` in decimal to `out`.
pub fn push_decimal(out: &mut Vec<char>, n: i32)
    ensures
        final(out)@ == old(out)@ + decimal(n as int),
{
    if n < 0 {
        out.push('-');
        let m: i64 = -(n as i64);
        push_digits(out, m as u64);
    } else {
        push_digits(out, n as u64);
    }
}

/// `order` lists the indices of `keys` sorted by key, ties in index order
/// (what a stable sort by key gives).
pub open spec fn is_int_order(keys: Seq<int>, order: Seq<usize>) -> bool {
    &&& order.len() == keys.len()
    &&& forall|k: int| 0 <= k < order.len() ==> #[trigger] order[k] < keys.len()
    &&& forall|a: int, b: int| 0 <= a < b < order.len() ==> #[trigger] order[a] != #[trigger] order[b]
    &&& forall|a: int, b: int|
        0 <= a < b < order.len() ==> keys[#[trigger] order[a] as int] <= keys[#[trigger] order[b] as int]
    &&& forall|a: int, b: int|
        0 <= a < b < order.len() && keys[#[trigger] order[a] as int] == keys[#[trigger] order[b] as int]
            ==> order[a] < order[b]
}

/// The indices of `keys`, stably sorted by key.
pub fn int_order(keys: &Vec<i32>) -> (order: Vec<usize>)
    ensures
        is_int_order(keys@.map_values(|k: i32| k as int), order@),
{
    let ghost ks = keys@.map_values(|k: i32| k as int);
    let mut order: Vec<usize> = Vec::new();
    let n = keys.len();
    let mut i: usize = 0;
    while i < n
        invariant
            i <= n == keys.len(),
            ks == keys@.map_values(|k: i32| k as int),
            order.len() == i,
            forall|k: int| 0 <= k < i ==> #[trigger] order@[k] < i,
            forall|a: int, b: int| 0 <= a < b < i ==> #[trigger] order@[a] != #[trigger] order@[b],
            forall|a: int, b: int|
                0 <= a < b < i ==> ks[#[trigger] order@[a] as int] <= ks[#[trigger] order@[b] as int],
            forall|a: int, b: int|
                0 <= a < b < i && ks[#[trigger] order@[a] as int] == ks[#[trigger] order@[b] as int]
                    ==> order@[a] < order@[b],
        decreases n - i,
    {
        let kx = keys[i];
        let mut pos: usize = 0;
        while pos < i && !(kx < keys[order[pos]])
            invariant
                pos <= i == order.len(),
                i < n == keys.len(),
                ks == keys@.map_values(|k: i32| k as int),
                kx == ks[i as int],
                forall|k: int| 0 <= k < i ==> #[trigger] order@[k] < i,
                forall|a: int| 0 <= a < pos ==> ks[#[trigger] order@[a] as int] <= kx,
            decreases i - pos,
        {
            assert(ks[order@[pos as int] as int] == keys@[order@[pos as int] as int] as int);
            pos = pos + 1;
        }
        let ghost old_order = order@;
        proof {
            if pos < i {
                assert forall|b: int| pos <= b < i implies kx < ks[#[trigger] old_order[b] as int] by {
                    if b > pos {
                        assert(ks[old_order[pos as int] as int] <= ks[old_order[b] as int]);
                    }
                }
            }
        }
        order.insert(pos, i);
        proof {
            let o = order@;
            assert(o =~= old_order.insert(pos as int, i));
            assert forall|k: int| 0 <= k < i + 1 implies #[trigger] o[k] < i + 1 by {
                if k < pos {
                    assert(o[k] == old_order[k]);
                } else if k > pos {
                    assert(o[k] == old_order[k - 1]);
                }
            }
            assert forall|a: int, b: int| 0 <= a < b < i + 1 implies #[trigger] o[a] != #[trigger] o[b] by {
                if a < pos {
                    assert(o[a] == old_order[a]);
                } else if a > pos {
                    assert(o[a] == old_order[a - 1]);
                }
                if b < pos {
                    assert(o[b] == old_order[b]);
                } else if b > pos {
                    assert(o[b] == old_order[b - 1]);
                }
            }
            assert forall|a: int, b: int| 0 <= a < b < i + 1 implies ks[#[trigger] o[a] as int]
                <= ks[#[trigger] o[b] as int] && (ks[o[a] as int] == ks[o[b] as int] ==> o[a] < o[b]) by {
                if a < pos {
                    assert(o[a] == old_order[a]);
                } else if a > pos {
                    assert(o[a] == old_order[a - 1]);
                }
                if b < pos {
                    assert(o[b] == old_order[b]);
                } else if b > pos {
                    assert(o[b] == old_order[b - 1]);
                }
            }
        }
        i = i + 1;
    }
    order
}

} // verus!
