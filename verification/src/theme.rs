//! Colors of the theme and of recipe accents, as written in the config
//! files: `#RRGGBB` or `#RRGGBBAA`.
use vstd::prelude::*;
use crate::text::{ascii_lower, same_text, to_ascii_lower, chars_of, lead_ws, lemma_lead_ws, skip_ws_backward, skip_ws_forward, string_from_chars, trim};

verus! {

/// An RGBA color, one byte per channel.
#[derive(Debug, Clone, Copy, PartialEq, Eq, Structural)]
pub struct Color {
    pub red: u8,
    pub green: u8,
    pub blue: u8,
    pub alpha: u8,
}

/// A field of the theme, as the theme editor names it.
#[derive(Debug, Clone, Copy, PartialEq, Eq, Structural)]
pub enum ThemeField {
    Background,
    PanelBackground,
    Border,
    Accent,
    Text,
    MutedText,
    Error,
    Warning,
    Mode,
    CornerRadius,
    FontSize,
    FontFamily,
}

/// The editor's name of each field.
pub open spec fn field_name(f: ThemeField) -> Seq<char> {
    match f {
        ThemeField::Background => "background"@,
        ThemeField::PanelBackground => "panel-background"@,
        ThemeField::Border => "border"@,
        ThemeField::Accent => "accent"@,
        ThemeField::Text => "text"@,
        ThemeField::MutedText => "muted-text"@,
        ThemeField::Error => "error"@,
        ThemeField::Warning => "warning"@,
        ThemeField::Mode => "mode"@,
        ThemeField::CornerRadius => "corner-radius"@,
        ThemeField::FontSize => "font-size"@,
        ThemeField::FontFamily => "font-family"@,
    }
}

/// The field holds a color.
pub open spec fn is_color_field(f: ThemeField) -> bool {
    match f {
        ThemeField::Mode | ThemeField::CornerRadius | ThemeField::FontSize | ThemeField::FontFamily => false,
        _ => true,
    }
}

/// The theme field called `name` by the editor, if any.
pub fn theme_field(name: &str) -> (r: Option<ThemeField>)
    ensures
        r matches Some(f) ==> field_name(f) == name@,
        r is None ==> forall|f: ThemeField| field_name(f) != name@,
{
    if same_text(name, "background") {
        Some(ThemeField::Background)
    } else if same_text(name, "panel-background") {
        Some(ThemeField::PanelBackground)
    } else if same_text(name, "border") {
        Some(ThemeField::Border)
    } else if same_text(name, "accent") {
        Some(ThemeField::Accent)
    } else if same_text(name, "text") {
        Some(ThemeField::Text)
    } else if same_text(name, "muted-text") {
        Some(ThemeField::MutedText)
    } else if same_text(name, "error") {
        Some(ThemeField::Error)
    } else if same_text(name, "warning") {
        Some(ThemeField::Warning)
    } else if same_text(name, "mode") {
        Some(ThemeField::Mode)
    } else if same_text(name, "corner-radius") {
        Some(ThemeField::CornerRadius)
    } else if same_text(name, "font-size") {
        Some(ThemeField::FontSize)
    } else if same_text(name, "font-family") {
        Some(ThemeField::FontFamily)
    } else {
        None
    }
}

/// The color field called `name` by the editor, if any.
pub fn theme_color_field(name: &str) -> (r: Option<ThemeField>)
    ensures
        r matches Some(f) ==> field_name(f) == name@ && is_color_field(f),
        r is None ==> forall|f: ThemeField| is_color_field(f) ==> field_name(f) != name@,
{
    if same_text(name, "background") {
        Some(ThemeField::Background)
    } else if same_text(name, "panel-background") {
        Some(ThemeField::PanelBackground)
    } else if same_text(name, "border") {
        Some(ThemeField::Border)
    } else if same_text(name, "accent") {
        Some(ThemeField::Accent)
    } else if same_text(name, "text") {
        Some(ThemeField::Text)
    } else if same_text(name, "muted-text") {
        Some(ThemeField::MutedText)
    } else if same_text(name, "error") {
        Some(ThemeField::Error)
    } else if same_text(name, "warning") {
        Some(ThemeField::Warning)
    } else {
        None
    }
}

/// The mode text selects the dark style (`dark` in any case).
pub open spec fn spec_is_dark_mode(mode: Seq<char>) -> bool {
    mode.len() == 4 && ascii_lower(mode[0]) == 'd' && ascii_lower(mode[1]) == 'a' && ascii_lower(mode[2]) == 'r'
        && ascii_lower(mode[3]) == 'k'
}

/// Whether `mode` selects the dark widget style.
pub fn is_dark_mode(mode: &str) -> (r: bool)
    ensures
        r == spec_is_dark_mode(mode@),
{
    let c = chars_of(mode);
    c.len() == 4 && to_ascii_lower(c[0]) == 'd' && to_ascii_lower(c[1]) == 'a' && to_ascii_lower(c[2]) == 'r'
        && to_ascii_lower(c[3]) == 'k'
}

/// Where the user-level config file lives.
#[derive(Debug, Clone, Copy, PartialEq, Eq, Structural)]
pub enum ConfigRoot {
    /// `$XDG_CONFIG_HOME/justgui/config.toml`
    XdgConfigHome,
    /// `%APPDATA%/justgui/config.toml`
    AppData,
    /// `$HOME/.config/justgui/config.toml`
    Home,
}

/// The variable is set to something other than whitespace.
pub open spec fn set_and_not_blank(v: Option<&str>) -> bool {
    match v {
        Some(x) => lead_ws(x@) < x@.len(),
        None => false,
    }
}

/// Picks the user-level config location from the values of
/// `XDG_CONFIG_HOME`, `APPDATA` and `HOME` (`None` where unset): the first
/// when it is not blank, else the second, else the third; `None` when none
/// applies.
pub fn user_config_root(xdg_config_home: Option<&str>, appdata: Option<&str>, home: Option<&str>) -> (r:
    Option<ConfigRoot>)
    ensures
        r == (if set_and_not_blank(xdg_config_home) {
            Some(ConfigRoot::XdgConfigHome)
        } else if appdata is Some {
            Some(ConfigRoot::AppData)
        } else if home is Some {
            Some(ConfigRoot::Home)
        } else {
            None
        }),
{
    if let Some(x) = xdg_config_home {
        let c = chars_of(x);
        let k = skip_ws_forward(&c, 0, c.len());
        assert(c@.subrange(0, c.len() as int) =~= c@);
        if k < c.len() {
            return Some(ConfigRoot::XdgConfigHome);
        }
    }
    if appdata.is_some() {
        Some(ConfigRoot::AppData)
    } else if home.is_some() {
        Some(ConfigRoot::Home)
    } else {
        None
    }
}

/// The value of a hexadecimal digit.
pub open spec fn hex_digit(c: char) -> Option<u8> {
    if '0' <= c && c <= '9' {
        Some((c as u32 - '0' as u32) as u8)
    } else if 'a' <= c && c <= 'f' {
        Some((c as u32 - 'a' as u32 + 10) as u8)
    } else if 'A' <= c && c <= 'F' {
        Some((c as u32 - 'A' as u32 + 10) as u8)
    } else {
        None
    }
}

/// The value of `c` as a hexadecimal digit (0 for any other character).
pub open spec fn digit_value(c: char) -> u8 {
    match hex_digit(c) {
        Some(v) => v,
        None => 0,
    }
}

/// Every character of `u` is a hexadecimal digit.
pub open spec fn all_hex(u: Seq<char>) -> bool {
    forall|i: int| 0 <= i < u.len() ==> (#[trigger] hex_digit(u[i])) is Some
}

/// The byte written by the two hexadecimal digits `a b`.
pub open spec fn hex_byte(a: char, b: char) -> u8 {
    (16 * digit_value(a) + digit_value(b)) as u8
}

/// Number of leading `#` characters of `s`.
pub open spec fn lead_hashes(s: Seq<char>) -> nat
    decreases s.len(),
{
    if s.len() > 0 && s[0] == '#' {
        1 + lead_hashes(s.drop_first())
    } else {
        0
    }
}

/// The unmissable magenta shown for a malformed color.
pub open spec fn fallback_color() -> Color {
    Color { red: 255, green: 0, blue: 255, alpha: 255 }
}

/// How a color text is read: surrounding whitespace and leading `#`s are
/// ignored; exactly six hexadecimal digits give red, green and blue of an
/// opaque color, exactly eight give the alpha too; anything else is magenta.
pub open spec fn spec_parse_color(s: Seq<char>) -> Color {
    let t = trim(s);
    let u = t.skip(lead_hashes(t) as int);
    if (u.len() == 6 || u.len() == 8) && all_hex(u) {
        Color {
            red: hex_byte(u[0], u[1]),
            green: hex_byte(u[2], u[3]),
            blue: hex_byte(u[4], u[5]),
            alpha: if u.len() == 8 {
                hex_byte(u[6], u[7])
            } else {
                255
            },
        }
    } else {
        fallback_color()
    }
}

/// The lower-case hexadecimal digit for `v < 16`.
pub open spec fn hex_char(v: u8) -> char {
    if v < 10 {
        ((v + '0' as u32) as u32) as char
    } else {
        ((v - 10 + 'a' as u32) as u32) as char
    }
}

/// The two lower-case digits of `b`.
pub open spec fn hex_pair(b: u8) -> Seq<char> {
    seq![hex_char(b / 16), hex_char(b % 16)]
}

/// `#rrggbb` for an opaque `c`, `#rrggbbaa` for any other.
pub open spec fn spec_color_to_hex(c: Color) -> Seq<char> {
    let rgb = seq!['#'] + hex_pair(c.red) + hex_pair(c.green) + hex_pair(c.blue);
    if c.alpha == 255 {
        rgb
    } else {
        rgb + hex_pair(c.alpha)
    }
}

fn hex_digit_exec(c: char) -> (r: Option<u8>)
    ensures
        r == hex_digit(c),
        r matches Some(v) ==> v < 16,
{
    if '0' <= c && c <= '9' {
        Some((c as u32 - '0' as u32) as u8)
    } else if 'a' <= c && c <= 'f' {
        Some((c as u32 - 'a' as u32 + 10) as u8)
    } else if 'A' <= c && c <= 'F' {
        Some((c as u32 - 'A' as u32 + 10) as u8)
    } else {
        None
    }
}

fn hex_byte_exec(a: char, b: char) -> (r: u8)
    requires
        hex_digit(a) is Some,
        hex_digit(b) is Some,
    ensures
        r == hex_byte(a, b),
{
    let x = match hex_digit_exec(a) {
        Some(v) => v,
        None => 0,
    };
    let y = match hex_digit_exec(b) {
        Some(v) => v,
        None => 0,
    };
    16 * x + y
}

/// Reads `#RRGGBB` or `#RRGGBBAA` (the `#` is optional); a malformed value
/// gives magenta rather than an error, so a typo in a hand-edited config
/// stays visible without stopping the application.
#[verifier::rlimit(40)]
pub fn parse_color(s: &str) -> (r: Color)
    ensures
        r == spec_parse_color(s@),
{
    let c = chars_of(s);
    let n = c.len();
    let a = skip_ws_forward(&c, 0, n);
    let b = skip_ws_backward(&c, a, n);
    proof {
        lemma_lead_ws(c@);
        assert(c@.subrange(0, n as int) =~= c@);
        assert(c@.skip(lead_ws(c@) as int) =~= c@.subrange(a as int, n as int));
    }
    let ghost t = c@.subrange(a as int, b as int);
    assert(t == trim(s@));
    let mut h = a;
    while h < b && c[h] == '#'
        invariant
            a <= h <= b <= n == c.len(),
            lead_hashes(t) == (h - a) + lead_hashes(c@.subrange(h as int, b as int)),
        decreases b - h,
    {
        assert(c@.subrange(h as int, b as int).drop_first() =~= c@.subrange(h + 1, b as int));
        h = h + 1;
    }
    let ghost u = c@.subrange(h as int, b as int);
    assert(t.skip(lead_hashes(t) as int) =~= u);
    let len = b - h;
    if len != 6 && len != 8 {
        return Color { red: 255, green: 0, blue: 255, alpha: 255 };
    }
    let mut k = h;
    while k < b
        invariant
            h <= k <= b <= c.len(),
            u == c@.subrange(h as int, b as int),
            t == trim(s@),
            t.skip(lead_hashes(t) as int) == u,
            forall|m: int| 0 <= m < k - h ==> (#[trigger] hex_digit(u[m])) is Some,
        decreases b - k,
    {
        assert(u[k - h] == c@[k as int]);
        if hex_digit_exec(c[k]).is_none() {
            assert(!all_hex(u)) by {
                assert(hex_digit(u[k - h]) is None);
            }
            return Color { red: 255, green: 0, blue: 255, alpha: 255 };
        }
        k = k + 1;
    }
    assert(all_hex(u));
    assert(u[0] == c@[h as int] && u[1] == c@[h + 1] && u[2] == c@[h + 2] && u[3] == c@[h + 3]
        && u[4] == c@[h + 4] && u[5] == c@[h + 5]);
    assert(hex_digit(u[0]) is Some && hex_digit(u[1]) is Some && hex_digit(u[2]) is Some
        && hex_digit(u[3]) is Some && hex_digit(u[4]) is Some && hex_digit(u[5]) is Some);
    let alpha = if len == 8 {
        assert(u[6] == c@[h + 6] && u[7] == c@[h + 7]);
        assert(hex_digit(u[6]) is Some && hex_digit(u[7]) is Some);
        hex_byte_exec(c[h + 6], c[h + 7])
    } else {
        255
    };
    Color {
        red: hex_byte_exec(c[h], c[h + 1]),
        green: hex_byte_exec(c[h + 2], c[h + 3]),
        blue: hex_byte_exec(c[h + 4], c[h + 5]),
        alpha,
    }
}

fn hex_char_exec(v: u8) -> (r: char)
    requires
        v < 16,
    ensures
        r == hex_char(v),
{
    if v < 10 {
        (v + 48) as char
    } else {
        (v - 10 + 97) as char
    }
}

/// `#rrggbb` (lower-case hex) for an opaque `color`, `#rrggbbaa` for any
/// other, so that `parse_color` reads back the same color.
pub fn color_to_hex(color: &Color) -> (r: String)
    ensures
        r@ == spec_color_to_hex(*color),
{
    let mut v: Vec<char> = Vec::new();
    v.push('#');
    v.push(hex_char_exec(color.red / 16));
    v.push(hex_char_exec(color.red % 16));
    v.push(hex_char_exec(color.green / 16));
    v.push(hex_char_exec(color.green % 16));
    v.push(hex_char_exec(color.blue / 16));
    v.push(hex_char_exec(color.blue % 16));
    if color.alpha != 255 {
        v.push(hex_char_exec(color.alpha / 16));
        v.push(hex_char_exec(color.alpha % 16));
    }
    assert(v@ =~= spec_color_to_hex(*color));
    string_from_chars(&v)
}

/// A lower-case hexadecimal digit, as `color_to_hex` writes them.
pub open spec fn is_lower_hex(c: char) -> bool {
    ('0' <= c && c <= '9') || ('a' <= c && c <= 'f')
}

/// A hexadecimal digit character: `0`-`9`, `a`-`f` or `A`-`F`.
pub open spec fn is_hex_char(c: char) -> bool {
    ('0' <= c && c <= '9') || ('a' <= c && c <= 'f') || ('A' <= c && c <= 'F')
}

/// The number a hexadecimal digit character stands for: `0`-`9` are 0 to 9,
/// `a`-`f` and `A`-`F` are 10 to 15.
pub open spec fn hex_value(c: char) -> int {
    if c <= '9' {
        c as int - 48
    } else if c <= 'F' {
        c as int - 55
    } else {
        c as int - 87
    }
}

proof fn lemma_hex_char_facts(c: char)
    requires
        is_hex_char(c),
    ensures
        c != '#',
        !crate::text::is_ws(c),
        hex_digit(c) is Some,
        digit_value(c) as int == hex_value(c),
        0 <= hex_value(c) < 16,
{
}

proof fn lemma_hex_char(v: u8)
    requires
        v < 16,
    ensures
        hex_digit(hex_char(v)) == Some(v),
        is_lower_hex(hex_char(v)),
{
}

proof fn lemma_lower_hex_not_special(c: char)
    requires
        is_lower_hex(c),
    ensures
        c != '#',
        !crate::text::is_ws(c),
        hex_digit(c) is Some,
        hex_char(digit_value(c)) == c,
        digit_value(c) < 16,
        digit_value(c) == 15 <==> c == 'f',
{
}

proof fn lemma_hex_pair_reads_back(b: u8)
    ensures
        hex_byte(hex_pair(b)[0], hex_pair(b)[1]) == b,
        is_lower_hex(hex_pair(b)[0]),
        is_lower_hex(hex_pair(b)[1]),
{
    lemma_hex_char(b / 16);
    lemma_hex_char(b % 16);
}

proof fn lemma_digits_write_back(x: char, y: char)
    requires
        is_lower_hex(x),
        is_lower_hex(y),
    ensures
        hex_pair(hex_byte(x, y)) == seq![x, y],
        hex_byte(x, y) == 255 <==> (x == 'f' && y == 'f'),
{
    lemma_lower_hex_not_special(x);
    lemma_lower_hex_not_special(y);
    let dx = digit_value(x) as int;
    let dy = digit_value(y) as int;
    assert((16 * dx + dy) / 16 == dx && (16 * dx + dy) % 16 == dy) by (nonlinear_arith)
        requires
            0 <= dx < 16,
            0 <= dy < 16,
    ;
    assert(hex_pair(hex_byte(x, y)) =~= seq![x, y]);
}

/// A text of `#` and lower-case hexadecimal digits, all of whose whitespace
/// and leading `#`s are already stripped after its first character, reads
/// as the color of its digits.
proof fn lemma_read_hash_digits(s: Seq<char>)
    requires
        s.len() == 7 || s.len() == 9,
        s[0] == '#',
        forall|i: int| 1 <= i < s.len() ==> is_hex_char(#[trigger] s[i]),
    ensures
        spec_parse_color(s) == (Color {
            red: hex_byte(s[1], s[2]),
            green: hex_byte(s[3], s[4]),
            blue: hex_byte(s[5], s[6]),
            alpha: if s.len() == 9 {
                hex_byte(s[7], s[8])
            } else {
                255
            },
        }),
{
    assert(!crate::text::is_ws(s[0]));
    lemma_hex_char_facts(s.last());
    assert(lead_ws(s) == 0);
    assert(s.skip(0) =~= s);
    assert(crate::text::trim_end(s) == s);
    assert(trim(s) == s);
    let u = s.drop_first();
    lemma_hex_char_facts(s[1]);
    assert(u[0] == s[1]);
    assert(lead_hashes(u) == 0);
    assert(lead_hashes(s) == 1);
    assert(s.skip(1) =~= u);
    assert forall|i: int| 0 <= i < u.len() implies (#[trigger] hex_digit(u[i])) is Some by {
        assert(u[i] == s[i + 1]);
        lemma_hex_char_facts(s[i + 1]);
    }
}

/// Reading back what `color_to_hex` writes gives the same color.
#[verifier::spinoff_prover]
pub proof fn lemma_color_round_trip(c: Color)
    ensures
        spec_parse_color(spec_color_to_hex(c)) == c,
{
    let h = spec_color_to_hex(c);
    lemma_hex_pair_reads_back(c.red);
    lemma_hex_pair_reads_back(c.green);
    lemma_hex_pair_reads_back(c.blue);
    lemma_hex_pair_reads_back(c.alpha);
    assert(h[1] == hex_pair(c.red)[0] && h[2] == hex_pair(c.red)[1]);
    assert(h[3] == hex_pair(c.green)[0] && h[4] == hex_pair(c.green)[1]);
    assert(h[5] == hex_pair(c.blue)[0] && h[6] == hex_pair(c.blue)[1]);
    if c.alpha != 255 {
        assert(h[7] == hex_pair(c.alpha)[0] && h[8] == hex_pair(c.alpha)[1]);
    }
    assert forall|i: int| 1 <= i < h.len() implies is_hex_char(#[trigger] h[i]) by {
        assert(is_lower_hex(h[i]));
    }
    lemma_read_hash_digits(h);
}

/// `#` followed by six or eight lower-case hexadecimal digits is written
/// back unchanged by `color_to_hex` after `parse_color` reads it, except
/// eight digits that end in `ff`: that color is opaque and is written with
/// six.
#[verifier::spinoff_prover]
#[verifier::rlimit(40)]
pub proof fn lemma_hex_text_round_trip(digits: Seq<char>)
    requires
        digits.len() == 6 || digits.len() == 8,
        forall|i: int| 0 <= i < digits.len() ==> is_lower_hex(#[trigger] digits[i]),
        digits.len() == 8 ==> !(digits[6] == 'f' && digits[7] == 'f'),
    ensures
        spec_color_to_hex(spec_parse_color(seq!['#'] + digits)) == seq!['#'] + digits,
{
    let s = seq!['#'] + digits;
    assert forall|i: int| 1 <= i < s.len() implies is_lower_hex(#[trigger] s[i]) && is_hex_char(s[i]) by {
        assert(s[i] == digits[i - 1]);
    }
    lemma_read_hash_digits(s);
    lemma_digits_write_back(digits[0], digits[1]);
    lemma_digits_write_back(digits[2], digits[3]);
    lemma_digits_write_back(digits[4], digits[5]);
    if digits.len() == 8 {
        lemma_digits_write_back(digits[6], digits[7]);
    }
    assert(spec_color_to_hex(spec_parse_color(s)) =~= s);
}

/// `#` followed by six or eight hexadecimal digits (either case) reads as
/// the color they write: each channel is sixteen times the value of its
/// first digit plus the value of its second; six digits give an opaque
/// color.
#[verifier::spinoff_prover]
pub proof fn lemma_hex_digits_are_read(digits: Seq<char>)
    requires
        digits.len() == 6 || digits.len() == 8,
        forall|i: int| 0 <= i < digits.len() ==> is_hex_char(#[trigger] digits[i]),
    ensures
        spec_parse_color(seq!['#'] + digits).red as int == 16 * hex_value(digits[0]) + hex_value(digits[1]),
        spec_parse_color(seq!['#'] + digits).green as int == 16 * hex_value(digits[2]) + hex_value(digits[3]),
        spec_parse_color(seq!['#'] + digits).blue as int == 16 * hex_value(digits[4]) + hex_value(digits[5]),
        spec_parse_color(seq!['#'] + digits).alpha as int == (if digits.len() == 8 {
            16 * hex_value(digits[6]) + hex_value(digits[7])
        } else {
            255
        }),
{
    let s = seq!['#'] + digits;
    assert forall|i: int| 1 <= i < s.len() implies is_hex_char(#[trigger] s[i]) by {
        assert(s[i] == digits[i - 1]);
    }
    lemma_read_hash_digits(s);
    assert forall|i: int| 0 <= i < digits.len() implies #[trigger] digit_value(digits[i]) as int == hex_value(digits[i])
        && hex_value(digits[i]) < 16 by {
        lemma_hex_char_facts(digits[i]);
    }
    assert(s[1] == digits[0] && s[2] == digits[1] && s[3] == digits[2] && s[4] == digits[3]
        && s[5] == digits[4] && s[6] == digits[5]);
    assert(digit_value(digits[0]) as int == hex_value(digits[0]));
    assert(digit_value(digits[1]) as int == hex_value(digits[1]));
    assert(digit_value(digits[2]) as int == hex_value(digits[2]));
    assert(digit_value(digits[3]) as int == hex_value(digits[3]));
    assert(digit_value(digits[4]) as int == hex_value(digits[4]));
    assert(digit_value(digits[5]) as int == hex_value(digits[5]));
    if digits.len() == 8 {
        assert(s[7] == digits[6] && s[8] == digits[7]);
        assert(digit_value(digits[6]) as int == hex_value(digits[6]));
        assert(digit_value(digits[7]) as int == hex_value(digits[7]));
    }
}

/// `color_to_hex` writes `#` and lower-case hexadecimal digits, two per
/// channel, whose values give back each channel (sixteen times the first
/// plus the second); the alpha pair is written exactly when the color is
/// not opaque.
#[verifier::spinoff_prover]
pub proof fn lemma_hex_written_digits(c: Color)
    ensures
        spec_color_to_hex(c)[0] == '#',
        spec_color_to_hex(c).len() == (if c.alpha == 255 { 7int } else { 9int }),
        forall|i: int|
            1 <= i < spec_color_to_hex(c).len() ==> ('0' <= #[trigger] spec_color_to_hex(c)[i]
                && spec_color_to_hex(c)[i] <= '9') || ('a' <= spec_color_to_hex(c)[i]
                && spec_color_to_hex(c)[i] <= 'f'),
        16 * hex_value(spec_color_to_hex(c)[1]) + hex_value(spec_color_to_hex(c)[2]) == c.red,
        16 * hex_value(spec_color_to_hex(c)[3]) + hex_value(spec_color_to_hex(c)[4]) == c.green,
        16 * hex_value(spec_color_to_hex(c)[5]) + hex_value(spec_color_to_hex(c)[6]) == c.blue,
        c.alpha != 255 ==> 16 * hex_value(spec_color_to_hex(c)[7]) + hex_value(spec_color_to_hex(c)[8])
            == c.alpha,
{
    let h = spec_color_to_hex(c);
    lemma_hex_pair_reads_back(c.red);
    lemma_hex_pair_reads_back(c.green);
    lemma_hex_pair_reads_back(c.blue);
    lemma_hex_pair_reads_back(c.alpha);
    assert(h[1] == hex_pair(c.red)[0] && h[2] == hex_pair(c.red)[1]);
    assert(h[3] == hex_pair(c.green)[0] && h[4] == hex_pair(c.green)[1]);
    assert(h[5] == hex_pair(c.blue)[0] && h[6] == hex_pair(c.blue)[1]);
    if c.alpha != 255 {
        assert(h[7] == hex_pair(c.alpha)[0] && h[8] == hex_pair(c.alpha)[1]);
    }
    assert forall|i: int| 1 <= i < h.len() implies #[trigger] digit_value(h[i]) as int == hex_value(h[i]) by {
        lemma_hex_char_facts(h[i]);
    }
    assert(digit_value(h[1]) as int == hex_value(h[1]));
    assert(digit_value(h[2]) as int == hex_value(h[2]));
    assert(digit_value(h[3]) as int == hex_value(h[3]));
    assert(digit_value(h[4]) as int == hex_value(h[4]));
    assert(digit_value(h[5]) as int == hex_value(h[5]));
    assert(digit_value(h[6]) as int == hex_value(h[6]));
    if c.alpha != 255 {
        assert(digit_value(h[7]) as int == hex_value(h[7]));
        assert(digit_value(h[8]) as int == hex_value(h[8]));
    }
}

} // verus!
