//! The tool's configuration and its on-disk text form.
//!
//! The file holds one `key = value` line per setting: quoted strings
//! for the optional paths (backslash, quote, newline, tab and carriage
//! return escaped), bare `true`/`false` for the switches. Unknown keys and malformed lines
//! are tolerated; missing keys keep their defaults. Reading back what
//! was written restores the same configuration.

use vstd::prelude::*;
use vstd::string::*;
use crate::text::{
    trim_spec, trim_chars, split_char, split_char_spec, str_chars, chars_to_string, chars_eq,
    subrange_vec, lemma_trim_noop, lemma_split_first, is_space_char, find_idx,
    lemma_find_idx_at,
};

verus! {

pub struct Config {
    pub build_dir: Option<String>,
    pub editor: Option<String>,
    pub clean_build: bool,
    pub show_news: bool,
    pub diff_viewer: bool,
}

/// The mathematical shape of a configuration.
pub ghost struct ConfigV {
    pub build_dir: Option<Seq<char>>,
    pub editor: Option<Seq<char>>,
    pub clean_build: bool,
    pub show_news: bool,
    pub diff_viewer: bool,
}

impl View for Config {
    type V = ConfigV;

    open spec fn view(&self) -> ConfigV {
        ConfigV {
            build_dir: match self.build_dir {
                Some(s) => Some(s@),
                None => None,
            },
            editor: match self.editor {
                Some(s) => Some(s@),
                None => None,
            },
            clean_build: self.clean_build,
            show_news: self.show_news,
            diff_viewer: self.diff_viewer,
        }
    }
}

pub open spec fn default_config_view() -> ConfigV {
    ConfigV {
        build_dir: None,
        editor: None,
        clean_build: false,
        show_news: true,
        diff_viewer: true,
    }
}

impl Default for Config {
    /// No explicit paths, no clean builds, news and diffs shown.
    fn default() -> (c: Self)
        ensures
            c@ == default_config_view(),
    {
        Config {
            build_dir: None,
            editor: None,
            clean_build: false,
            show_news: true,
            diff_viewer: true,
        }
    }
}

pub open spec fn key_build_dir() -> Seq<char> {
    seq!['b', 'u', 'i', 'l', 'd', '_', 'd', 'i', 'r']
}

pub open spec fn key_editor() -> Seq<char> {
    seq!['e', 'd', 'i', 't', 'o', 'r']
}

pub open spec fn key_clean_build() -> Seq<char> {
    seq!['c', 'l', 'e', 'a', 'n', '_', 'b', 'u', 'i', 'l', 'd']
}

pub open spec fn key_show_news() -> Seq<char> {
    seq!['s', 'h', 'o', 'w', '_', 'n', 'e', 'w', 's']
}

pub open spec fn key_diff_viewer() -> Seq<char> {
    seq!['d', 'i', 'f', 'f', '_', 'v', 'i', 'e', 'w', 'e', 'r']
}

pub open spec fn true_chars() -> Seq<char> {
    seq!['t', 'r', 'u', 'e']
}

pub open spec fn false_chars() -> Seq<char> {
    seq!['f', 'a', 'l', 's', 'e']
}

pub open spec fn bool_chars(b: bool) -> Seq<char> {
    if b {
        true_chars()
    } else {
        false_chars()
    }
}

/// A quoted value: at least the two quotes, one at each end.
pub open spec fn is_quoted(v: Seq<char>) -> bool {
    v.len() >= 2 && v[0] == '"' && v.last() == '"'
}

pub open spec fn unquote(v: Seq<char>) -> Seq<char> {
    v.subrange(1, v.len() - 1)
}

/// One character, written for a quoted value: backslash, quote,
/// newline, tab and carriage return ride behind a backslash.
pub open spec fn enc_char(c: char) -> Seq<char> {
    if c == '\\' {
        seq!['\\', '\\']
    } else if c == '"' {
        seq!['\\', '"']
    } else if c == '\n' {
        seq!['\\', 'n']
    } else if c == '\t' {
        seq!['\\', 't']
    } else if c == '\r' {
        seq!['\\', 'r']
    } else {
        seq![c]
    }
}

/// A value as it is written between the quotes.
pub open spec fn escape_spec(s: Seq<char>) -> Seq<char>
    decreases s.len(),
{
    if s.len() == 0 {
        Seq::empty()
    } else {
        enc_char(s[0]) + escape_spec(s.drop_first())
    }
}

pub open spec fn dec_char(c: char) -> char {
    if c == 'n' {
        '\n'
    } else if c == 't' {
        '\t'
    } else if c == 'r' {
        '\r'
    } else {
        c
    }
}

/// A quoted value as it is read back: a backslash takes the next
/// character (`n`, `t` and `r` meaning newline, tab and carriage
/// return); a trailing lone backslash stays.
pub open spec fn unescape_spec(s: Seq<char>) -> Seq<char>
    decreases s.len(),
{
    if s.len() == 0 {
        Seq::empty()
    } else if s[0] == '\\' && s.len() >= 2 {
        seq![dec_char(s[1])] + unescape_spec(s.skip(2))
    } else {
        seq![s[0]] + unescape_spec(s.drop_first())
    }
}

/// Writing one more character escapes just it.
proof fn lemma_escape_snoc(s: Seq<char>, c: char)
    ensures
        escape_spec(s.push(c)) == escape_spec(s) + enc_char(c),
    decreases s.len(),
{
    if s.len() == 0 {
        assert(s.push(c) =~= seq![c]);
        assert(s.push(c)[0] == c);
        assert(s.push(c).drop_first() =~= Seq::<char>::empty());
        assert(escape_spec(Seq::<char>::empty()) =~= Seq::<char>::empty());
        assert(escape_spec(s.push(c)) == enc_char(c) + escape_spec(s.push(c).drop_first()));
        assert(escape_spec(s.push(c)) =~= escape_spec(s) + enc_char(c));
    } else {
        assert(s.push(c).drop_first() =~= s.drop_first().push(c));
        lemma_escape_snoc(s.drop_first(), c);
        assert(escape_spec(s.push(c)) =~= escape_spec(s) + enc_char(c));
    }
}

/// Reading a written value gives the value back, whatever it held.
proof fn lemma_unescape_escape(s: Seq<char>)
    ensures
        unescape_spec(escape_spec(s)) == s,
    decreases s.len(),
{
    if s.len() > 0 {
        lemma_unescape_escape(s.drop_first());
        let e = escape_spec(s);
        let rest = escape_spec(s.drop_first());
        if s[0] == '\\' || s[0] == '"' || s[0] == '\n' || s[0] == '\t' || s[0] == '\r' {
            assert(enc_char(s[0]).len() == 2);
            assert(e[0] == '\\');
            assert(dec_char(e[1]) == s[0]);
            assert(e.skip(2) =~= rest);
            assert(unescape_spec(e) =~= s);
        } else {
            assert(e[0] == s[0]);
            assert(e[0] != '\\');
            assert(e.drop_first() =~= rest);
            assert(unescape_spec(e) =~= s);
        }
    }
}

/// A written value holds no newline, so it stays on its line.
proof fn lemma_escape_no_newline(s: Seq<char>)
    ensures
        forall|j: int| 0 <= j < escape_spec(s).len() ==> escape_spec(s)[j] != '\n',
    decreases s.len(),
{
    if s.len() > 0 {
        lemma_escape_no_newline(s.drop_first());
        let e = escape_spec(s);
        let rest = escape_spec(s.drop_first());
        assert forall|j: int| 0 <= j < e.len() implies e[j] != '\n' by {
            if j >= enc_char(s[0]).len() {
                assert(e[j] == rest[j - enc_char(s[0]).len()]);
            }
        }
    }
}

/// The escaped form of `v`.
fn escape_chars(v: &Vec<char>) -> (r: Vec<char>)
    ensures
        r@ == escape_spec(v@),
{
    let mut out: Vec<char> = Vec::new();
    let mut i: usize = 0;
    assert(v@.subrange(0, 0) =~= Seq::<char>::empty());
    assert(out@ =~= escape_spec(v@.subrange(0, 0)));
    while i < v.len()
        invariant
            i <= v@.len(),
            out@ == escape_spec(v@.subrange(0, i as int)),
        decreases v@.len() - i,
    {
        let c = v[i];
        if c == '\\' {
            out.push('\\');
            out.push('\\');
        } else if c == '"' {
            out.push('\\');
            out.push('"');
        } else if c == '\n' {
            out.push('\\');
            out.push('n');
        } else if c == '\t' {
            out.push('\\');
            out.push('t');
        } else if c == '\r' {
            out.push('\\');
            out.push('r');
        } else {
            out.push(c);
        }
        i = i + 1;
        proof {
            let pre = v@.subrange(0, i - 1);
            let now = v@.subrange(0, i as int);
            assert(now =~= pre.push(v@[i - 1]));
            lemma_escape_snoc(pre, v@[i - 1]);
            assert(out@ =~= escape_spec(now));
        }
    }
    assert(v@.subrange(0, v@.len() as int) =~= v@);
    out
}

/// The value a written form stands for.
fn unescape_chars(v: &Vec<char>) -> (r: Vec<char>)
    ensures
        r@ == unescape_spec(v@),
{
    let mut out: Vec<char> = Vec::new();
    let mut i: usize = 0;
    assert(v@.skip(0) =~= v@);
    while i < v.len()
        invariant
            i <= v@.len(),
            unescape_spec(v@) == out@ + unescape_spec(v@.skip(i as int)),
        decreases v@.len() - i,
    {
        let ghost tail = v@.skip(i as int);
        let c = v[i];
        if c == '\\' && i + 1 < v.len() {
            proof {
                assert(tail[0] == '\\');
                assert(tail.len() >= 2);
                assert(tail[1] == v@[i + 1]);
                assert(tail.skip(2) =~= v@.skip(i + 2));
            }
            let d = v[i + 1];
            if d == 'n' {
                out.push('\n');
            } else if d == 't' {
                out.push('\t');
            } else if d == 'r' {
                out.push('\r');
            } else {
                out.push(d);
            }
            i = i + 2;
        } else {
            proof {
                assert(tail[0] == v@[i as int]);
                if tail[0] == '\\' {
                    assert(tail.len() < 2);
                }
                assert(tail.drop_first() =~= v@.skip(i as int + 1));
            }
            out.push(c);
            i = i + 1;
        }
        assert(unescape_spec(v@) =~= out@ + unescape_spec(v@.skip(i as int)));
    }
    proof {
        assert(v@.skip(v@.len() as int) =~= Seq::<char>::empty());
        assert(unescape_spec(v@) =~= out@);
    }
    out
}

/// One configuration line, applied to the settings read so far.
pub open spec fn apply_line(c: ConfigV, line: Seq<char>) -> ConfigV {
    let t = trim_spec(line);
    if t.len() == 0 {
        c
    } else if t[0] == '#' {
        c
    } else {
        let p = find_idx(t, '=');
        if p < 0 {
            c
        } else {
            let key = trim_spec(t.subrange(0, p));
            let val = trim_spec(t.subrange(p + 1, t.len() as int));
            if key == key_build_dir() {
                if is_quoted(val) {
                    ConfigV { build_dir: Some(unescape_spec(unquote(val))), ..c }
                } else {
                    c
                }
            } else if key == key_editor() {
                if is_quoted(val) {
                    ConfigV { editor: Some(unescape_spec(unquote(val))), ..c }
                } else {
                    c
                }
            } else if key == key_clean_build() {
                if val == true_chars() {
                    ConfigV { clean_build: true, ..c }
                } else if val == false_chars() {
                    ConfigV { clean_build: false, ..c }
                } else {
                    c
                }
            } else if key == key_show_news() {
                if val == true_chars() {
                    ConfigV { show_news: true, ..c }
                } else if val == false_chars() {
                    ConfigV { show_news: false, ..c }
                } else {
                    c
                }
            } else if key == key_diff_viewer() {
                if val == true_chars() {
                    ConfigV { diff_viewer: true, ..c }
                } else if val == false_chars() {
                    ConfigV { diff_viewer: false, ..c }
                } else {
                    c
                }
            } else {
                c
            }
        }
    }
}

pub open spec fn apply_lines(c: ConfigV, lines: Seq<Seq<char>>) -> ConfigV
    decreases lines.len(),
{
    if lines.len() == 0 {
        c
    } else {
        apply_lines(apply_line(c, lines[0]), lines.drop_first())
    }
}

/// What a configuration text means: every line applied in order, over
/// the defaults.
pub open spec fn parse_cfg_spec(s: Seq<char>) -> ConfigV {
    apply_lines(default_config_view(), split_char_spec(s, '\n'))
}

/// The text written for a configuration.
pub open spec fn serialize_spec(c: ConfigV) -> Seq<char> {
    let bd = match c.build_dir {
        Some(s) => key_build_dir() + seq![' ', '=', ' ', '"'] + escape_spec(s) + seq!['"', '\n'],
        None => Seq::<char>::empty(),
    };
    let ed = match c.editor {
        Some(s) => key_editor() + seq![' ', '=', ' ', '"'] + escape_spec(s) + seq!['"', '\n'],
        None => Seq::<char>::empty(),
    };
    bd + ed + (key_clean_build() + seq![' ', '=', ' '] + bool_chars(c.clean_build) + seq!['\n']) + (
    key_show_news() + seq![' ', '=', ' '] + bool_chars(c.show_news) + seq!['\n']) + (
    key_diff_viewer() + seq![' ', '=', ' '] + bool_chars(c.diff_viewer) + seq!['\n'])
}

/// Applies one line of the file to `c`.
fn apply_line_exec(c: Config, line: &Vec<char>) -> (r: Config)
    ensures
        r@ == apply_line(c@, line@),
{
    let t = trim_chars(line);
    if t.len() == 0 {
        return c;
    }
    if t[0] == '#' {
        return c;
    }
    let p = match crate::text::find_char(&t, '=') {
        Some(p) => p,
        None => {
            return c;
        },
    };
    let key_raw = subrange_vec(&t, 0, p);
    let val_raw = subrange_vec(&t, p + 1, t.len());
    let key = trim_chars(&key_raw);
    let val = trim_chars(&val_raw);
    let kb: Vec<char> = vec!['b', 'u', 'i', 'l', 'd', '_', 'd', 'i', 'r'];
    let ke: Vec<char> = vec!['e', 'd', 'i', 't', 'o', 'r'];
    let kc: Vec<char> = vec!['c', 'l', 'e', 'a', 'n', '_', 'b', 'u', 'i', 'l', 'd'];
    let ks: Vec<char> = vec!['s', 'h', 'o', 'w', '_', 'n', 'e', 'w', 's'];
    let kd: Vec<char> = vec!['d', 'i', 'f', 'f', '_', 'v', 'i', 'e', 'w', 'e', 'r'];
    let vt: Vec<char> = vec!['t', 'r', 'u', 'e'];
    let vf: Vec<char> = vec!['f', 'a', 'l', 's', 'e'];
    proof {
        assert(kb@ =~= key_build_dir());
        assert(ke@ =~= key_editor());
        assert(kc@ =~= key_clean_build());
        assert(ks@ =~= key_show_news());
        assert(kd@ =~= key_diff_viewer());
        assert(vt@ =~= true_chars());
        assert(vf@ =~= false_chars());
    }
    if chars_eq(&key, &kb) {
        if val.len() >= 2 && val[0] == '"' && val[val.len() - 1] == '"' {
            let content = unescape_chars(&subrange_vec(&val, 1, val.len() - 1));
            Config { build_dir: Some(chars_to_string(&content)), ..c }
        } else {
            c
        }
    } else if chars_eq(&key, &ke) {
        if val.len() >= 2 && val[0] == '"' && val[val.len() - 1] == '"' {
            let content = unescape_chars(&subrange_vec(&val, 1, val.len() - 1));
            Config { editor: Some(chars_to_string(&content)), ..c }
        } else {
            c
        }
    } else if chars_eq(&key, &kc) {
        if chars_eq(&val, &vt) {
            Config { clean_build: true, ..c }
        } else if chars_eq(&val, &vf) {
            Config { clean_build: false, ..c }
        } else {
            c
        }
    } else if chars_eq(&key, &ks) {
        if chars_eq(&val, &vt) {
            Config { show_news: true, ..c }
        } else if chars_eq(&val, &vf) {
            Config { show_news: false, ..c }
        } else {
            c
        }
    } else if chars_eq(&key, &kd) {
        if chars_eq(&val, &vt) {
            Config { diff_viewer: true, ..c }
        } else if chars_eq(&val, &vf) {
            Config { diff_viewer: false, ..c }
        } else {
            c
        }
    } else {
        c
    }
}

/// Reads a configuration text: every line applied in order, over the
/// defaults; unknown keys and malformed lines change nothing.
pub fn parse_config(s: &str) -> (r: Config)
    ensures
        r@ == parse_cfg_spec(s@),
{
    let chars = str_chars(s);
    let lines = split_char(&chars, '\n');
    let ghost lv = lines@.map_values(|e: Vec<char>| e@);
    let mut c = Config::default();
    let mut k: usize = 0;
    assert(lv.skip(0) =~= lv);
    while k < lines.len()
        invariant
            k <= lines@.len(),
            lv == lines@.map_values(|e: Vec<char>| e@),
            apply_lines(default_config_view(), lv) == apply_lines(c@, lv.skip(k as int)),
        decreases lines@.len() - k,
    {
        proof {
            assert(lv.skip(k as int)[0] == lv[k as int]);
            assert(lv.skip(k as int).drop_first() =~= lv.skip(k as int + 1));
        }
        c = apply_line_exec(c, &lines[k]);
        k = k + 1;
    }
    proof {
        assert(lv.skip(lv.len() as int) =~= Seq::<Seq<char>>::empty());
    }
    c
}

/// One unfolding step of `apply_lines`.
proof fn lemma_apply_cons(c0: ConfigV, lines: Seq<Seq<char>>)
    requires
        lines.len() >= 1,
    ensures
        apply_lines(c0, lines) == apply_lines(apply_line(c0, lines[0]), lines.drop_first()),
{
}

/// Splitting off one newline-free line from the front.
proof fn lemma_split_line(s: Seq<char>, line: Seq<char>, rest: Seq<char>)
    requires
        s == line + seq!['\n'] + rest,
        forall|j: int| 0 <= j < line.len() ==> line[j] != '\n',
    ensures
        split_char_spec(s, '\n') == seq![line] + split_char_spec(rest, '\n'),
{
    let e = line.len() as int;
    assert(s[e] == '\n');
    assert forall|j: int| 0 <= j < e implies s[j] != '\n' by {
        assert(s[j] == line[j]);
    }
    lemma_split_first(s, '\n', e);
    assert(s.subrange(0, e) =~= line);
    assert(s.subrange(e + 1, s.len() as int) =~= rest);
}

/// A `key = true|false` line sets exactly its switch.
proof fn lemma_apply_bool_line(c0: ConfigV, which: int, b: bool)
    requires
        0 <= which < 3,
    ensures
        which == 0 ==> apply_line(c0, key_clean_build() + seq![' ', '=', ' '] + bool_chars(b))
            == (ConfigV { clean_build: b, ..c0 }),
        which == 1 ==> apply_line(c0, key_show_news() + seq![' ', '=', ' '] + bool_chars(b))
            == (ConfigV { show_news: b, ..c0 }),
        which == 2 ==> apply_line(c0, key_diff_viewer() + seq![' ', '=', ' '] + bool_chars(b))
            == (ConfigV { diff_viewer: b, ..c0 }),
{
    let key = if which == 0 {
        key_clean_build()
    } else if which == 1 {
        key_show_news()
    } else {
        key_diff_viewer()
    };
    let line = key + seq![' ', '=', ' '] + bool_chars(b);
    assert(line[0] == key[0]);
    assert(line.last() == bool_chars(b).last());
    assert(!is_space_char(line[0]) && !is_space_char(line.last()));
    lemma_trim_noop(line);
    let p = key.len() as int + 1;
    assert(line[p] == '=');
    assert forall|j: int| 0 <= j < p implies line[j] != '=' by {
        if j < key.len() {
            assert(line[j] == key[j]);
        } else {
            assert(line[j] == ' ');
        }
    }
    lemma_find_idx_at(line, '=', p);
    let kp = line.subrange(0, p);
    assert(kp =~= key + seq![' ']);
    assert(trim_start_of(kp) == kp);
    assert(trim_end_of(kp) == trim_end_of(kp.drop_last()));
    assert(kp.drop_last() =~= key);
    assert(trim_end_of(key) == key);
    assert(trim_spec(kp) == key);
    let vr = line.subrange(p + 1, line.len() as int);
    assert(vr =~= seq![' '] + bool_chars(b));
    assert(trim_start_of(vr) == trim_start_of(vr.drop_first()));
    assert(vr.drop_first() =~= bool_chars(b));
    assert(trim_start_of(bool_chars(b)) == bool_chars(b));
    assert(trim_end_of(bool_chars(b)) == bool_chars(b));
    assert(trim_spec(vr) == bool_chars(b));
    if b {
        assert(bool_chars(b) == true_chars());
    } else {
        assert(bool_chars(b) != true_chars());
        assert(bool_chars(b) == false_chars());
    }
    assert(key != key_build_dir()) by {
        if which == 0 {
        } else if which == 1 {
            assert(key_show_news()[0] != key_build_dir()[0]);
        } else {
        }
    }
    assert(key != key_editor());
    if which == 0 {
    } else if which == 1 {
        assert(key != key_clean_build());
    } else {
        assert(key != key_clean_build());
        assert(key != key_show_news());
    }
}

/// Shorthands for the two trimmer halves, for readable proofs.
pub open spec fn trim_start_of(s: Seq<char>) -> Seq<char> {
    crate::text::trim_start_spec(s)
}

pub open spec fn trim_end_of(s: Seq<char>) -> Seq<char> {
    crate::text::trim_end_spec(s)
}

/// A `key = "value"` line with an escaped value sets exactly its path,
/// whatever the value held.
proof fn lemma_apply_str_line(c0: ConfigV, which: int, s: Seq<char>)
    requires
        0 <= which < 2,
    ensures
        which == 0 ==> apply_line(
            c0,
            key_build_dir() + seq![' ', '=', ' ', '"'] + escape_spec(s) + seq!['"'],
        ) == (ConfigV { build_dir: Some(s), ..c0 }),
        which == 1 ==> apply_line(
            c0,
            key_editor() + seq![' ', '=', ' ', '"'] + escape_spec(s) + seq!['"'],
        ) == (ConfigV { editor: Some(s), ..c0 }),
{
    let key = if which == 0 {
        key_build_dir()
    } else {
        key_editor()
    };
    let line = key + seq![' ', '=', ' ', '"'] + escape_spec(s) + seq!['"'];
    assert(line[0] == key[0]);
    assert(line.last() == '"');
    assert(!is_space_char(line[0]) && !is_space_char(line.last()));
    lemma_trim_noop(line);
    let p = key.len() as int + 1;
    assert(line[p] == '=');
    assert forall|j: int| 0 <= j < p implies line[j] != '=' by {
        if j < key.len() {
            assert(line[j] == key[j]);
        } else {
            assert(line[j] == ' ');
        }
    }
    lemma_find_idx_at(line, '=', p);
    let kp = line.subrange(0, p);
    assert(kp =~= key + seq![' ']);
    assert(trim_start_of(kp) == kp);
    assert(trim_end_of(kp) == trim_end_of(kp.drop_last()));
    assert(kp.drop_last() =~= key);
    assert(trim_end_of(key) == key);
    assert(trim_spec(kp) == key);
    let vr = line.subrange(p + 1, line.len() as int);
    let quoted = seq!['"'] + escape_spec(s) + seq!['"'];
    assert(vr =~= seq![' '] + quoted);
    assert(trim_start_of(vr) == trim_start_of(vr.drop_first()));
    assert(vr.drop_first() =~= quoted);
    assert(quoted[0] == '"');
    assert(quoted.last() == '"');
    assert(trim_start_of(quoted) == quoted);
    assert(trim_end_of(quoted) == quoted);
    assert(trim_spec(vr) == quoted);
    assert(is_quoted(quoted));
    assert(unquote(quoted) =~= escape_spec(s));
    lemma_unescape_escape(s);
    if which == 0 {
    } else {
        assert(key != key_build_dir());
    }
}

/// The closing switch lines of a written configuration, applied in
/// order, set exactly the three switches.
proof fn lemma_apply_tail(c0: ConfigV, cb: bool, sn: bool, dv: bool)
    ensures
        apply_lines(
            c0,
            split_char_spec(
                (key_clean_build() + seq![' ', '=', ' '] + bool_chars(cb) + seq!['\n']) + (
                key_show_news() + seq![' ', '=', ' '] + bool_chars(sn) + seq!['\n']) + (
                key_diff_viewer() + seq![' ', '=', ' '] + bool_chars(dv) + seq!['\n']),
                '\n',
            ),
        ) == (ConfigV { clean_build: cb, show_news: sn, diff_viewer: dv, ..c0 }),
{
    let l1 = key_clean_build() + seq![' ', '=', ' '] + bool_chars(cb);
    let l2 = key_show_news() + seq![' ', '=', ' '] + bool_chars(sn);
    let l3 = key_diff_viewer() + seq![' ', '=', ' '] + bool_chars(dv);
    let s = (l1 + seq!['\n']) + (l2 + seq!['\n']) + (l3 + seq!['\n']);
    let rest1 = (l2 + seq!['\n']) + (l3 + seq!['\n']);
    let rest2 = l3 + seq!['\n'];
    assert(s =~= l1 + seq!['\n'] + rest1);
    assert(rest1 =~= l2 + seq!['\n'] + rest2);
    assert(rest2 =~= l3 + seq!['\n'] + Seq::<char>::empty());
    lemma_line_no_newline_bool(0, cb);
    lemma_line_no_newline_bool(1, sn);
    lemma_line_no_newline_bool(2, dv);
    lemma_split_line(s, l1, rest1);
    lemma_split_line(rest1, l2, rest2);
    lemma_split_line(rest2, l3, Seq::<char>::empty());
    assert(split_char_spec(Seq::<char>::empty(), '\n') == seq![Seq::<char>::empty()]);
    let lines = split_char_spec(s, '\n');
    assert(lines =~= seq![l1, l2, l3, Seq::<char>::empty()]);
    lemma_apply_bool_line(c0, 0, cb);
    let c1 = apply_line(c0, l1);
    lemma_apply_bool_line(c1, 1, sn);
    let c2 = apply_line(c1, l2);
    lemma_apply_bool_line(c2, 2, dv);
    let c3 = apply_line(c2, l3);
    assert(trim_spec(Seq::<char>::empty()).len() == 0);
    assert(apply_line(c3, Seq::<char>::empty()) == c3);
    assert(lines.drop_first() =~= seq![l2, l3, Seq::<char>::empty()]);
    assert(lines.drop_first().drop_first() =~= seq![l3, Seq::<char>::empty()]);
    assert(lines.drop_first().drop_first().drop_first() =~= seq![Seq::<char>::empty()]);
    lemma_apply_cons(c0, lines);
    assert(lines[0] == l1);
    lemma_apply_cons(c1, lines.drop_first());
    assert(lines.drop_first()[0] == l2);
    lemma_apply_cons(c2, lines.drop_first().drop_first());
    assert(lines.drop_first().drop_first()[0] == l3);
    lemma_apply_cons(c3, seq![Seq::<char>::empty()]);
    assert(seq![Seq::<char>::empty()].drop_first() =~= Seq::<Seq<char>>::empty());
    assert(apply_lines(c3, Seq::<Seq<char>>::empty()) == c3);
    assert(apply_lines(c0, lines) == c3);
}

/// No switch line holds a newline.
proof fn lemma_line_no_newline_bool(which: int, b: bool)
    requires
        0 <= which < 3,
    ensures
        which == 0 ==> forall|j: int|
            0 <= j < (key_clean_build() + seq![' ', '=', ' '] + bool_chars(b)).len() ==> (
            key_clean_build() + seq![' ', '=', ' '] + bool_chars(b))[j] != '\n',
        which == 1 ==> forall|j: int|
            0 <= j < (key_show_news() + seq![' ', '=', ' '] + bool_chars(b)).len() ==> (
            key_show_news() + seq![' ', '=', ' '] + bool_chars(b))[j] != '\n',
        which == 2 ==> forall|j: int|
            0 <= j < (key_diff_viewer() + seq![' ', '=', ' '] + bool_chars(b)).len() ==> (
            key_diff_viewer() + seq![' ', '=', ' '] + bool_chars(b))[j] != '\n',
{
    let key = if which == 0 {
        key_clean_build()
    } else if which == 1 {
        key_show_news()
    } else {
        key_diff_viewer()
    };
    let line = key + seq![' ', '=', ' '] + bool_chars(b);
    assert forall|j: int| 0 <= j < line.len() implies line[j] != '\n' by {
        if j < key.len() {
            assert(line[j] == key[j]);
        } else if j < key.len() + 3 {
        } else {
            assert(line[j] == bool_chars(b)[j - key.len() - 3]);
        }
    }
}

/// No path line holds a newline: the escaping keeps the value on its
/// line.
proof fn lemma_line_no_newline_str(which: int, s: Seq<char>)
    requires
        0 <= which < 2,
    ensures
        which == 0 ==> forall|j: int|
            0 <= j < (key_build_dir() + seq![' ', '=', ' ', '"'] + escape_spec(s) + seq!['"']).len()
                ==> (key_build_dir() + seq![' ', '=', ' ', '"'] + escape_spec(s) + seq!['"'])[j]
                != '\n',
        which == 1 ==> forall|j: int|
            0 <= j < (key_editor() + seq![' ', '=', ' ', '"'] + escape_spec(s) + seq!['"']).len()
                ==> (key_editor() + seq![' ', '=', ' ', '"'] + escape_spec(s) + seq!['"'])[j]
                != '\n',
{
    let key = if which == 0 {
        key_build_dir()
    } else {
        key_editor()
    };
    lemma_escape_no_newline(s);
    let esc = escape_spec(s);
    let line = key + seq![' ', '=', ' ', '"'] + esc + seq!['"'];
    assert forall|j: int| 0 <= j < line.len() implies line[j] != '\n' by {
        if j < key.len() {
            assert(line[j] == key[j]);
        } else if j < key.len() + 4 {
        } else if j < key.len() + 4 + esc.len() {
            assert(line[j] == esc[j - key.len() - 4]);
        } else {
            assert(line[j] == '"');
        }
    }
}

/// Reading back a written configuration restores it, whatever its
/// optional paths hold.
#[verifier::rlimit(100)]
pub proof fn lemma_config_round_trip(c: ConfigV)
    ensures
        parse_cfg_spec(serialize_spec(c)) == c,
{
    let tail = (key_clean_build() + seq![' ', '=', ' '] + bool_chars(c.clean_build) + seq!['\n'])
        + (key_show_news() + seq![' ', '=', ' '] + bool_chars(c.show_news) + seq!['\n']) + (
    key_diff_viewer() + seq![' ', '=', ' '] + bool_chars(c.diff_viewer) + seq!['\n']);
    let s = serialize_spec(c);
    let d = default_config_view();
    match c.build_dir {
        Some(bs) => {
            let bd_line = key_build_dir() + seq![' ', '=', ' ', '"'] + escape_spec(bs) + seq!['"'];
            lemma_line_no_newline_str(0, bs);
            match c.editor {
                Some(es) => {
                    let ed_line = key_editor() + seq![' ', '=', ' ', '"'] + escape_spec(es) + seq![
                        '"',
                    ];
                    lemma_line_no_newline_str(1, es);
                    let rest1 = (ed_line + seq!['\n']) + tail;
                    assert(s =~= bd_line + seq!['\n'] + rest1);
                    lemma_split_line(s, bd_line, rest1);
                    assert(rest1 =~= ed_line + seq!['\n'] + tail);
                    lemma_split_line(rest1, ed_line, tail);
                    lemma_apply_str_line(d, 0, bs);
                    let c1 = apply_line(d, bd_line);
                    lemma_apply_str_line(c1, 1, es);
                    let c2 = apply_line(c1, ed_line);
                    lemma_apply_tail(c2, c.clean_build, c.show_news, c.diff_viewer);
                    let lines = split_char_spec(s, '\n');
                    lemma_apply_cons(d, lines);
                    assert(lines[0] == bd_line);
                    assert(lines.drop_first() =~= seq![ed_line] + split_char_spec(tail, '\n'));
                    lemma_apply_cons(c1, lines.drop_first());
                    assert(lines.drop_first()[0] == ed_line);
                    assert(lines.drop_first().drop_first() =~= split_char_spec(tail, '\n'));
                    assert(apply_lines(d, lines) == c);
                },
                None => {
                    let rest1 = tail;
                    assert(s =~= bd_line + seq!['\n'] + rest1);
                    lemma_split_line(s, bd_line, rest1);
                    lemma_apply_str_line(d, 0, bs);
                    let c1 = apply_line(d, bd_line);
                    lemma_apply_tail(c1, c.clean_build, c.show_news, c.diff_viewer);
                    let lines = split_char_spec(s, '\n');
                    lemma_apply_cons(d, lines);
                    assert(lines[0] == bd_line);
                    assert(lines.drop_first() =~= split_char_spec(tail, '\n'));
                    assert(apply_lines(d, lines) == c);
                },
            }
        },
        None => {
            match c.editor {
                Some(es) => {
                    let ed_line = key_editor() + seq![' ', '=', ' ', '"'] + escape_spec(es) + seq![
                        '"',
                    ];
                    lemma_line_no_newline_str(1, es);
                    assert(s =~= ed_line + seq!['\n'] + tail);
                    lemma_split_line(s, ed_line, tail);
                    lemma_apply_str_line(d, 1, es);
                    let c1 = apply_line(d, ed_line);
                    lemma_apply_tail(c1, c.clean_build, c.show_news, c.diff_viewer);
                    let lines = split_char_spec(s, '\n');
                    lemma_apply_cons(d, lines);
                    assert(lines[0] == ed_line);
                    assert(lines.drop_first() =~= split_char_spec(tail, '\n'));
                    assert(apply_lines(d, lines) == c);
                },
                None => {
                    assert(s =~= tail);
                    lemma_apply_tail(d, c.clean_build, c.show_news, c.diff_viewer);
                    assert(apply_lines(d, split_char_spec(s, '\n')) == c);
                },
            }
        },
    }
}

/// Writes one `key = "value"` line, the value escaped.
fn push_line_str(out: &mut Vec<char>, key: &Vec<char>, s: &String)
    ensures
        final(out)@ == old(out)@ + (key@ + seq![' ', '=', ' ', '"'] + escape_spec(s@) + seq![
            '"',
            '\n',
        ]),
{
    let mut kcopy = subrange_vec(key, 0, key.len());
    out.append(&mut kcopy);
    let mut open: Vec<char> = vec![' ', '=', ' ', '"'];
    out.append(&mut open);
    let raw = str_chars(s.as_str());
    let mut content = escape_chars(&raw);
    out.append(&mut content);
    let mut close: Vec<char> = vec!['"', '\n'];
    out.append(&mut close);
    proof {
        assert(key@.subrange(0, key@.len() as int) =~= key@);
        assert(out@ =~= old(out)@ + (key@ + seq![' ', '=', ' ', '"'] + escape_spec(s@) + seq![
            '"',
            '\n',
        ]));
    }
}

/// Writes one `key = true` or `key = false` line.
fn push_line_bool(out: &mut Vec<char>, key: &Vec<char>, b: bool)
    ensures
        final(out)@ == old(out)@ + (key@ + seq![' ', '=', ' '] + bool_chars(b) + seq!['\n']),
{
    let mut kcopy = subrange_vec(key, 0, key.len());
    out.append(&mut kcopy);
    let mut open: Vec<char> = vec![' ', '=', ' '];
    out.append(&mut open);
    if b {
        let mut word: Vec<char> = vec!['t', 'r', 'u', 'e'];
        out.append(&mut word);
    } else {
        let mut word: Vec<char> = vec!['f', 'a', 'l', 's', 'e'];
        out.append(&mut word);
    }
    out.push('\n');
    proof {
        assert(key@.subrange(0, key@.len() as int) =~= key@);
        assert(out@ =~= old(out)@ + (key@ + seq![' ', '=', ' '] + bool_chars(b) + seq!['\n']));
    }
}

/// Writes the configuration in its file form.
pub fn serialize_config(c: &Config) -> (r: String)
    ensures
        r@ == serialize_spec(c@),
{
    let kb: Vec<char> = vec!['b', 'u', 'i', 'l', 'd', '_', 'd', 'i', 'r'];
    let ke: Vec<char> = vec!['e', 'd', 'i', 't', 'o', 'r'];
    let kc: Vec<char> = vec!['c', 'l', 'e', 'a', 'n', '_', 'b', 'u', 'i', 'l', 'd'];
    let ks: Vec<char> = vec!['s', 'h', 'o', 'w', '_', 'n', 'e', 'w', 's'];
    let kd: Vec<char> = vec!['d', 'i', 'f', 'f', '_', 'v', 'i', 'e', 'w', 'e', 'r'];
    proof {
        assert(kb@ =~= key_build_dir());
        assert(ke@ =~= key_editor());
        assert(kc@ =~= key_clean_build());
        assert(ks@ =~= key_show_news());
        assert(kd@ =~= key_diff_viewer());
    }
    let mut out: Vec<char> = Vec::new();
    let ghost bd_spec = match c@.build_dir {
        Some(s) => key_build_dir() + seq![' ', '=', ' ', '"'] + escape_spec(s) + seq!['"', '\n'],
        None => Seq::<char>::empty(),
    };
    match &c.build_dir {
        Some(s) => {
            push_line_str(&mut out, &kb, s);
        },
        None => {},
    }
    assert(out@ =~= bd_spec);
    let ghost ed_spec = match c@.editor {
        Some(s) => key_editor() + seq![' ', '=', ' ', '"'] + escape_spec(s) + seq!['"', '\n'],
        None => Seq::<char>::empty(),
    };
    match &c.editor {
        Some(s) => {
            push_line_str(&mut out, &ke, s);
        },
        None => {},
    }
    assert(out@ =~= bd_spec + ed_spec);
    push_line_bool(&mut out, &kc, c.clean_build);
    let ghost cb_spec = key_clean_build() + seq![' ', '=', ' '] + bool_chars(c@.clean_build)
        + seq!['\n'];
    assert(out@ =~= bd_spec + ed_spec + cb_spec);
    push_line_bool(&mut out, &ks, c.show_news);
    let ghost sn_spec = key_show_news() + seq![' ', '=', ' '] + bool_chars(c@.show_news)
        + seq!['\n'];
    assert(out@ =~= bd_spec + ed_spec + cb_spec + sn_spec);
    push_line_bool(&mut out, &kd, c.diff_viewer);
    let ghost dv_spec = key_diff_viewer() + seq![' ', '=', ' '] + bool_chars(c@.diff_viewer)
        + seq!['\n'];
    assert(out@ =~= bd_spec + ed_spec + cb_spec + sn_spec + dv_spec);
    assert(out@ =~= serialize_spec(c@));
    chars_to_string(&out)
}

} // verus!
