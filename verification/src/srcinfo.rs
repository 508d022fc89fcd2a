//! The `.SRCINFO` metadata parser.
//!
//! The file holds one `key = value` line per fact. A dependency key may
//! carry an architecture tag (`depends_x86_64`); such an entry counts
//! only when the tag is the running architecture, while an untagged
//! entry always counts. `pkgname` lines enumerate the split packages of
//! one `pkgbase`; the full version is `pkgver-pkgrel`.

use vstd::prelude::*;
use vstd::string::*;
use crate::text::{
    trim_spec, trim_chars, split_char, split_char_spec, str_chars, chars_to_string, chars_eq,
    subrange_vec,
};
use crate::text::find_idx;
use crate::dependency::clean_spec;

verus! {

/// The metadata of one AUR source base.
pub struct PackageMetaData {
    pub pkgbase: String,
    pub version: String,
    pub depends: Vec<String>,
    pub make_depends: Vec<String>,
    pub validpgpkeys: Vec<String>,
    pub arch: Vec<String>,
    pub pkgnames: Vec<String>,
}

/// The mathematical shape of package metadata.
#[verifier::ext_equal]
pub ghost struct MetaV {
    pub pkgbase: Seq<char>,
    pub version: Seq<char>,
    pub depends: Seq<Seq<char>>,
    pub make_depends: Seq<Seq<char>>,
    pub validpgpkeys: Seq<Seq<char>>,
    pub arch: Seq<Seq<char>>,
    pub pkgnames: Seq<Seq<char>>,
}

impl View for PackageMetaData {
    type V = MetaV;

    open spec fn view(&self) -> MetaV {
        MetaV {
            pkgbase: self.pkgbase@,
            version: self.version@,
            depends: self.depends.deep_view(),
            make_depends: self.make_depends.deep_view(),
            validpgpkeys: self.validpgpkeys.deep_view(),
            arch: self.arch.deep_view(),
            pkgnames: self.pkgnames.deep_view(),
        }
    }
}

impl DeepView for PackageMetaData {
    type V = MetaV;

    open spec fn deep_view(&self) -> MetaV {
        self.view()
    }
}

/// The clean name of a dependency string: the prefix before the first
/// `<`, `>` or `=`.
pub fn clean_dependency(dep: &str) -> (r: String)
    ensures
        r@ == clean_spec(dep@),
{
    crate::dependency::clean_dependency(dep)
}

/// The parser's running state: the version still in two halves.
#[verifier::ext_equal]
pub ghost struct SrcStateV {
    pub pkgbase: Seq<char>,
    pub pkgver: Seq<char>,
    pub pkgrel: Seq<char>,
    pub depends: Seq<Seq<char>>,
    pub make_depends: Seq<Seq<char>>,
    pub validpgpkeys: Seq<Seq<char>>,
    pub arch: Seq<Seq<char>>,
    pub pkgnames: Seq<Seq<char>>,
}

pub open spec fn src_init() -> SrcStateV {
    SrcStateV {
        pkgbase: Seq::empty(),
        pkgver: Seq::empty(),
        pkgrel: Seq::empty(),
        depends: Seq::empty(),
        make_depends: Seq::empty(),
        validpgpkeys: Seq::empty(),
        arch: Seq::empty(),
        pkgnames: Seq::empty(),
    }
}

pub open spec fn kw_pkgbase() -> Seq<char> {
    seq!['p', 'k', 'g', 'b', 'a', 's', 'e']
}

pub open spec fn kw_pkgver() -> Seq<char> {
    seq!['p', 'k', 'g', 'v', 'e', 'r']
}

pub open spec fn kw_pkgrel() -> Seq<char> {
    seq!['p', 'k', 'g', 'r', 'e', 'l']
}

pub open spec fn kw_pkgname() -> Seq<char> {
    seq!['p', 'k', 'g', 'n', 'a', 'm', 'e']
}

pub open spec fn kw_arch() -> Seq<char> {
    seq!['a', 'r', 'c', 'h']
}

pub open spec fn kw_validpgpkeys() -> Seq<char> {
    seq!['v', 'a', 'l', 'i', 'd', 'p', 'g', 'p', 'k', 'e', 'y', 's']
}

pub open spec fn kw_depends() -> Seq<char> {
    seq!['d', 'e', 'p', 'e', 'n', 'd', 's']
}

pub open spec fn kw_makedepends() -> Seq<char> {
    seq!['m', 'a', 'k', 'e', 'd', 'e', 'p', 'e', 'n', 'd', 's']
}

/// A dependency key counts when untagged or tagged with the running
/// architecture.
pub open spec fn dep_key_matches(key: Seq<char>, base: Seq<char>, cur: Seq<char>) -> bool {
    key == base || key == base + seq!['_'] + cur
}

/// A dependency key tagged with another architecture never counts: an
/// entry enters the lists only untagged or tagged with the running
/// architecture.
pub proof fn lemma_other_arch_key_skipped(base: Seq<char>, tag: Seq<char>, cur: Seq<char>)
    requires
        tag != cur,
    ensures
        !dep_key_matches(base + seq!['_'] + tag, base, cur),
{
    let key = base + seq!['_'] + tag;
    assert(key.len() == base.len() + 1 + tag.len());
    assert(key != base);
    if key == base + seq!['_'] + cur {
        assert(tag.len() == cur.len());
        assert forall|j: int| 0 <= j < tag.len() implies tag[j] == cur[j] by {
            assert(key[base.len() + 1 + j] == tag[j]);
            assert((base + seq!['_'] + cur)[base.len() + 1 + j] == cur[j]);
        }
        assert(tag =~= cur);
    }
}

/// One `.SRCINFO` line, applied to the state read so far.
pub open spec fn src_apply_line(st: SrcStateV, line: Seq<char>, cur: Seq<char>) -> SrcStateV {
    let t = trim_spec(line);
    if t.len() == 0 {
        st
    } else if t[0] == '#' {
        st
    } else {
        let p = find_idx(t, '=');
        if p < 0 {
            st
        } else {
            let key = trim_spec(t.subrange(0, p));
            let val = trim_spec(t.subrange(p + 1, t.len() as int));
            if val.len() == 0 {
                st
            } else if key == kw_pkgbase() {
                SrcStateV { pkgbase: val, ..st }
            } else if key == kw_pkgver() {
                SrcStateV { pkgver: val, ..st }
            } else if key == kw_pkgrel() {
                SrcStateV { pkgrel: val, ..st }
            } else if key == kw_pkgname() {
                SrcStateV { pkgnames: st.pkgnames.push(val), ..st }
            } else if key == kw_arch() {
                SrcStateV { arch: st.arch.push(val), ..st }
            } else if key == kw_validpgpkeys() {
                SrcStateV { validpgpkeys: st.validpgpkeys.push(val), ..st }
            } else if dep_key_matches(key, kw_depends(), cur) {
                if st.depends.contains(val) {
                    st
                } else {
                    SrcStateV { depends: st.depends.push(val), ..st }
                }
            } else if dep_key_matches(key, kw_makedepends(), cur) {
                SrcStateV { make_depends: st.make_depends.push(val), ..st }
            } else {
                st
            }
        }
    }
}

pub open spec fn src_apply_lines(st: SrcStateV, lines: Seq<Seq<char>>, cur: Seq<char>) -> SrcStateV
    decreases lines.len(),
{
    if lines.len() == 0 {
        st
    } else {
        src_apply_lines(src_apply_line(st, lines[0], cur), lines.drop_first(), cur)
    }
}

pub open spec fn src_finalize(st: SrcStateV) -> MetaV {
    MetaV {
        pkgbase: st.pkgbase,
        version: st.pkgver + seq!['-'] + st.pkgrel,
        depends: st.depends,
        make_depends: st.make_depends,
        validpgpkeys: st.validpgpkeys,
        arch: st.arch,
        pkgnames: st.pkgnames,
    }
}

/// What a `.SRCINFO` text means for the running architecture.
pub open spec fn parse_srcinfo_spec(s: Seq<char>, cur: Seq<char>) -> MetaV {
    src_finalize(src_apply_lines(src_init(), split_char_spec(s, '\n'), cur))
}

/// One line never reorders or drops what was already read: every list
/// is either kept whole or extended at its end, so entries keep the
/// order the file gave them.
pub proof fn lemma_src_line_appends(st: SrcStateV, line: Seq<char>, cur: Seq<char>)
    ensures
        ({
            let st2 = src_apply_line(st, line, cur);
            &&& st2.depends == st.depends || st2.depends == st.depends.push(st2.depends.last())
            &&& st2.make_depends == st.make_depends || st2.make_depends == st.make_depends.push(
                st2.make_depends.last(),
            )
            &&& st2.pkgnames == st.pkgnames || st2.pkgnames == st.pkgnames.push(
                st2.pkgnames.last(),
            )
            &&& st2.arch == st.arch || st2.arch == st.arch.push(st2.arch.last())
            &&& st2.validpgpkeys == st.validpgpkeys || st2.validpgpkeys == st.validpgpkeys.push(
                st2.validpgpkeys.last(),
            )
        }),
{
    let st2 = src_apply_line(st, line, cur);
    if st2.depends != st.depends {
        assert(st2.depends =~= st.depends.push(st2.depends.last()));
    }
    if st2.make_depends != st.make_depends {
        assert(st2.make_depends =~= st.make_depends.push(st2.make_depends.last()));
    }
    if st2.pkgnames != st.pkgnames {
        assert(st2.pkgnames =~= st.pkgnames.push(st2.pkgnames.last()));
    }
    if st2.arch != st.arch {
        assert(st2.arch =~= st.arch.push(st2.arch.last()));
    }
    if st2.validpgpkeys != st.validpgpkeys {
        assert(st2.validpgpkeys =~= st.validpgpkeys.push(st2.validpgpkeys.last()));
    }
}

/// The parser's running state, executable half.
struct SrcState {
    pkgbase: Vec<char>,
    pkgver: Vec<char>,
    pkgrel: Vec<char>,
    depends: Vec<String>,
    make_depends: Vec<String>,
    validpgpkeys: Vec<String>,
    arch: Vec<String>,
    pkgnames: Vec<String>,
}

impl View for SrcState {
    type V = SrcStateV;

    closed spec fn view(&self) -> SrcStateV {
        SrcStateV {
            pkgbase: self.pkgbase@,
            pkgver: self.pkgver@,
            pkgrel: self.pkgrel@,
            depends: self.depends.deep_view(),
            make_depends: self.make_depends.deep_view(),
            validpgpkeys: self.validpgpkeys.deep_view(),
            arch: self.arch.deep_view(),
            pkgnames: self.pkgnames.deep_view(),
        }
    }
}

/// Applies one line of the file to the state.
fn src_apply_line_exec(st: SrcState, line: &Vec<char>, cur: &Vec<char>) -> (r: SrcState)
    ensures
        r@ == src_apply_line(st@, line@, cur@),
{
    let t = trim_chars(line);
    if t.len() == 0 {
        return st;
    }
    if t[0] == '#' {
        return st;
    }
    let p = match crate::text::find_char(&t, '=') {
        Some(p) => p,
        None => {
            return st;
        },
    };
    let key_raw = subrange_vec(&t, 0, p);
    let val_raw = subrange_vec(&t, p + 1, t.len());
    let key = trim_chars(&key_raw);
    let val = trim_chars(&val_raw);
    if val.len() == 0 {
        return st;
    }
    let k_pkgbase: Vec<char> = vec!['p', 'k', 'g', 'b', 'a', 's', 'e'];
    let k_pkgver: Vec<char> = vec!['p', 'k', 'g', 'v', 'e', 'r'];
    let k_pkgrel: Vec<char> = vec!['p', 'k', 'g', 'r', 'e', 'l'];
    let k_pkgname: Vec<char> = vec!['p', 'k', 'g', 'n', 'a', 'm', 'e'];
    let k_arch: Vec<char> = vec!['a', 'r', 'c', 'h'];
    let k_keys: Vec<char> = vec!['v', 'a', 'l', 'i', 'd', 'p', 'g', 'p', 'k', 'e', 'y', 's'];
    let k_dep: Vec<char> = vec!['d', 'e', 'p', 'e', 'n', 'd', 's'];
    let k_mdep: Vec<char> = vec!['m', 'a', 'k', 'e', 'd', 'e', 'p', 'e', 'n', 'd', 's'];
    proof {
        assert(k_pkgbase@ =~= kw_pkgbase());
        assert(k_pkgver@ =~= kw_pkgver());
        assert(k_pkgrel@ =~= kw_pkgrel());
        assert(k_pkgname@ =~= kw_pkgname());
        assert(k_arch@ =~= kw_arch());
        assert(k_keys@ =~= kw_validpgpkeys());
        assert(k_dep@ =~= kw_depends());
        assert(k_mdep@ =~= kw_makedepends());
    }
    let mut k_dep_tag = subrange_vec(&k_dep, 0, k_dep.len());
    k_dep_tag.push('_');
    let mut cur_copy = subrange_vec(cur, 0, cur.len());
    k_dep_tag.append(&mut cur_copy);
    proof {
        assert(k_dep_tag@ =~= kw_depends() + seq!['_'] + cur@);
    }
    let mut k_mdep_tag = subrange_vec(&k_mdep, 0, k_mdep.len());
    k_mdep_tag.push('_');
    let mut cur_copy2 = subrange_vec(cur, 0, cur.len());
    k_mdep_tag.append(&mut cur_copy2);
    proof {
        assert(k_mdep_tag@ =~= kw_makedepends() + seq!['_'] + cur@);
    }
    let mut st = st;
    if chars_eq(&key, &k_pkgbase) {
        st.pkgbase = val;
    } else if chars_eq(&key, &k_pkgver) {
        st.pkgver = val;
    } else if chars_eq(&key, &k_pkgrel) {
        st.pkgrel = val;
    } else if chars_eq(&key, &k_pkgname) {
        let ghost pre = st.pkgnames.deep_view();
        st.pkgnames.push(chars_to_string(&val));
        assert(st.pkgnames.deep_view() =~= pre.push(val@));
    } else if chars_eq(&key, &k_arch) {
        let ghost pre = st.arch.deep_view();
        st.arch.push(chars_to_string(&val));
        assert(st.arch.deep_view() =~= pre.push(val@));
    } else if chars_eq(&key, &k_keys) {
        let ghost pre = st.validpgpkeys.deep_view();
        st.validpgpkeys.push(chars_to_string(&val));
        assert(st.validpgpkeys.deep_view() =~= pre.push(val@));
    } else if chars_eq(&key, &k_dep) || chars_eq(&key, &k_dep_tag) {
        if !crate::text::contains_str(&st.depends, &val) {
            let ghost pre = st.depends.deep_view();
            st.depends.push(chars_to_string(&val));
            assert(st.depends.deep_view() =~= pre.push(val@));
        }
    } else if chars_eq(&key, &k_mdep) || chars_eq(&key, &k_mdep_tag) {
        let ghost pre = st.make_depends.deep_view();
        st.make_depends.push(chars_to_string(&val));
        assert(st.make_depends.deep_view() =~= pre.push(val@));
    }
    st
}

/// Reads a `.SRCINFO` text for the running architecture `current_arch`:
/// every line applied in order, dependency entries filtered to untagged
/// ones and those tagged with `current_arch`, repeated `depends`
/// entries kept once.
pub fn parse_srcinfo(text: &str, current_arch: &str) -> (r: PackageMetaData)
    ensures
        r@ == parse_srcinfo_spec(text@, current_arch@),
{
    let chars = str_chars(text);
    let cur = str_chars(current_arch);
    let lines = split_char(&chars, '\n');
    let ghost lv = lines@.map_values(|e: Vec<char>| e@);
    let mut st = SrcState {
        pkgbase: Vec::new(),
        pkgver: Vec::new(),
        pkgrel: Vec::new(),
        depends: Vec::new(),
        make_depends: Vec::new(),
        validpgpkeys: Vec::new(),
        arch: Vec::new(),
        pkgnames: Vec::new(),
    };
    assert(st@ =~~= src_init());
    let mut k: usize = 0;
    assert(lv.skip(0) =~= lv);
    while k < lines.len()
        invariant
            k <= lines@.len(),
            lv == lines@.map_values(|e: Vec<char>| e@),
            cur@ == current_arch@,
            src_apply_lines(src_init(), lv, cur@) == src_apply_lines(st@, lv.skip(k as int), cur@),
        decreases lines@.len() - k,
    {
        proof {
            assert(lv.skip(k as int)[0] == lv[k as int]);
            assert(lv.skip(k as int).drop_first() =~= lv.skip(k as int + 1));
        }
        st = src_apply_line_exec(st, &lines[k], &cur);
        k = k + 1;
    }
    proof {
        assert(lv.skip(lv.len() as int) =~= Seq::<Seq<char>>::empty());
    }
    let SrcState { pkgbase, pkgver, pkgrel, depends, make_depends, validpgpkeys, arch, pkgnames } =
        st;
    let mut version = pkgver;
    version.push('-');
    let mut rel = pkgrel;
    version.append(&mut rel);
    let r = PackageMetaData {
        pkgbase: chars_to_string(&pkgbase),
        version: chars_to_string(&version),
        depends,
        make_depends,
        validpgpkeys,
        arch,
        pkgnames,
    };
    proof {
        let fin = src_finalize(src_apply_lines(src_init(), lv, current_arch@));
        assert(version@ =~= fin.version);
        assert(r@ =~~= fin);
    }
    r
}

} // verus!
