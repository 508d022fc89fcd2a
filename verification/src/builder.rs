//! The per-base build pipeline's decisions: which editor opens the
//! build recipe, which produced artifact files belong to a requested
//! package, and which flags the source-build tool gets. The process
//! invocations themselves stay outside.

use vstd::prelude::*;
use vstd::string::*;
use crate::text::{str_chars, chars_to_string, starts_with_chars, starts_with_spec, subrange_vec};

verus! {

pub open spec fn nano_chars() -> Seq<char> {
    seq!['n', 'a', 'n', 'o']
}

/// The editor to open: the configured one first, then the environment's,
/// then `nano`.
pub open spec fn editor_spec(cfg: Option<Seq<char>>, env: Option<Seq<char>>) -> Seq<char> {
    match cfg {
        Some(e) => e,
        None => match env {
            Some(e) => e,
            None => nano_chars(),
        },
    }
}

/// Picks the editor: configuration beats the `EDITOR` environment
/// value, which beats `nano`.
pub fn choose_editor(config_editor: &Option<String>, env_editor: &Option<String>) -> (r: String)
    ensures
        r@ == editor_spec(
            match config_editor {
                Some(e) => Some(e@),
                None => None,
            },
            match env_editor {
                Some(e) => Some(e@),
                None => None,
            },
        ),
{
    match config_editor {
        Some(e) => e.clone(),
        None => match env_editor {
            Some(e) => e.clone(),
            None => {
                let nano: Vec<char> = vec!['n', 'a', 'n', 'o'];
                proof {
                    assert(nano@ =~= nano_chars());
                }
                chars_to_string(&nano)
            },
        },
    }
}

/// The file-name prefix of an artifact of one package at one version.
pub open spec fn artifact_prefix_spec(pkgname: Seq<char>, version: Seq<char>) -> Seq<char> {
    pkgname + seq!['-'] + version + seq!['-']
}

/// Whether a produced file belongs to the requested package at the
/// built version: its name starts `pkgname-version-`.
pub fn artifact_matches(file_name: &str, pkgname: &str, version: &str) -> (r: bool)
    ensures
        r == starts_with_spec(file_name@, artifact_prefix_spec(pkgname@, version@)),
{
    let fv = str_chars(file_name);
    let mut prefix = str_chars(pkgname);
    prefix.push('-');
    let mut ver = str_chars(version);
    prefix.append(&mut ver);
    prefix.push('-');
    proof {
        assert(prefix@ =~= artifact_prefix_spec(pkgname@, version@));
    }
    starts_with_chars(&fv, &prefix)
}

/// The artifact paths that belong to the package, in order.
pub open spec fn select_artifacts_spec(
    paths: Seq<Seq<char>>,
    pkgname: Seq<char>,
    version: Seq<char>,
) -> Seq<Seq<char>>
    decreases paths.len(),
{
    if paths.len() == 0 {
        Seq::empty()
    } else {
        let rest = select_artifacts_spec(paths.drop_first(), pkgname, version);
        if starts_with_spec(paths[0], artifact_prefix_spec(pkgname, version)) {
            seq![paths[0]] + rest
        } else {
            rest
        }
    }
}

/// Keeps the produced paths whose file names belong to the requested
/// package at the built version, as the split-package installer wants.
pub fn select_artifacts(paths: &Vec<String>, pkgname: &str, version: &str) -> (r: Vec<String>)
    ensures
        r.deep_view() == select_artifacts_spec(paths.deep_view(), pkgname@, version@),
{
    let ghost pv = paths.deep_view();
    let mut r: Vec<String> = Vec::new();
    let mut k: usize = 0;
    assert(r.deep_view() =~= Seq::<Seq<char>>::empty());
    assert(pv.skip(0) =~= pv);
    while k < paths.len()
        invariant
            k <= paths@.len(),
            pv == paths.deep_view(),
            select_artifacts_spec(pv, pkgname@, version@) == r.deep_view()
                + select_artifacts_spec(pv.skip(k as int), pkgname@, version@),
        decreases paths@.len() - k,
    {
        proof {
            assert(pv.skip(k as int)[0] == pv[k as int]);
            assert(pv.skip(k as int).drop_first() =~= pv.skip(k as int + 1));
        }
        if artifact_matches(paths[k].as_str(), pkgname, version) {
            let ghost pre = r.deep_view();
            r.push(paths[k].clone());
            assert(r.deep_view() =~= pre.push(pv[k as int]));
        }
        k = k + 1;
        assert(select_artifacts_spec(pv, pkgname@, version@) =~~= r.deep_view()
            + select_artifacts_spec(pv.skip(k as int), pkgname@, version@));
    }
    proof {
        assert(pv.skip(pv.len() as int) =~= Seq::<Seq<char>>::empty());
    }
    r
}

pub open spec fn skip_sig_chars() -> Seq<char> {
    seq!['-', '-', 's', 'k', 'i', 'p', 'p', 'g', 'p', 'c', 'h', 'e', 'c', 'k']
}

/// The flags the source-build tool gets: resolve system dependencies,
/// remove build-time ones afterwards, force the rebuild; and skip the
/// signature check when keys stayed unresolved.
pub open spec fn build_args_spec(skip_sig: bool) -> Seq<Seq<char>> {
    let base = seq![seq!['-', 's'], seq!['-', 'r'], seq!['-', 'f']];
    if skip_sig {
        base + seq![skip_sig_chars()]
    } else {
        base
    }
}

pub fn build_args(skip_sig: bool) -> (r: Vec<String>)
    ensures
        r.deep_view() == build_args_spec(skip_sig),
{
    let s_flag: Vec<char> = vec!['-', 's'];
    let r_flag: Vec<char> = vec!['-', 'r'];
    let f_flag: Vec<char> = vec!['-', 'f'];
    let mut r: Vec<String> = Vec::new();
    r.push(chars_to_string(&s_flag));
    r.push(chars_to_string(&r_flag));
    r.push(chars_to_string(&f_flag));
    if skip_sig {
        let skip_flag: Vec<char> = vec![
            '-',
            '-',
            's',
            'k',
            'i',
            'p',
            'p',
            'g',
            'p',
            'c',
            'h',
            'e',
            'c',
            'k',
        ];
        proof {
            assert(skip_flag@ =~= skip_sig_chars());
        }
        r.push(chars_to_string(&skip_flag));
        assert(r.deep_view() =~= build_args_spec(skip_sig));
    } else {
        assert(r.deep_view() =~= build_args_spec(skip_sig));
    }
    r
}

} // verus!
