//! Dependency strings and their classification.
//!
//! A dependency string is a package name optionally followed by a
//! version constraint, introduced by the first `<`, `>` or `=`. The
//! *clean name* is the prefix before that character; it is what the
//! AUR is asked about, while the full string goes to the native
//! database, which understands constraints.

use vstd::prelude::*;
use vstd::string::*;
use crate::text::{chars_to_string, str_chars, chars_eq, contains_chars};

verus! {

pub open spec fn is_constraint_char(c: char) -> bool {
    c == '<' || c == '>' || c == '='
}

pub open spec fn constraint_free(s: Seq<char>) -> bool {
    forall|i: int| 0 <= i < s.len() ==> !is_constraint_char(#[trigger] s[i])
}

/// The clean name of a dependency string: the prefix before the first
/// constraint character, or the whole string if there is none.
pub open spec fn clean_spec(s: Seq<char>) -> Seq<char>
    decreases s.len(),
{
    if s.len() == 0 {
        s
    } else if is_constraint_char(s[0]) {
        Seq::empty()
    } else {
        seq![s[0]] + clean_spec(s.drop_first())
    }
}

/// The clean name is the prefix up to the first constraint character.
proof fn lemma_clean_prefix(s: Seq<char>, i: int)
    requires
        0 <= i <= s.len(),
        forall|j: int| 0 <= j < i ==> !is_constraint_char(#[trigger] s[j]),
        i < s.len() ==> is_constraint_char(s[i]),
    ensures
        clean_spec(s) == s.subrange(0, i),
    decreases i,
{
    if i == 0 {
        if s.len() == 0 {
            assert(s.subrange(0, 0) =~= s);
        } else {
            assert(s.subrange(0, 0) =~= Seq::<char>::empty());
        }
    } else {
        lemma_clean_prefix(s.drop_first(), i - 1);
        assert(s.drop_first().subrange(0, i - 1) =~= s.subrange(1, i));
        assert(seq![s[0]] + s.subrange(1, i) =~= s.subrange(0, i));
    }
}

/// No constraint character survives cleaning.
pub proof fn lemma_clean_constraint_free(s: Seq<char>)
    ensures
        constraint_free(clean_spec(s)),
    decreases s.len(),
{
    if s.len() == 0 {
    } else if is_constraint_char(s[0]) {
    } else {
        lemma_clean_constraint_free(s.drop_first());
        let r = clean_spec(s);
        assert forall|i: int| 0 <= i < r.len() implies !is_constraint_char(#[trigger] r[i]) by {
            if i > 0 {
                assert(r[i] == clean_spec(s.drop_first())[i - 1]);
            }
        }
    }
}

/// Cleaning a constraint-free string changes nothing.
proof fn lemma_clean_of_free(s: Seq<char>)
    requires
        constraint_free(s),
    ensures
        clean_spec(s) == s,
    decreases s.len(),
{
    if s.len() > 0 {
        lemma_clean_of_free(s.drop_first());
        assert(seq![s[0]] + s.drop_first() =~= s);
    }
}

/// Cleaning is idempotent: the clean name of a clean name is itself,
/// and a clean name never holds `<`, `>` or `=`.
pub proof fn lemma_clean_idempotent(s: Seq<char>)
    ensures
        clean_spec(clean_spec(s)) == clean_spec(s),
        constraint_free(clean_spec(s)),
{
    lemma_clean_constraint_free(s);
    lemma_clean_of_free(clean_spec(s));
}

/// The clean name of `v`, over character vectors.
pub fn clean_chars(v: &Vec<char>) -> (r: Vec<char>)
    ensures
        r@ == clean_spec(v@),
{
    let mut i: usize = 0;
    while i < v.len()
        invariant
            i <= v@.len(),
            forall|j: int| 0 <= j < i ==> !is_constraint_char(#[trigger] v@[j]),
        decreases v@.len() - i,
    {
        let c = v[i];
        if c == '<' || c == '>' || c == '=' {
            proof {
                lemma_clean_prefix(v@, i as int);
            }
            let mut r: Vec<char> = Vec::new();
            let mut k: usize = 0;
            while k < i
                invariant
                    k <= i <= v@.len(),
                    r@ == v@.subrange(0, k as int),
                decreases i - k,
            {
                r.push(v[k]);
                k = k + 1;
                assert(r@ =~= v@.subrange(0, k as int));
            }
            return r;
        }
        i = i + 1;
    }
    proof {
        lemma_clean_prefix(v@, v@.len() as int);
        assert(v@.subrange(0, v@.len() as int) =~= v@);
    }
    let mut r: Vec<char> = Vec::new();
    let mut k: usize = 0;
    while k < v.len()
        invariant
            k <= v@.len(),
            r@ == v@.subrange(0, k as int),
        decreases v@.len() - k,
    {
        r.push(v[k]);
        k = k + 1;
        assert(r@ =~= v@.subrange(0, k as int));
    }
    r
}

/// The clean name of a dependency string.
pub fn clean_dependency(dep: &str) -> (r: String)
    ensures
        r@ == clean_spec(dep@),
{
    let v = str_chars(dep);
    let c = clean_chars(&v);
    chars_to_string(&c)
}

/// Missing dependencies split by where they come from: names the sync
/// repositories can satisfy, and names that must be built from the AUR.
pub struct DepStatus {
    pub repo_install: Vec<String>,
    pub aur_build: Vec<String>,
}

/// The clean names of `missing` that occur in `repo`, in order.
pub open spec fn classify_repo_spec(missing: Seq<Seq<char>>, repo: Seq<Seq<char>>) -> Seq<
    Seq<char>,
>
    decreases missing.len(),
{
    if missing.len() == 0 {
        Seq::empty()
    } else {
        let cl = clean_spec(missing[0]);
        let rest = classify_repo_spec(missing.drop_first(), repo);
        if repo.contains(cl) {
            seq![cl] + rest
        } else {
            rest
        }
    }
}

/// The clean names of `missing` that do not occur in `repo`, in order.
pub open spec fn classify_aur_spec(missing: Seq<Seq<char>>, repo: Seq<Seq<char>>) -> Seq<Seq<char>>
    decreases missing.len(),
{
    if missing.len() == 0 {
        Seq::empty()
    } else {
        let cl = clean_spec(missing[0]);
        let rest = classify_aur_spec(missing.drop_first(), repo);
        if repo.contains(cl) {
            rest
        } else {
            seq![cl] + rest
        }
    }
}

/// Splits the missing dependencies: a clean name found among the
/// repository names is installed from the repositories, any other is
/// built from the AUR. `missing` is the native tool's report of
/// unsatisfied dependencies; `repo_names` the names its repositories
/// offer.
pub fn classify_dependencies(missing: &Vec<String>, repo_names: &Vec<String>) -> (r: DepStatus)
    ensures
        r.repo_install.deep_view() == classify_repo_spec(missing.deep_view(), repo_names.deep_view()),
        r.aur_build.deep_view() == classify_aur_spec(missing.deep_view(), repo_names.deep_view()),
{
    let ghost mv = missing.deep_view();
    let ghost rv = repo_names.deep_view();
    let mut repo_chars: Vec<Vec<char>> = Vec::new();
    let mut i: usize = 0;
    while i < repo_names.len()
        invariant
            i <= repo_names@.len(),
            rv == repo_names.deep_view(),
            repo_chars@.len() == i,
            forall|j: int| 0 <= j < i ==> #[trigger] repo_chars@[j]@ == rv[j],
        decreases repo_names@.len() - i,
    {
        repo_chars.push(str_chars(repo_names[i].as_str()));
        i = i + 1;
    }
    assert(repo_chars@.map_values(|e: Vec<char>| e@) =~= rv);
    let mut repo_install: Vec<String> = Vec::new();
    let mut aur_build: Vec<String> = Vec::new();
    let mut k: usize = 0;
    assert(repo_install.deep_view() =~= Seq::<Seq<char>>::empty());
    assert(aur_build.deep_view() =~= Seq::<Seq<char>>::empty());
    assert(mv.skip(0) =~= mv);
    while k < missing.len()
        invariant
            k <= missing@.len(),
            mv == missing.deep_view(),
            rv == repo_names.deep_view(),
            repo_chars@.map_values(|e: Vec<char>| e@) == rv,
            classify_repo_spec(mv, rv) == repo_install.deep_view() + classify_repo_spec(
                mv.skip(k as int),
                rv,
            ),
            classify_aur_spec(mv, rv) == aur_build.deep_view() + classify_aur_spec(
                mv.skip(k as int),
                rv,
            ),
        decreases missing@.len() - k,
    {
        let chars = str_chars(missing[k].as_str());
        let cl = clean_chars(&chars);
        proof {
            assert(mv.skip(k as int)[0] == mv[k as int]);
            assert(mv.skip(k as int).drop_first() =~= mv.skip(k as int + 1));
        }
        let ghost pre_r = repo_install.deep_view();
        let ghost pre_a = aur_build.deep_view();
        if contains_chars(&repo_chars, &cl) {
            repo_install.push(chars_to_string(&cl));
            assert(repo_install.deep_view() =~= pre_r + seq![cl@]);
        } else {
            aur_build.push(chars_to_string(&cl));
            assert(aur_build.deep_view() =~= pre_a + seq![cl@]);
        }
        k = k + 1;
        assert(classify_repo_spec(mv, rv) =~~= repo_install.deep_view() + classify_repo_spec(
            mv.skip(k as int),
            rv,
        ));
        assert(classify_aur_spec(mv, rv) =~~= aur_build.deep_view() + classify_aur_spec(
            mv.skip(k as int),
            rv,
        ));
    }
    proof {
        assert(mv.skip(mv.len() as int) =~= Seq::<Seq<char>>::empty());
        assert(classify_repo_spec(mv, rv) =~~= repo_install.deep_view());
        assert(classify_aur_spec(mv, rv) =~~= aur_build.deep_view());
    }
    DepStatus { repo_install, aur_build }
}

} // verus!
