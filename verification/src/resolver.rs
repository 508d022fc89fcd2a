//! The resolver: dependency closure, classification, graph building,
//! ordering and freshness pruning over AUR source bases.
//!
//! The closure alternates outside work (repository queries, source
//! fetches, metadata parses) with decisions; the decisions live here,
//! in a state machine the driver feeds. Everything after the closure
//! is pure: graph construction, topological ordering with a sorted
//! fallback on cycles, and the freshness prune.

use vstd::prelude::*;
use vstd::string::*;
use crate::text::{
    str_chars, chars_to_string, chars_eq, contains_chars, ends_with_chars, ends_with_spec,
};
use crate::dependency::{clean_spec, constraint_free};
use crate::srcinfo::PackageMetaData;

verus! {

/// The outcome of the native version comparison.
#[derive(PartialEq, Eq, Structural, Clone, Copy, Debug)]
pub enum VerCmp {
    Less,
    Equal,
    Greater,
}

pub open spec fn suffix_git() -> Seq<char> {
    seq!['-', 'g', 'i', 't']
}

pub open spec fn suffix_hg() -> Seq<char> {
    seq!['-', 'h', 'g']
}

pub open spec fn suffix_svn() -> Seq<char> {
    seq!['-', 's', 'v', 'n']
}

pub open spec fn suffix_bzr() -> Seq<char> {
    seq!['-', 'b', 'z', 'r']
}

pub open spec fn suffix_darcs() -> Seq<char> {
    seq!['-', 'd', 'a', 'r', 'c', 's']
}

pub open spec fn suffix_cvs() -> Seq<char> {
    seq!['-', 'c', 'v', 's']
}

/// A version-controlled package, by naming convention.
pub open spec fn is_vcs_spec(name: Seq<char>) -> bool {
    ||| ends_with_spec(name, suffix_git())
    ||| ends_with_spec(name, suffix_hg())
    ||| ends_with_spec(name, suffix_svn())
    ||| ends_with_spec(name, suffix_bzr())
    ||| ends_with_spec(name, suffix_darcs())
    ||| ends_with_spec(name, suffix_cvs())
}

/// True when the name carries a version-control suffix; a `-bin`
/// suffix is not one.
pub fn is_vcs_name(name: &str) -> (r: bool)
    ensures
        r == is_vcs_spec(name@),
{
    let v = str_chars(name);
    let git: Vec<char> = vec!['-', 'g', 'i', 't'];
    let hg: Vec<char> = vec!['-', 'h', 'g'];
    let svn: Vec<char> = vec!['-', 's', 'v', 'n'];
    let bzr: Vec<char> = vec!['-', 'b', 'z', 'r'];
    let darcs: Vec<char> = vec!['-', 'd', 'a', 'r', 'c', 's'];
    let cvs: Vec<char> = vec!['-', 'c', 'v', 's'];
    proof {
        assert(git@ =~= suffix_git());
        assert(hg@ =~= suffix_hg());
        assert(svn@ =~= suffix_svn());
        assert(bzr@ =~= suffix_bzr());
        assert(darcs@ =~= suffix_darcs());
        assert(cvs@ =~= suffix_cvs());
    }
    ends_with_chars(&v, &git) || ends_with_chars(&v, &hg) || ends_with_chars(&v, &svn)
        || ends_with_chars(&v, &bzr) || ends_with_chars(&v, &darcs) || ends_with_chars(&v, &cvs)
}

pub open spec fn any_chars() -> Seq<char> {
    seq!['a', 'n', 'y']
}

/// A base builds on this machine when it names no architecture at all,
/// names `any`, or names the running architecture.
pub open spec fn arch_ok_spec(arch: Seq<Seq<char>>, cur: Seq<char>) -> bool {
    arch.len() == 0 || arch.contains(any_chars()) || arch.contains(cur)
}

/// Whether the base's architecture list admits the running one.
pub fn arch_ok(meta: &PackageMetaData, current_arch: &str) -> (r: bool)
    ensures
        r == arch_ok_spec(meta@.arch, current_arch@),
{
    if meta.arch.len() == 0 {
        return true;
    }
    let cur = str_chars(current_arch);
    let any: Vec<char> = vec!['a', 'n', 'y'];
    proof {
        assert(any@ =~= any_chars());
    }
    let ghost av = meta.arch.deep_view();
    let mut i: usize = 0;
    while i < meta.arch.len()
        invariant
            i <= meta.arch@.len(),
            av == meta.arch.deep_view(),
            cur@ == current_arch@,
            any@ == any_chars(),
            forall|j: int| 0 <= j < i ==> av[j] != any_chars() && av[j] != current_arch@,
        decreases meta.arch@.len() - i,
    {
        let e = str_chars(meta.arch[i].as_str());
        if chars_eq(&e, &any) {
            assert(av[i as int] == any_chars());
            return true;
        }
        if chars_eq(&e, &cur) {
            assert(av[i as int] == current_arch@);
            return true;
        }
        i = i + 1;
    }
    proof {
        assert(forall|j: int| 0 <= j < av.len() ==> av[j] != any_chars());
        assert(forall|j: int| 0 <= j < av.len() ==> av[j] != current_arch@);
        assert(!av.contains(any_chars()));
        assert(!av.contains(current_arch@));
    }
    false
}

/// What the driver learned about one base before the prune: for each
/// of its package names, the comparison of the installed version with
/// the source version, or nothing if it is not installed; and, for a
/// version-controlled base, whether upstream is strictly ahead.
pub struct BaseState {
    pub name: String,
    pub installed_cmp: Vec<Option<VerCmp>>,
    pub upstream_ahead: bool,
}

#[verifier::ext_equal]
pub ghost struct BaseStateV {
    pub name: Seq<char>,
    pub installed_cmp: Seq<Option<VerCmp>>,
    pub upstream_ahead: bool,
}

impl View for BaseState {
    type V = BaseStateV;

    open spec fn view(&self) -> BaseStateV {
        BaseStateV {
            name: self.name@,
            installed_cmp: self.installed_cmp@,
            upstream_ahead: self.upstream_ahead,
        }
    }
}

impl DeepView for BaseState {
    type V = BaseStateV;

    open spec fn deep_view(&self) -> BaseStateV {
        self.view()
    }
}

/// Every package name of the base is installed at the source version.
pub open spec fn all_equal(cmps: Seq<Option<VerCmp>>) -> bool {
    forall|k: int| 0 <= k < cmps.len() ==> cmps[k] == Some(VerCmp::Equal)
}

/// Every package name of the base is installed at some version.
pub open spec fn all_installed(cmps: Seq<Option<VerCmp>>) -> bool {
    forall|k: int| 0 <= k < cmps.len() ==> (#[trigger] cmps[k]) is Some
}

/// A base survives the prune when it still needs building. Only a base
/// whose every package name is installed can be fresh at all; of
/// those, a version-controlled one is stale exactly when upstream
/// moved ahead, any other exactly when some installed version differs
/// from the source version. A base with no known package names, or
/// with any uninstalled one, always stays buildable.
pub open spec fn keep_spec(b: BaseStateV) -> bool {
    if b.installed_cmp.len() == 0 || !all_installed(b.installed_cmp) {
        true
    } else if is_vcs_spec(b.name) {
        b.upstream_ahead
    } else {
        !all_equal(b.installed_cmp)
    }
}

/// The names of the bases that survive, in order.
pub open spec fn prune_spec(sts: Seq<BaseStateV>) -> Seq<Seq<char>>
    decreases sts.len(),
{
    if sts.len() == 0 {
        Seq::empty()
    } else {
        let rest = prune_spec(sts.drop_first());
        if keep_spec(sts[0]) {
            seq![sts[0].name] + rest
        } else {
            rest
        }
    }
}

/// The freshness prune over an ordered base list.
pub fn prune_fresh(states: &Vec<BaseState>) -> (r: Vec<String>)
    ensures
        r.deep_view() == prune_spec(states.deep_view()),
{
    let ghost sv = states.deep_view();
    let mut r: Vec<String> = Vec::new();
    let mut k: usize = 0;
    assert(r.deep_view() =~= Seq::<Seq<char>>::empty());
    assert(sv.skip(0) =~= sv);
    while k < states.len()
        invariant
            k <= states@.len(),
            sv == states.deep_view(),
            prune_spec(sv) == r.deep_view() + prune_spec(sv.skip(k as int)),
        decreases states@.len() - k,
    {
        proof {
            assert(sv.skip(k as int)[0] == sv[k as int]);
            assert(sv.skip(k as int).drop_first() =~= sv.skip(k as int + 1));
        }
        let st = &states[k];
        let vcs = is_vcs_name(st.name.as_str());
        let keep: bool = if st.installed_cmp.len() == 0 {
            true
        } else {
            let mut all_eq = true;
            let mut all_inst = true;
            let mut w: usize = 0;
            while w < st.installed_cmp.len()
                invariant
                    w <= st.installed_cmp@.len(),
                    all_eq == (forall|k2: int|
                        0 <= k2 < w ==> st.installed_cmp@[k2] == Some(VerCmp::Equal)),
                    all_inst == (forall|k2: int|
                        0 <= k2 < w ==> (#[trigger] st.installed_cmp@[k2]) is Some),
                decreases st.installed_cmp@.len() - w,
            {
                match st.installed_cmp[w] {
                    Some(c) => {
                        if c != VerCmp::Equal {
                            all_eq = false;
                        }
                    },
                    None => {
                        all_eq = false;
                        all_inst = false;
                    },
                };
                w = w + 1;
            }
            if !all_inst {
                true
            } else if vcs {
                st.upstream_ahead
            } else {
                !all_eq
            }
        };
        assert(keep == keep_spec(sv[k as int]));
        if keep {
            let ghost pre = r.deep_view();
            r.push(st.name.clone());
            assert(r.deep_view() =~= pre.push(sv[k as int].name));
        }
        k = k + 1;
        assert(prune_spec(sv) =~~= r.deep_view() + prune_spec(sv.skip(k as int)));
    }
    proof {
        assert(sv.skip(sv.len() as int) =~= Seq::<BaseStateV>::empty());
        assert(prune_spec(sv) =~~= r.deep_view());
    }
    r
}

/// A base whose every package name is installed at the source version,
/// and which is not version-controlled, is absent from the pruned
/// order (no other entry carrying its name).
pub proof fn lemma_prune_drops_fresh(sts: Seq<BaseStateV>, i: int)
    requires
        0 <= i < sts.len(),
        !is_vcs_spec(sts[i].name),
        sts[i].installed_cmp.len() >= 1,
        all_equal(sts[i].installed_cmp),
        forall|j: int| 0 <= j < sts.len() && j != i ==> sts[j].name != sts[i].name,
    ensures
        !prune_spec(sts).contains(sts[i].name),
    decreases sts.len(),
{
    assert(all_installed(sts[i].installed_cmp)) by {
        assert forall|k: int|
            0 <= k < sts[i].installed_cmp.len() implies (#[trigger] sts[i].installed_cmp[k])
            is Some by {
            assert(sts[i].installed_cmp[k] == Some(VerCmp::Equal));
        }
    }
    let rest = prune_spec(sts.drop_first());
    if i == 0 {
        assert(!keep_spec(sts[0]));
        assert forall|j: int| 0 <= j < sts.drop_first().len() implies sts.drop_first()[j].name
            != sts[0].name by {
            assert(sts.drop_first()[j] == sts[j + 1]);
        }
        lemma_prune_not_present(sts.drop_first(), sts[0].name);
    } else {
        assert forall|j: int|
            0 <= j < sts.drop_first().len() && j != i - 1 implies (#[trigger] sts.drop_first()[
            j
        ]).name != sts.drop_first()[i - 1].name by {
            assert(sts.drop_first()[j] == sts[j + 1]);
            assert(sts.drop_first()[i - 1] == sts[i]);
        }
        lemma_prune_drops_fresh(sts.drop_first(), i - 1);
        if keep_spec(sts[0]) {
            assert(sts[0].name != sts[i].name);
            if prune_spec(sts).contains(sts[i].name) {
                let w = choose|w: int|
                    0 <= w < prune_spec(sts).len() && prune_spec(sts)[w] == sts[i].name;
                assert(w > 0);
                assert(rest[w - 1] == sts[i].name);
                assert(rest.contains(sts[i].name));
            }
        }
    }
}

/// No name occurs twice.
pub open spec fn unique_list(ns: Seq<Seq<char>>) -> bool {
    forall|i: int, j: int| 0 <= i < j < ns.len() ==> ns[i] != ns[j]
}

/// No name of `a` occurs in `b`.
pub open spec fn disjoint_lists(a: Seq<Seq<char>>, b: Seq<Seq<char>>) -> bool {
    forall|i: int| 0 <= i < a.len() ==> !b.contains(#[trigger] a[i])
}

/// The clean names of the dependencies not yet processed, in order.
pub open spec fn enqueue_spec(deps: Seq<Seq<char>>, processed: Seq<Seq<char>>) -> Seq<Seq<char>>
    decreases deps.len(),
{
    if deps.len() == 0 {
        Seq::empty()
    } else {
        let cl = clean_spec(deps[0]);
        let rest = enqueue_spec(deps.drop_first(), processed);
        if processed.contains(cl) {
            rest
        } else {
            seq![cl] + rest
        }
    }
}

/// The entry is the clean name of one of the handled names.
pub open spec fn repo_entry_from(processed: Seq<Seq<char>>, entry: Seq<char>) -> bool {
    exists|j: int| 0 <= j < processed.len() && entry == clean_spec(#[trigger] processed[j])
}

/// The dependency closure's record: names waiting, names handled, and
/// the two classifications the driver reported.
///
/// The driver pulls a name with `next_name`, asks the native database
/// whether the repositories satisfy it, and answers with `mark_repo`
/// exactly then; otherwise it fetches and parses the source tree and
/// answers with `mark_aur`. Every name goes one way or the other, so
/// the repository names and the AUR names stay disjoint.
pub struct Resolver {
    pub worklist: Vec<String>,
    pub processed: Vec<String>,
    pub repo_deps: Vec<String>,
    pub aur_names: Vec<String>,
    pub aur_meta: Vec<PackageMetaData>,
}

impl Resolver {
    /// Names handled once each; the classified lists free of repeats
    /// and disjoint from one another; every repository entry the clean
    /// name of some handled name, so it holds no constraint character;
    /// every AUR entry a handled name itself.
    pub open spec fn wf(&self) -> bool {
        &&& unique_list(self.processed.deep_view())
        &&& unique_list(self.repo_deps.deep_view())
        &&& unique_list(self.aur_names.deep_view())
        &&& disjoint_lists(self.repo_deps.deep_view(), self.aur_names.deep_view())
        &&& self.aur_meta@.len() == self.aur_names@.len()
        &&& forall|i: int|
            0 <= i < self.repo_deps.deep_view().len() ==> repo_entry_from(
                self.processed.deep_view(),
                #[trigger] self.repo_deps.deep_view()[i],
            )
        &&& forall|i: int|
            0 <= i < self.repo_deps.deep_view().len() ==> constraint_free(
                #[trigger] self.repo_deps.deep_view()[i],
            )
        &&& forall|i: int|
            0 <= i < self.aur_names.deep_view().len() ==> self.processed.deep_view().contains(
                #[trigger] self.aur_names.deep_view()[i],
            )
    }

    /// A fresh closure over the requested names.
    pub fn new(targets: Vec<String>) -> (r: Self)
        ensures
            r.wf(),
            r.worklist.deep_view() == targets.deep_view(),
            r.processed.deep_view() == Seq::<Seq<char>>::empty(),
            r.repo_deps.deep_view() == Seq::<Seq<char>>::empty(),
            r.aur_names.deep_view() == Seq::<Seq<char>>::empty(),
    {
        let r = Resolver {
            worklist: targets,
            processed: Vec::new(),
            repo_deps: Vec::new(),
            aur_names: Vec::new(),
            aur_meta: Vec::new(),
        };
        proof {
            assert(r.processed.deep_view() =~= Seq::<Seq<char>>::empty());
            assert(r.repo_deps.deep_view() =~= Seq::<Seq<char>>::empty());
            assert(r.aur_names.deep_view() =~= Seq::<Seq<char>>::empty());
        }
        r
    }

    /// The next name not yet handled, now marked handled, after any
    /// names already handled are dropped from the back of the
    /// worklist; or nothing once every waiting name was handled.
    pub fn next_name(&mut self) -> (r: Option<String>)
        requires
            old(self).wf(),
        ensures
            final(self).wf(),
            final(self).repo_deps == old(self).repo_deps,
            final(self).aur_names == old(self).aur_names,
            final(self).aur_meta == old(self).aur_meta,
            match r {
                Some(n) => !old(self).processed.deep_view().contains(n@) && final(self).processed.deep_view() == old(self).processed.deep_view().push(n@)
                    && (exists|j: int|
                    0 <= j < old(self).worklist.deep_view().len() && n@ == old(
                        self,
                    ).worklist.deep_view()[j] && final(self).worklist.deep_view() == old(
                        self,
                    ).worklist.deep_view().subrange(0, j) && (forall|i: int|
                        j < i < old(self).worklist.deep_view().len() ==> old(
                            self,
                        ).processed.deep_view().contains(
                            #[trigger] old(self).worklist.deep_view()[i],
                        ))),
                None => final(self).processed == old(self).processed && final(self).worklist@.len()
                    == 0 && (forall|i: int|
                    0 <= i < old(self).worklist.deep_view().len() ==> old(
                        self,
                    ).processed.deep_view().contains(#[trigger] old(self).worklist.deep_view()[i])),
            },
    {
        let ghost wv0 = old(self).worklist.deep_view();
        let ghost pv0 = old(self).processed.deep_view();
        assert(self.worklist.deep_view() =~= wv0.subrange(0, self.worklist@.len() as int));
        loop
            invariant
                self.wf(),
                self.repo_deps == old(self).repo_deps,
                self.aur_names == old(self).aur_names,
                self.aur_meta == old(self).aur_meta,
                self.processed == old(self).processed,
                wv0 == old(self).worklist.deep_view(),
                pv0 == old(self).processed.deep_view(),
                self.worklist@.len() <= wv0.len(),
                self.worklist.deep_view() == wv0.subrange(0, self.worklist@.len() as int),
                forall|i: int|
                    self.worklist@.len() <= i < wv0.len() ==> pv0.contains(#[trigger] wv0[i]),
            decreases self.worklist@.len(),
        {
            let ghost pre_len = self.worklist@.len() as int;
            let next = self.worklist.pop();
            match next {
                None => {
                    return None;
                },
                Some(n) => {
                    proof {
                        assert(pre_len >= 1);
                        assert(n@ == wv0.subrange(0, pre_len)[pre_len - 1]);
                        assert(n@ == wv0[pre_len - 1]);
                        assert(self.worklist.deep_view() =~= wv0.subrange(0, pre_len - 1));
                    }
                    let chars = str_chars(n.as_str());
                    if !crate::text::contains_str(&self.processed, &chars) {
                        let ghost pre = self.processed.deep_view();
                        self.processed.push(n.clone());
                        proof {
                            assert(self.processed.deep_view() =~= pre.push(n@));
                            assert forall|i: int, j: int|
                                0 <= i < j < self.processed.deep_view().len() implies self.processed.deep_view()[i]
                                != self.processed.deep_view()[j] by {
                                if j < self.processed.deep_view().len() - 1 {
                                    assert(pre[i] != pre[j]);
                                } else {
                                    assert(pre[i] != n@);
                                }
                            }
                            assert forall|i: int|
                                0 <= i < self.repo_deps.deep_view().len() implies repo_entry_from(
                                self.processed.deep_view(),
                                #[trigger] self.repo_deps.deep_view()[i],
                            ) by {
                                assert(repo_entry_from(pre, self.repo_deps.deep_view()[i]));
                                let w = choose|w: int|
                                    0 <= w < pre.len() && self.repo_deps.deep_view()[i]
                                        == clean_spec(#[trigger] pre[w]);
                                assert(self.processed.deep_view()[w] == pre[w]);
                            }
                            assert forall|i: int|
                                0 <= i < self.aur_names.deep_view().len() implies self.processed.deep_view().contains(
                                #[trigger] self.aur_names.deep_view()[i],
                            ) by {
                                assert(pre.contains(self.aur_names.deep_view()[i]));
                                let w = choose|w: int|
                                    0 <= w < pre.len() && pre[w] == self.aur_names.deep_view()[i];
                                assert(self.processed.deep_view()[w] == pre[w]);
                            }
                        }
                        proof {
                            let j = pre_len - 1;
                            assert(n@ == wv0[j]);
                            assert(self.worklist.deep_view() == wv0.subrange(0, j));
                            assert(forall|i: int| j < i < wv0.len() ==> pv0.contains(#[trigger] wv0[i]));
                        }
                        return Some(n);
                    }
                    proof {
                        assert(pv0.contains(wv0[pre_len - 1]));
                        assert forall|i: int|
                            self.worklist@.len() <= i < wv0.len() implies pv0.contains(
                            #[trigger] wv0[i],
                        ) by {
                            if i > pre_len - 1 {
                                assert(pv0.contains(wv0[i]));
                            }
                        }
                    }
                },
            }
        }
    }

    /// Records that the sync repositories satisfy `name`: its clean
    /// name joins the batch, once; the driver calls this exactly when
    /// the native database said so.
    pub fn mark_repo(&mut self, name: &str)
        requires
            old(self).wf(),
            old(self).processed.deep_view().contains(name@),
        ensures
            final(self).wf(),
            final(self).processed == old(self).processed,
            final(self).aur_names == old(self).aur_names,
            final(self).aur_meta == old(self).aur_meta,
            final(self).worklist == old(self).worklist,
            final(self).repo_deps.deep_view() == if old(self).aur_names.deep_view().contains(
                clean_spec(name@),
            ) {
                old(self).repo_deps.deep_view()
            } else {
                crate::graph::add_name_spec(old(self).repo_deps.deep_view(), clean_spec(name@))
            },
    {
        let chars = str_chars(name);
        let cl = crate::dependency::clean_chars(&chars);
        if crate::text::contains_str(&self.aur_names, &cl) {
            return ;
        }
        if crate::text::contains_str(&self.repo_deps, &cl) {
            return ;
        }
        let ghost pre = self.repo_deps.deep_view();
        let ghost pv = self.processed.deep_view();
        self.repo_deps.push(chars_to_string(&cl));
        proof {
            let now = self.repo_deps.deep_view();
            assert(now =~= pre.push(clean_spec(name@)));
            assert forall|i: int, j: int| 0 <= i < j < now.len() implies now[i] != now[j] by {
                if j < now.len() - 1 {
                    assert(pre[i] != pre[j]);
                } else {
                    assert(pre[i] != clean_spec(name@));
                }
            }
            assert forall|i: int|
                0 <= i < now.len() implies repo_entry_from(pv, #[trigger] now[i]) by {
                if i < now.len() - 1 {
                    assert(repo_entry_from(pv, pre[i]));
                } else {
                    let w = choose|w: int| 0 <= w < pv.len() && pv[w] == name@;
                    assert(now[i] == clean_spec(pv[w]));
                }
            }
            assert forall|i: int|
                0 <= i < now.len() implies constraint_free(#[trigger] now[i]) by {
                if i < now.len() - 1 {
                    assert(constraint_free(pre[i]));
                } else {
                    crate::dependency::lemma_clean_constraint_free(name@);
                }
            }
            assert forall|i: int|
                0 <= i < now.len() implies !self.aur_names.deep_view().contains(
                #[trigger] now[i],
            ) by {
                if i < now.len() - 1 {
                    assert(!self.aur_names.deep_view().contains(pre[i]));
                }
            }
        }
    }

    /// Records the metadata of an AUR name, and queues the clean names
    /// of its dependencies that were not handled yet, reversed, so that
    /// the back-popping worklist explores them depth-first in list
    /// order; the driver calls this exactly when the repositories did
    /// not satisfy the name and the source tree parsed.
    pub fn mark_aur(&mut self, name: &str, meta: PackageMetaData)
        requires
            old(self).wf(),
            old(self).processed.deep_view().contains(name@),
        ensures
            final(self).wf(),
            final(self).processed == old(self).processed,
            final(self).repo_deps == old(self).repo_deps,
            old(self).aur_names.deep_view().contains(name@) || old(self).repo_deps.deep_view().contains(name@) ==> final(self).aur_names == old(self).aur_names && final(self).aur_meta == old(self).aur_meta && final(self).worklist
                == old(self).worklist,
            !(old(self).aur_names.deep_view().contains(name@) || old(self).repo_deps.deep_view().contains(name@)) ==> {
                &&& final(self).aur_names.deep_view() == old(self).aur_names.deep_view().push(
                    name@,
                )
                &&& final(self).aur_meta.deep_view() == old(self).aur_meta.deep_view().push(meta@)
                &&& final(self).worklist.deep_view() == old(self).worklist.deep_view()
                    + (enqueue_spec(meta@.depends, old(self).processed.deep_view())
                    + enqueue_spec(meta@.make_depends, old(self).processed.deep_view())).reverse()
            },
    {
        let chars = str_chars(name);
        if crate::text::contains_str(&self.aur_names, &chars) {
            return ;
        }
        if crate::text::contains_str(&self.repo_deps, &chars) {
            return ;
        }
        let ghost pre = self.aur_names.deep_view();
        let ghost pre_m = self.aur_meta.deep_view();
        self.aur_names.push(String::from_str(name));
        proof {
            assert(self.aur_names.deep_view() =~= pre.push(name@));
            assert(self.aur_meta.deep_view() =~= pre_m);
        }
        let mut queued: Vec<String> = Vec::new();
        assert(queued.deep_view() =~= Seq::<Seq<char>>::empty());
        enqueue_deps(&mut queued, &meta.depends, &self.processed);
        enqueue_deps(&mut queued, &meta.make_depends, &self.processed);
        let ghost qv = queued.deep_view();
        assert(qv =~= enqueue_spec(meta.deep_view().depends, self.processed.deep_view())
            + enqueue_spec(meta.deep_view().make_depends, self.processed.deep_view()));
        let ghost wl0 = self.worklist.deep_view();
        loop
            invariant
                qv == enqueue_spec(meta.deep_view().depends, self.processed.deep_view())
                    + enqueue_spec(meta.deep_view().make_depends, self.processed.deep_view()),
                queued.deep_view() == qv.subrange(0, queued@.len() as int),
                queued@.len() <= qv.len(),
                self.worklist.deep_view() == wl0 + qv.skip(queued@.len() as int).reverse(),
                self.processed == old(self).processed,
                self.repo_deps == old(self).repo_deps,
                self.aur_names.deep_view() == old(self).aur_names.deep_view().push(name@),
                self.aur_meta == old(self).aur_meta,
            ensures
                queued@.len() == 0,
            decreases queued@.len(),
        {
            let ghost qlen = queued@.len() as int;
            match queued.pop() {
                None => {
                    proof {
                        assert(queued@.len() == 0);
                        assert(qv.skip(0) =~= qv);
                        assert(self.worklist.deep_view() == wl0 + qv.skip(0).reverse());
                        assert(self.worklist.deep_view() =~= wl0 + qv.reverse());
                    }
                    break;
                },
                Some(q) => {
                    proof {
                        assert(q@ == qv.subrange(0, qlen)[qlen - 1]);
                        assert(q@ == qv[qlen - 1]);
                        assert(queued.deep_view() =~= qv.subrange(0, qlen - 1));
                    }
                    let ghost pre_wl = self.worklist.deep_view();
                    self.worklist.push(q);
                    proof {
                        assert(self.worklist.deep_view() =~= pre_wl.push(qv[qlen - 1]));
                        assert(qv.skip(qlen - 1) =~= seq![qv[qlen - 1]] + qv.skip(qlen));
                        assert(qv.skip(qlen - 1).reverse() =~= qv.skip(qlen).reverse() + seq![
                            qv[qlen - 1],
                        ]);
                        assert(self.worklist.deep_view() =~= wl0 + qv.skip(qlen - 1).reverse());
                    }
                },
            }
        }
        self.aur_meta.push(meta);
        proof {
            assert(qv.skip(0) =~= qv);
            assert(self.worklist.deep_view() == wl0 + qv.skip(0).reverse());
            assert(self.worklist.deep_view() =~= wl0 + qv.reverse());
        }
        proof {
            assert(self.aur_meta.deep_view() =~= pre_m.push(
                self.aur_meta@[self.aur_meta@.len() - 1]@,
            ));
            assert forall|i: int, j: int|
                0 <= i < j < self.aur_names.deep_view().len() implies self.aur_names.deep_view()[i]
                != self.aur_names.deep_view()[j] by {
                if j < self.aur_names.deep_view().len() - 1 {
                    assert(pre[i] != pre[j]);
                } else {
                    assert(pre[i] != name@);
                }
            }
            assert forall|i: int|
                0 <= i < self.repo_deps.deep_view().len() implies !self.aur_names.deep_view().contains(
                #[trigger] self.repo_deps.deep_view()[i],
            ) by {
                assert(!pre.contains(self.repo_deps.deep_view()[i]));
                if self.aur_names.deep_view().contains(self.repo_deps.deep_view()[i]) {
                    let w = choose|w: int|
                        0 <= w < self.aur_names.deep_view().len()
                            && self.aur_names.deep_view()[w] == self.repo_deps.deep_view()[i];
                    if w < self.aur_names.deep_view().len() - 1 {
                        assert(pre[w] == self.repo_deps.deep_view()[i]);
                        assert(pre.contains(self.repo_deps.deep_view()[i]));
                    }
                }
            }
        }
    }
}

/// Queues the clean names of `deps` that were not handled yet.
fn enqueue_deps(worklist: &mut Vec<String>, deps: &Vec<String>, processed: &Vec<String>)
    ensures
        final(worklist).deep_view() == old(worklist).deep_view() + enqueue_spec(
            deps.deep_view(),
            processed.deep_view(),
        ),
{
    let ghost dv = deps.deep_view();
    let ghost pv = processed.deep_view();
    let mut k: usize = 0;
    assert(dv.skip(0) =~= dv);
    assert(old(worklist).deep_view() + Seq::<Seq<char>>::empty() =~= old(worklist).deep_view());
    while k < deps.len()
        invariant
            k <= deps@.len(),
            dv == deps.deep_view(),
            pv == processed.deep_view(),
            worklist.deep_view() + enqueue_spec(dv.skip(k as int), pv) == old(
                worklist,
            ).deep_view() + enqueue_spec(dv, pv),
        decreases deps@.len() - k,
    {
        proof {
            assert(dv.skip(k as int)[0] == dv[k as int]);
            assert(dv.skip(k as int).drop_first() =~= dv.skip(k as int + 1));
        }
        let chars = str_chars(deps[k].as_str());
        let cl = crate::dependency::clean_chars(&chars);
        if !crate::text::contains_str(processed, &cl) {
            let ghost pre = worklist.deep_view();
            worklist.push(chars_to_string(&cl));
            assert(worklist.deep_view() =~= pre.push(clean_spec(dv[k as int])));
        }
        k = k + 1;
        assert(worklist.deep_view() + enqueue_spec(dv.skip(k as int), pv) =~~= old(
            worklist,
        ).deep_view() + enqueue_spec(dv, pv));
    }
    proof {
        assert(dv.skip(dv.len() as int) =~= Seq::<Seq<char>>::empty());
        assert(worklist.deep_view() + enqueue_spec(dv.skip(dv.len() as int), pv)
            =~= worklist.deep_view());
    }
}

/// A base with any package name uninstalled, or none known, is never
/// pruned: a first install of a version-controlled base still builds.
pub proof fn lemma_prune_keeps_uninstalled(sts: Seq<BaseStateV>, i: int)
    requires
        0 <= i < sts.len(),
        sts[i].installed_cmp.len() == 0 || !all_installed(sts[i].installed_cmp),
    ensures
        prune_spec(sts).contains(sts[i].name),
    decreases sts.len(),
{
    let rest = prune_spec(sts.drop_first());
    if i == 0 {
        assert(keep_spec(sts[0]));
        assert(prune_spec(sts)[0] == sts[0].name);
    } else {
        assert(sts.drop_first()[i - 1] == sts[i]);
        lemma_prune_keeps_uninstalled(sts.drop_first(), i - 1);
        let w = choose|w: int| 0 <= w < rest.len() && rest[w] == sts[i].name;
        if keep_spec(sts[0]) {
            assert(prune_spec(sts)[w + 1] == sts[i].name);
        } else {
            assert(prune_spec(sts)[w] == sts[i].name);
        }
    }
}

/// A name carried by no entry of the list is absent from the pruned
/// order.
proof fn lemma_prune_not_present(sts: Seq<BaseStateV>, n: Seq<char>)
    requires
        forall|j: int| 0 <= j < sts.len() ==> sts[j].name != n,
    ensures
        !prune_spec(sts).contains(n),
    decreases sts.len(),
{
    if sts.len() > 0 {
        assert forall|j: int| 0 <= j < sts.drop_first().len() implies sts.drop_first()[j].name
            != n by {
            assert(sts.drop_first()[j] == sts[j + 1]);
        }
        lemma_prune_not_present(sts.drop_first(), n);
        let rest = prune_spec(sts.drop_first());
        if keep_spec(sts[0]) {
            if prune_spec(sts).contains(n) {
                let w = choose|w: int|
                    0 <= w < prune_spec(sts).len() && prune_spec(sts)[w] == n;
                if w == 0 {
                    assert(sts[0].name == n);
                } else {
                    assert(rest[w - 1] == n);
                    assert(rest.contains(n));
                }
            }
        }
    }
}


/// Lexicographic order on names, by code point.
pub open spec fn lex_le(a: Seq<char>, b: Seq<char>) -> bool
    decreases a.len(),
{
    if a.len() == 0 {
        true
    } else if b.len() == 0 {
        false
    } else if a[0] != b[0] {
        (a[0] as int) < (b[0] as int)
    } else {
        lex_le(a.drop_first(), b.drop_first())
    }
}

proof fn lemma_lex_total(a: Seq<char>, b: Seq<char>)
    ensures
        lex_le(a, b) || lex_le(b, a),
    decreases a.len(),
{
    if a.len() > 0 && b.len() > 0 && a[0] == b[0] {
        lemma_lex_total(a.drop_first(), b.drop_first());
    }
}

proof fn lemma_lex_trans(a: Seq<char>, b: Seq<char>, c: Seq<char>)
    requires
        lex_le(a, b),
        lex_le(b, c),
    ensures
        lex_le(a, c),
    decreases a.len(),
{
    if a.len() > 0 {
        if b.len() > 0 && c.len() > 0 && a[0] == b[0] && b[0] == c[0] {
            lemma_lex_trans(a.drop_first(), b.drop_first(), c.drop_first());
        }
    }
}

/// Equal prefixes do not decide the order.
proof fn lemma_lex_skip(a: Seq<char>, b: Seq<char>, i: int)
    requires
        0 <= i <= a.len(),
        i <= b.len(),
        forall|j: int| 0 <= j < i ==> a[j] == b[j],
    ensures
        lex_le(a, b) == lex_le(a.skip(i), b.skip(i)),
    decreases i,
{
    if i > 0 {
        assert(a[0] == b[0]);
        lemma_lex_skip(a.drop_first(), b.drop_first(), i - 1);
        assert(a.drop_first().skip(i - 1) =~= a.skip(i));
        assert(b.drop_first().skip(i - 1) =~= b.skip(i));
    } else {
        assert(a.skip(0) =~= a);
        assert(b.skip(0) =~= b);
    }
}

/// Lexicographic comparison of two names, by code point.
fn str_le(a: &String, b: &String) -> (r: bool)
    ensures
        r == lex_le(a@, b@),
{
    let av = crate::text::str_chars(a.as_str());
    let bv = crate::text::str_chars(b.as_str());
    let mut i: usize = 0;
    while i < av.len() && i < bv.len()
        invariant
            i <= av@.len(),
            i <= bv@.len(),
            av@ == a@,
            bv@ == b@,
            forall|j: int| 0 <= j < i ==> av@[j] == bv@[j],
        decreases av@.len() - i,
    {
        let ca = av[i];
        let cb = bv[i];
        if ca != cb {
            proof {
                lemma_lex_skip(av@, bv@, i as int);
                assert(av@.skip(i as int)[0] == av@[i as int]);
                assert(bv@.skip(i as int)[0] == bv@[i as int]);
                assert(av@.skip(i as int).len() > 0 && bv@.skip(i as int).len() > 0);
            }
            return ca < cb;
        }
        i = i + 1;
    }
    proof {
        lemma_lex_skip(av@, bv@, i as int);
        if i == av@.len() {
            assert(av@.skip(i as int).len() == 0);
        } else {
            assert(bv@.skip(i as int).len() == 0);
            assert(av@.skip(i as int).len() > 0);
        }
    }
    av.len() <= bv.len()
}

pub open spec fn sorted_lex(ns: Seq<Seq<char>>) -> bool {
    forall|i: int, j: int| 0 <= i < j < ns.len() ==> lex_le(#[trigger] ns[i], #[trigger] ns[j])
}

/// Keeps `v` sorted and free of repeats while adding the new name `x`.
fn insert_name(v: &mut Vec<String>, x: String)
    requires
        sorted_lex(old(v).deep_view()),
        unique_list(old(v).deep_view()),
        !old(v).deep_view().contains(x@),
    ensures
        sorted_lex(final(v).deep_view()),
        unique_list(final(v).deep_view()),
        final(v).deep_view().len() == old(v).deep_view().len() + 1,
        forall|n: Seq<char>|
            final(v).deep_view().contains(n) <==> (old(v).deep_view().contains(n) || n == x@),
{
    let ghost pre = v.deep_view();
    let mut pos: usize = 0;
    while pos < v.len() && str_le(&v[pos], &x)
        invariant
            pos <= v@.len(),
            pre == v.deep_view(),
            forall|j: int| 0 <= j < pos ==> lex_le(#[trigger] pre[j], x@),
        decreases v@.len() - pos,
    {
        pos = pos + 1;
    }
    proof {
        if pos < pre.len() {
            lemma_lex_total(pre[pos as int], x@);
            assert(lex_le(x@, pre[pos as int]));
        }
    }
    v.insert(pos, x);
    proof {
        let now = v.deep_view();
        assert(now =~= pre.subrange(0, pos as int) + seq![x@] + pre.subrange(
            pos as int,
            pre.len() as int,
        ));
        assert forall|i: int, j: int| 0 <= i < j < now.len() implies lex_le(
            #[trigger] now[i],
            #[trigger] now[j],
        ) by {
            if i < pos && j < pos {
                assert(now[i] == pre[i] && now[j] == pre[j]);
            } else if i < pos && j == pos {
                assert(now[i] == pre[i] && now[j] == x@);
            } else if i < pos && j > pos {
                assert(now[i] == pre[i] && now[j] == pre[j - 1]);
                if pos <= j - 1 {
                    assert(lex_le(pre[i], x@));
                    assert(lex_le(x@, pre[pos as int]));
                    if pos < j - 1 {
                        assert(lex_le(pre[pos as int], pre[j - 1]));
                        lemma_lex_trans(x@, pre[pos as int], pre[j - 1]);
                    }
                    lemma_lex_trans(pre[i], x@, pre[j - 1]);
                }
            } else if i == pos && j > pos {
                assert(now[i] == x@ && now[j] == pre[j - 1]);
                assert(lex_le(x@, pre[pos as int]));
                if pos < j - 1 {
                    assert(lex_le(pre[pos as int], pre[j - 1]));
                    lemma_lex_trans(x@, pre[pos as int], pre[j - 1]);
                }
            } else {
                assert(now[i] == pre[i - 1] && now[j] == pre[j - 1]);
            }
        }
        assert forall|n: Seq<char>|
            now.contains(n) <==> (pre.contains(n) || n == x@) by {
            if now.contains(n) {
                let w = choose|w: int| 0 <= w < now.len() && now[w] == n;
                if w < pos {
                    assert(pre[w] == n);
                } else if w > pos {
                    assert(pre[w - 1] == n);
                }
            }
            if pre.contains(n) {
                let w = choose|w: int| 0 <= w < pre.len() && pre[w] == n;
                if w < pos {
                    assert(now[w] == n);
                } else {
                    assert(now[w + 1] == n);
                }
            }
            if n == x@ {
                assert(now[pos as int] == n);
            }
        }
        assert forall|i: int, j: int| 0 <= i < j < now.len() implies now[i] != now[j] by {
            if i < pos && j < pos {
                assert(now[i] == pre[i] && now[j] == pre[j]);
            } else if i < pos && j == pos {
                assert(now[i] == pre[i]);
                assert(pre.contains(pre[i]));
            } else if i < pos && j > pos {
                assert(now[i] == pre[i] && now[j] == pre[j - 1]);
            } else if i == pos {
                assert(now[j] == pre[j - 1]);
                assert(pre.contains(pre[j - 1]));
            } else {
                assert(now[i] == pre[i - 1] && now[j] == pre[j - 1]);
            }
        }
    }
}

/// The names in ascending lexicographic order; repeats are not
/// expected and none are produced.
pub fn sort_names(v: &Vec<String>) -> (r: Vec<String>)
    requires
        unique_list(v.deep_view()),
    ensures
        sorted_lex(r.deep_view()),
        unique_list(r.deep_view()),
        r.deep_view().len() == v.deep_view().len(),
        forall|n: Seq<char>| r.deep_view().contains(n) <==> v.deep_view().contains(n),
{
    let ghost vv = v.deep_view();
    let mut r: Vec<String> = Vec::new();
    let mut k: usize = 0;
    assert(r.deep_view() =~= Seq::<Seq<char>>::empty());
    while k < v.len()
        invariant
            k <= v@.len(),
            vv == v.deep_view(),
            unique_list(vv),
            sorted_lex(r.deep_view()),
            unique_list(r.deep_view()),
            r.deep_view().len() == k,
            forall|n: Seq<char>|
                r.deep_view().contains(n) <==> vv.subrange(0, k as int).contains(n),
        decreases v@.len() - k,
    {
        let x = v[k].clone();
        proof {
            if r.deep_view().contains(x@) {
                assert(vv.subrange(0, k as int).contains(x@));
                let w = choose|w: int| 0 <= w < k && vv.subrange(0, k as int)[w] == x@;
                assert(vv[w] == x@);
                assert(vv[k as int] == x@);
            }
        }
        insert_name(&mut r, x);
        k = k + 1;
        proof {
            let ghost now_pre = vv.subrange(0, k as int);
            let ghost older = vv.subrange(0, k as int - 1);
            assert forall|n: Seq<char>| r.deep_view().contains(n) <==> now_pre.contains(n) by {
                if now_pre.contains(n) {
                    let w = choose|w: int| 0 <= w < now_pre.len() && now_pre[w] == n;
                    if w < k - 1 {
                        assert(older[w] == n);
                        assert(older.contains(n));
                    } else {
                        assert(n == vv[k - 1]);
                    }
                }
                if older.contains(n) {
                    let w = choose|w: int| 0 <= w < older.len() && older[w] == n;
                    assert(now_pre[w] == n);
                }
                if n == vv[k - 1] {
                    assert(now_pre[k - 1] == n);
                }
            }
        }
    }
    proof {
        assert(vv.subrange(0, vv.len() as int) =~= vv);
    }
    r
}


/// The distinct `pkgbase` names of the collected metadata, in first
/// appearance order: exactly the bases the plan must build.
pub open spec fn bases_spec(metas: Seq<crate::srcinfo::MetaV>) -> Seq<Seq<char>>
    decreases metas.len(),
{
    if metas.len() == 0 {
        Seq::empty()
    } else {
        crate::graph::add_name_spec(bases_spec(metas.drop_last()), metas.last().pkgbase)
    }
}

/// Some index entry records exactly this package name and base.
pub open spec fn idx_has(
    inames: Seq<Seq<char>>,
    ibases: Seq<Seq<char>>,
    name: Seq<char>,
    base: Seq<char>,
) -> bool {
    exists|w: int| 0 <= w < inames.len() && #[trigger] inames[w] == name && ibases[w] == base
}

/// Some index entry records this package name.
pub open spec fn idx_matches(inames: Seq<Seq<char>>, cl: Seq<char>) -> bool {
    exists|w: int| 0 <= w < inames.len() && #[trigger] inames[w] == cl
}

/// One index entry is truthful: some collected base owns the name.
pub open spec fn idx_entry_ok(
    mv: Seq<crate::srcinfo::MetaV>,
    name: Seq<char>,
    base: Seq<char>,
) -> bool {
    exists|m2: int|
        0 <= m2 < mv.len() && (#[trigger] mv[m2].pkgnames).contains(name) && base
            == mv[m2].pkgbase
}

/// Every index entry is truthful.
pub open spec fn idx_sound(
    mv: Seq<crate::srcinfo::MetaV>,
    inames: Seq<Seq<char>>,
    ibases: Seq<Seq<char>>,
) -> bool {
    &&& inames.len() == ibases.len()
    &&& forall|w: int|
        0 <= w < inames.len() ==> idx_entry_ok(mv, #[trigger] inames[w], ibases[w])
}

/// Every package name of the first `k` collected bases is recorded.
pub open spec fn idx_complete_upto(
    mv: Seq<crate::srcinfo::MetaV>,
    k: int,
    inames: Seq<Seq<char>>,
    ibases: Seq<Seq<char>>,
) -> bool {
    forall|m2: int, q: int|
        0 <= m2 < k && 0 <= q < mv[m2].pkgnames.len() ==> idx_has(
            inames,
            ibases,
            #[trigger] mv[m2].pkgnames[q],
            mv[m2].pkgbase,
        )
}

/// Some collected base owns this package name.
pub open spec fn owner_exists(mv: Seq<crate::srcinfo::MetaV>, cl: Seq<char>) -> bool {
    exists|m2: int| 0 <= m2 < mv.len() && (#[trigger] mv[m2].pkgnames).contains(cl)
}

/// An edge the index level accounts for, given the dependency it came
/// from: from the recorded source to a recorded owner of the clean
/// name, or to the base so named.
pub open spec fn idx_edge_justified(
    inames: Seq<Seq<char>>,
    ibases: Seq<Seq<char>>,
    nodes: Seq<Seq<char>>,
    src: Seq<char>,
    cl: Seq<char>,
    e: (int, int),
) -> bool {
    e.0 == crate::graph::idx_of(nodes, src) && ((exists|w: int|
        0 <= w < inames.len() && #[trigger] inames[w] == cl && e.1 == crate::graph::idx_of(
            nodes,
            ibases[w],
        )) || (nodes.contains(cl) && e.1 == crate::graph::idx_of(nodes, cl)))
}

/// An edge one dependency of one base accounts for, at the metadata
/// level.
pub open spec fn meta_edge_for(
    mv: Seq<crate::srcinfo::MetaV>,
    nodes: Seq<Seq<char>>,
    src: Seq<char>,
    cl: Seq<char>,
    e: (int, int),
) -> bool {
    e.0 == crate::graph::idx_of(nodes, src) && ((exists|m2: int|
        0 <= m2 < mv.len() && (#[trigger] mv[m2].pkgnames).contains(cl) && e.1
            == crate::graph::idx_of(nodes, mv[m2].pkgbase)) || (nodes.contains(cl) && e.1
        == crate::graph::idx_of(nodes, cl)))
}

/// An edge some collected dependency accounts for: the graph holds no
/// others.
pub open spec fn edge_justified(
    mv: Seq<crate::srcinfo::MetaV>,
    nodes: Seq<Seq<char>>,
    e: (int, int),
) -> bool {
    exists|m: int, d: int|
        0 <= m < mv.len() && #[trigger] meta_justified_by(mv, nodes, m, d, e)
}

/// The dependency `d` of base `m` accounts for `e`, at the index level.
pub open spec fn justified_by(
    mv: Seq<crate::srcinfo::MetaV>,
    inames: Seq<Seq<char>>,
    ibases: Seq<Seq<char>>,
    nodes: Seq<Seq<char>>,
    m: int,
    d: int,
    e: (int, int),
) -> bool {
    ||| (0 <= d < mv[m].depends.len() && idx_edge_justified(
        inames,
        ibases,
        nodes,
        mv[m].pkgbase,
        clean_spec(mv[m].depends[d]),
        e,
    ))
    ||| (0 <= d < mv[m].make_depends.len() && idx_edge_justified(
        inames,
        ibases,
        nodes,
        mv[m].pkgbase,
        clean_spec(mv[m].make_depends[d]),
        e,
    ))
}

/// Some dependency of one of the first `k` collected bases accounts
/// for `e`, at the index level.
pub open spec fn idx_edge_justified_upto(
    mv: Seq<crate::srcinfo::MetaV>,
    inames: Seq<Seq<char>>,
    ibases: Seq<Seq<char>>,
    nodes: Seq<Seq<char>>,
    k: int,
    e: (int, int),
) -> bool {
    exists|m: int, d: int|
        0 <= m < k && #[trigger] justified_by(mv, inames, ibases, nodes, m, d, e)
}

/// The dependency `d` of base `m` accounts for `e`, at the metadata
/// level.
pub open spec fn meta_justified_by(
    mv: Seq<crate::srcinfo::MetaV>,
    nodes: Seq<Seq<char>>,
    m: int,
    d: int,
    e: (int, int),
) -> bool {
    ||| (0 <= d < mv[m].depends.len() && meta_edge_for(
        mv,
        nodes,
        mv[m].pkgbase,
        clean_spec(mv[m].depends[d]),
        e,
    ))
    ||| (0 <= d < mv[m].make_depends.len() && meta_edge_for(
        mv,
        nodes,
        mv[m].pkgbase,
        clean_spec(mv[m].make_depends[d]),
        e,
    ))
}

/// An index-level account, carried to the metadata level.
proof fn lemma_idx_justified_to_meta(
    mv: Seq<crate::srcinfo::MetaV>,
    inames: Seq<Seq<char>>,
    ibases: Seq<Seq<char>>,
    nodes: Seq<Seq<char>>,
    src: Seq<char>,
    cl: Seq<char>,
    e: (int, int),
)
    requires
        idx_sound(mv, inames, ibases),
        idx_edge_justified(inames, ibases, nodes, src, cl, e),
    ensures
        meta_edge_for(mv, nodes, src, cl, e),
{
    if exists|w: int|
        0 <= w < inames.len() && #[trigger] inames[w] == cl && e.1 == crate::graph::idx_of(
            nodes,
            ibases[w],
        ) {
        let w = choose|w: int|
            0 <= w < inames.len() && #[trigger] inames[w] == cl && e.1 == crate::graph::idx_of(
                nodes,
                ibases[w],
            );
        assert(idx_entry_ok(mv, inames[w], ibases[w]));
        let m2 = choose|m2: int|
            0 <= m2 < mv.len() && (#[trigger] mv[m2].pkgnames).contains(inames[w]) && ibases[w]
                == mv[m2].pkgbase;
        assert(mv[m2].pkgnames.contains(cl) && e.1 == crate::graph::idx_of(
            nodes,
            mv[m2].pkgbase,
        ));
    }
}

/// The edge one dependency demands, at the index level: where some
/// recorded package name equals the clean name, an edge to a recorded
/// owner; where none does but the name is itself a base, an edge to
/// it; elsewhere nothing.
pub open spec fn idx_dep_edge_ok(
    inames: Seq<Seq<char>>,
    ibases: Seq<Seq<char>>,
    nodes: Seq<Seq<char>>,
    edges: Set<(int, int)>,
    src: Seq<char>,
    cl: Seq<char>,
) -> bool {
    if idx_matches(inames, cl) {
        exists|w: int|
            0 <= w < inames.len() && #[trigger] inames[w] == cl && edges.contains(
                (crate::graph::idx_of(nodes, src), crate::graph::idx_of(nodes, ibases[w])),
            )
    } else if nodes.contains(cl) {
        edges.contains((crate::graph::idx_of(nodes, src), crate::graph::idx_of(nodes, cl)))
    } else {
        true
    }
}

/// The edge one dependency demands, at the metadata level: to some
/// base owning the clean name as a package name, or to the base so
/// named, or none when the name is no AUR base at all.
pub open spec fn dep_edge_ok(
    mv: Seq<crate::srcinfo::MetaV>,
    nodes: Seq<Seq<char>>,
    edges: Set<(int, int)>,
    src: Seq<char>,
    cl: Seq<char>,
) -> bool {
    if owner_exists(mv, cl) {
        exists|m2: int|
            0 <= m2 < mv.len() && (#[trigger] mv[m2].pkgnames).contains(cl) && edges.contains(
                (crate::graph::idx_of(nodes, src), crate::graph::idx_of(nodes, mv[m2].pkgbase)),
            )
    } else if nodes.contains(cl) {
        edges.contains((crate::graph::idx_of(nodes, src), crate::graph::idx_of(nodes, cl)))
    } else {
        true
    }
}

/// A demanded edge stays present as the edge set grows.
proof fn lemma_dep_edge_mono(
    inames: Seq<Seq<char>>,
    ibases: Seq<Seq<char>>,
    nodes: Seq<Seq<char>>,
    e1: Set<(int, int)>,
    e2: Set<(int, int)>,
    src: Seq<char>,
    cl: Seq<char>,
)
    requires
        idx_dep_edge_ok(inames, ibases, nodes, e1, src, cl),
        forall|e: (int, int)| e1.contains(e) ==> e2.contains(e),
    ensures
        idx_dep_edge_ok(inames, ibases, nodes, e2, src, cl),
{
    if idx_matches(inames, cl) {
        let w = choose|w: int|
            0 <= w < inames.len() && #[trigger] inames[w] == cl && e1.contains(
                (crate::graph::idx_of(nodes, src), crate::graph::idx_of(nodes, ibases[w])),
            );
        assert(e2.contains(
            (crate::graph::idx_of(nodes, src), crate::graph::idx_of(nodes, ibases[w])),
        ));
    }
}

/// Builds the dependency graph over the collected metadata: one node
/// per distinct `pkgbase`, and an edge from a base to each base that
/// one of its (clean-named) dependencies resolves to, through the
/// package-name index or directly.
pub fn build_graph(metas: &Vec<PackageMetaData>) -> (g: crate::graph::DependencyGraph)
    ensures
        g.wf(),
        g.nodes() == bases_spec(metas.deep_view()),
        forall|m: int, d: int|
            0 <= m < metas.deep_view().len() && 0 <= d < metas.deep_view()[m].depends.len()
                ==> dep_edge_ok(
                metas.deep_view(),
                g.nodes(),
                g.edges(),
                metas.deep_view()[m].pkgbase,
                clean_spec(#[trigger] metas.deep_view()[m].depends[d]),
            ),
        forall|m: int, d: int|
            0 <= m < metas.deep_view().len() && 0 <= d < metas.deep_view()[m].make_depends.len()
                ==> dep_edge_ok(
                metas.deep_view(),
                g.nodes(),
                g.edges(),
                metas.deep_view()[m].pkgbase,
                clean_spec(#[trigger] metas.deep_view()[m].make_depends[d]),
            ),
        forall|e: (int, int)|
            g.edges().contains(e) ==> edge_justified(metas.deep_view(), g.nodes(), e),
{
    let ghost mv = metas.deep_view();
    let mut g = crate::graph::DependencyGraph::new();
    let mut idx_names: Vec<Vec<char>> = Vec::new();
    let mut idx_bases: Vec<String> = Vec::new();
    let mut k: usize = 0;
    assert(mv.subrange(0, 0) =~= Seq::<crate::srcinfo::MetaV>::empty());
    while k < metas.len()
        invariant
            k <= metas@.len(),
            mv == metas.deep_view(),
            g.wf(),
            g.nodes() == bases_spec(mv.subrange(0, k as int)),
            g.edges() == Set::<(int, int)>::empty(),
            idx_names@.len() == idx_bases@.len(),
            forall|j: int|
                0 <= j < idx_bases@.len() ==> g.nodes().contains(
                    #[trigger] idx_bases.deep_view()[j],
                ),
            idx_sound(mv, idx_names@.map_values(|e: Vec<char>| e@), idx_bases.deep_view()),
            idx_complete_upto(mv, k as int, idx_names@.map_values(|e: Vec<char>| e@), idx_bases.deep_view()),
        decreases metas@.len() - k,
    {
        let ghost pre_nodes = g.nodes();
        g.add_node(metas[k].pkgbase.as_str());
        proof {
            assert(mv.subrange(0, k + 1).drop_last() =~= mv.subrange(0, k as int));
            assert(mv.subrange(0, k + 1).last() == mv[k as int]);
            assert(g.nodes() =~= bases_spec(mv.subrange(0, k + 1)));
            assert forall|j: int|
                0 <= j < idx_bases@.len() implies g.nodes().contains(
                #[trigger] idx_bases.deep_view()[j],
            ) by {
                assert(pre_nodes.contains(idx_bases.deep_view()[j]));
                let w = choose|w: int|
                    0 <= w < pre_nodes.len() && pre_nodes[w] == idx_bases.deep_view()[j];
                if !pre_nodes.contains(mv[k as int].pkgbase) {
                    assert(g.nodes()[w] == pre_nodes[w]);
                }
            }
        }
        let mut p: usize = 0;
        while p < metas[k].pkgnames.len()
            invariant
                k < metas@.len(),
                p <= mv[k as int].pkgnames.len(),
                mv == metas.deep_view(),
                g.wf(),
                g.nodes() == bases_spec(mv.subrange(0, k + 1)),
                g.edges() == Set::<(int, int)>::empty(),
                idx_names@.len() == idx_bases@.len(),
                g.nodes().contains(mv[k as int].pkgbase),
                forall|j: int|
                    0 <= j < idx_bases@.len() ==> g.nodes().contains(
                        #[trigger] idx_bases.deep_view()[j],
                    ),
                idx_sound(mv, idx_names@.map_values(|e: Vec<char>| e@), idx_bases.deep_view()),
                idx_complete_upto(mv, k as int, idx_names@.map_values(|e: Vec<char>| e@), idx_bases.deep_view()),
                forall|q: int|
                    0 <= q < p ==> idx_has(
                        idx_names@.map_values(|e: Vec<char>| e@),
                        idx_bases.deep_view(),
                        #[trigger] mv[k as int].pkgnames[q],
                        mv[k as int].pkgbase,
                    ),
            decreases metas@[k as int].pkgnames@.len() - p,
        {
            let ghost pre_n = idx_names@.map_values(|e: Vec<char>| e@);
            let ghost pre_b = idx_bases.deep_view();
            proof {
                assert(mv[k as int] == metas@[k as int].deep_view());
                assert(mv[k as int].pkgnames[p as int] == metas@[k as int].pkgnames@[p as int]@);
            }
            idx_names.push(crate::text::str_chars(metas[k].pkgnames[p].as_str()));
            idx_bases.push(metas[k].pkgbase.clone());
            proof {
                let now_n = idx_names@.map_values(|e: Vec<char>| e@);
                let now_b = idx_bases.deep_view();
                assert(now_n =~= pre_n.push(mv[k as int].pkgnames[p as int]));
                assert(now_b =~= pre_b.push(mv[k as int].pkgbase));
                assert forall|j: int|
                    0 <= j < idx_bases@.len() implies g.nodes().contains(
                    #[trigger] idx_bases.deep_view()[j],
                ) by {
                    if j < now_b.len() - 1 {
                        assert(now_b[j] == pre_b[j]);
                    } else {
                        assert(now_b[j] == mv[k as int].pkgbase);
                    }
                }
                assert forall|w: int|
                    0 <= w < now_n.len() implies idx_entry_ok(mv, #[trigger] now_n[w], now_b[w]) by {
                    if w < now_n.len() - 1 {
                        assert(now_n[w] == pre_n[w] && now_b[w] == pre_b[w]);
                        assert(idx_entry_ok(mv, pre_n[w], pre_b[w]));
                    } else {
                        assert(0 <= p < mv[k as int].pkgnames.len());
                        assert(mv[k as int].pkgnames.contains(now_n[w]));
                        assert(now_b[w] == mv[k as int].pkgbase);
                    }
                }
                assert forall|m2: int, q: int|
                    0 <= m2 < k && 0 <= q < mv[m2].pkgnames.len() implies idx_has(
                    now_n,
                    now_b,
                    #[trigger] mv[m2].pkgnames[q],
                    mv[m2].pkgbase,
                ) by {
                    assert(idx_has(pre_n, pre_b, mv[m2].pkgnames[q], mv[m2].pkgbase));
                    let w = choose|w: int|
                        0 <= w < pre_n.len() && #[trigger] pre_n[w] == mv[m2].pkgnames[q]
                            && pre_b[w] == mv[m2].pkgbase;
                    assert(now_n[w] == pre_n[w] && now_b[w] == pre_b[w]);
                }
                assert forall|q: int|
                    0 <= q < p + 1 implies idx_has(
                    now_n,
                    now_b,
                    #[trigger] mv[k as int].pkgnames[q],
                    mv[k as int].pkgbase,
                ) by {
                    if q < p {
                        assert(idx_has(pre_n, pre_b, mv[k as int].pkgnames[q], mv[k as int].pkgbase));
                        let w = choose|w: int|
                            0 <= w < pre_n.len() && #[trigger] pre_n[w] == mv[k as int].pkgnames[q]
                                && pre_b[w] == mv[k as int].pkgbase;
                        assert(now_n[w] == pre_n[w] && now_b[w] == pre_b[w]);
                    } else {
                        assert(now_n[now_n.len() - 1] == mv[k as int].pkgnames[q]);
                        assert(now_b[now_n.len() - 1] == mv[k as int].pkgbase);
                    }
                }
            }
            p = p + 1;
        }
        k = k + 1;
        proof {
            assert forall|m2: int, q: int|
                0 <= m2 < k && 0 <= q < mv[m2].pkgnames.len() implies idx_has(
                idx_names@.map_values(|e: Vec<char>| e@),
                idx_bases.deep_view(),
                #[trigger] mv[m2].pkgnames[q],
                mv[m2].pkgbase,
            ) by {
                if m2 < k - 1 {
                    assert(idx_has(
                        idx_names@.map_values(|e: Vec<char>| e@),
                        idx_bases.deep_view(),
                        mv[m2].pkgnames[q],
                        mv[m2].pkgbase,
                    ));
                }
            }
        }
    }
    proof {
        assert(mv.subrange(0, mv.len() as int) =~= mv);
    }
    let ghost all_nodes = g.nodes();
    let ghost inames = idx_names@.map_values(|e: Vec<char>| e@);
    let ghost ibases = idx_bases.deep_view();
    // second pass: edges from each base to the bases its dependencies
    // resolve to
    let mut k2: usize = 0;
    while k2 < metas.len()
        invariant
            k2 <= metas@.len(),
            mv == metas.deep_view(),
            g.wf(),
            g.nodes() == all_nodes,
            all_nodes == bases_spec(mv),
            inames == idx_names@.map_values(|e: Vec<char>| e@),
            ibases == idx_bases.deep_view(),
            idx_names@.len() == idx_bases@.len(),
            forall|j: int|
                0 <= j < idx_bases@.len() ==> g.nodes().contains(
                    #[trigger] idx_bases.deep_view()[j],
                ),
            forall|m: int, d: int|
                0 <= m < k2 && 0 <= d < mv[m].depends.len() ==> idx_dep_edge_ok(
                    inames,
                    ibases,
                    all_nodes,
                    g.edges(),
                    mv[m].pkgbase,
                    clean_spec(#[trigger] mv[m].depends[d]),
                ),
            forall|m: int, d: int|
                0 <= m < k2 && 0 <= d < mv[m].make_depends.len() ==> idx_dep_edge_ok(
                    inames,
                    ibases,
                    all_nodes,
                    g.edges(),
                    mv[m].pkgbase,
                    clean_spec(#[trigger] mv[m].make_depends[d]),
                ),
            forall|e: (int, int)|
                g.edges().contains(e) ==> idx_edge_justified_upto(
                    mv,
                    inames,
                    ibases,
                    all_nodes,
                    mv.len() as int,
                    e,
                ),
        decreases metas@.len() - k2,
    {
        proof {
            lemma_bases_contains(mv, k2 as int);
            assert(mv[k2 as int] == metas@[k2 as int].deep_view());
        }
        let ghost pre_edges = g.edges();
        add_meta_edges(&mut g, &metas[k2], &idx_names, &idx_bases);
        k2 = k2 + 1;
        proof {
            assert forall|m: int, d: int|
                0 <= m < k2 && 0 <= d < mv[m].depends.len() implies idx_dep_edge_ok(
                inames,
                ibases,
                all_nodes,
                g.edges(),
                mv[m].pkgbase,
                clean_spec(#[trigger] mv[m].depends[d]),
            ) by {
                if m < k2 - 1 {
                    lemma_dep_edge_mono(
                        inames,
                        ibases,
                        all_nodes,
                        pre_edges,
                        g.edges(),
                        mv[m].pkgbase,
                        clean_spec(mv[m].depends[d]),
                    );
                }
            }
            assert forall|m: int, d: int|
                0 <= m < k2 && 0 <= d < mv[m].make_depends.len() implies idx_dep_edge_ok(
                inames,
                ibases,
                all_nodes,
                g.edges(),
                mv[m].pkgbase,
                clean_spec(#[trigger] mv[m].make_depends[d]),
            ) by {
                if m < k2 - 1 {
                    lemma_dep_edge_mono(
                        inames,
                        ibases,
                        all_nodes,
                        pre_edges,
                        g.edges(),
                        mv[m].pkgbase,
                        clean_spec(mv[m].make_depends[d]),
                    );
                }
            }
            assert forall|e: (int, int)|
                g.edges().contains(e) implies idx_edge_justified_upto(
                mv,
                inames,
                ibases,
                all_nodes,
                mv.len() as int,
                e,
            ) by {
                if !pre_edges.contains(e) {
                    let mm = k2 - 1;
                    assert(mv[mm] == metas@[mm].deep_view());
                    if exists|d: int|
                        0 <= d < mv[mm].depends.len() && idx_edge_justified(
                            inames,
                            ibases,
                            all_nodes,
                            mv[mm].pkgbase,
                            clean_spec(#[trigger] mv[mm].depends[d]),
                            e,
                        ) {
                        let d = choose|d: int|
                            0 <= d < mv[mm].depends.len() && idx_edge_justified(
                                inames,
                                ibases,
                                all_nodes,
                                mv[mm].pkgbase,
                                clean_spec(#[trigger] mv[mm].depends[d]),
                                e,
                            );
                        assert(justified_by(mv, inames, ibases, all_nodes, mm, d, e));
                    } else {
                        let d = choose|d: int|
                            0 <= d < mv[mm].make_depends.len() && idx_edge_justified(
                                inames,
                                ibases,
                                all_nodes,
                                mv[mm].pkgbase,
                                clean_spec(#[trigger] mv[mm].make_depends[d]),
                                e,
                            );
                        assert(justified_by(mv, inames, ibases, all_nodes, mm, d, e));
                    }
                }
            }
        }
    }
    proof {
        assert forall|m: int, d: int|
            0 <= m < mv.len() && 0 <= d < mv[m].depends.len() implies dep_edge_ok(
            mv,
            all_nodes,
            g.edges(),
            mv[m].pkgbase,
            clean_spec(#[trigger] mv[m].depends[d]),
        ) by {
            lemma_idx_to_meta_one(
                mv,
                inames,
                ibases,
                all_nodes,
                g.edges(),
                mv[m].pkgbase,
                clean_spec(mv[m].depends[d]),
            );
        }
        assert forall|m: int, d: int|
            0 <= m < mv.len() && 0 <= d < mv[m].make_depends.len() implies dep_edge_ok(
            mv,
            all_nodes,
            g.edges(),
            mv[m].pkgbase,
            clean_spec(#[trigger] mv[m].make_depends[d]),
        ) by {
            lemma_idx_to_meta_one(
                mv,
                inames,
                ibases,
                all_nodes,
                g.edges(),
                mv[m].pkgbase,
                clean_spec(mv[m].make_depends[d]),
            );
        }
        assert forall|e: (int, int)|
            g.edges().contains(e) implies edge_justified(mv, all_nodes, e) by {
            assert(idx_edge_justified_upto(mv, inames, ibases, all_nodes, mv.len() as int, e));
            let (m, d) = choose|m: int, d: int|
                0 <= m < mv.len() && #[trigger] justified_by(mv, inames, ibases, all_nodes, m, d, e);
            if 0 <= d < mv[m].depends.len() && idx_edge_justified(
                inames,
                ibases,
                all_nodes,
                mv[m].pkgbase,
                clean_spec(mv[m].depends[d]),
                e,
            ) {
                lemma_idx_justified_to_meta(
                    mv,
                    inames,
                    ibases,
                    all_nodes,
                    mv[m].pkgbase,
                    clean_spec(mv[m].depends[d]),
                    e,
                );
            } else {
                lemma_idx_justified_to_meta(
                    mv,
                    inames,
                    ibases,
                    all_nodes,
                    mv[m].pkgbase,
                    clean_spec(mv[m].make_depends[d]),
                    e,
                );
            }
            assert(meta_justified_by(mv, all_nodes, m, d, e));
        }
    }
    g
}

/// One clean name, carried from the index level to the metadata level.
proof fn lemma_idx_to_meta_one(
    mv: Seq<crate::srcinfo::MetaV>,
    inames: Seq<Seq<char>>,
    ibases: Seq<Seq<char>>,
    nodes: Seq<Seq<char>>,
    edges: Set<(int, int)>,
    src: Seq<char>,
    cl: Seq<char>,
)
    requires
        idx_sound(mv, inames, ibases),
        idx_complete_upto(mv, mv.len() as int, inames, ibases),
        idx_dep_edge_ok(inames, ibases, nodes, edges, src, cl),
    ensures
        dep_edge_ok(mv, nodes, edges, src, cl),
{
    if owner_exists(mv, cl) {
        let m2 = choose|m2: int| 0 <= m2 < mv.len() && (#[trigger] mv[m2].pkgnames).contains(cl);
        let q = choose|q: int| 0 <= q < mv[m2].pkgnames.len() && mv[m2].pkgnames[q] == cl;
        assert(idx_has(inames, ibases, mv[m2].pkgnames[q], mv[m2].pkgbase));
        let w0 = choose|w: int|
            0 <= w < inames.len() && #[trigger] inames[w] == mv[m2].pkgnames[q] && ibases[w]
                == mv[m2].pkgbase;
        assert(inames[w0] == cl);
        assert(idx_matches(inames, cl));
        let wit = choose|w: int|
            0 <= w < inames.len() && #[trigger] inames[w] == cl && edges.contains(
                (crate::graph::idx_of(nodes, src), crate::graph::idx_of(nodes, ibases[w])),
            );
        assert(idx_entry_ok(mv, inames[wit], ibases[wit]));
        let m3 = choose|m3: int|
            0 <= m3 < mv.len() && (#[trigger] mv[m3].pkgnames).contains(inames[wit])
                && ibases[wit] == mv[m3].pkgbase;
        assert(mv[m3].pkgnames.contains(cl));
        assert(edges.contains(
            (crate::graph::idx_of(nodes, src), crate::graph::idx_of(nodes, mv[m3].pkgbase)),
        ));
    } else {
        if idx_matches(inames, cl) {
            let w = choose|w: int| 0 <= w < inames.len() && #[trigger] inames[w] == cl;
            assert(idx_entry_ok(mv, inames[w], ibases[w]));
            let m2 = choose|m2: int|
                0 <= m2 < mv.len() && (#[trigger] mv[m2].pkgnames).contains(inames[w])
                    && ibases[w] == mv[m2].pkgbase;
            assert(mv[m2].pkgnames.contains(cl));
            assert(owner_exists(mv, cl));
            assert(false);
        }
    }
}

/// Every collected `pkgbase` is a node.
proof fn lemma_bases_contains(metas: Seq<crate::srcinfo::MetaV>, i: int)
    requires
        0 <= i < metas.len(),
    ensures
        bases_spec(metas).contains(metas[i].pkgbase),
    decreases metas.len(),
{
    if i == metas.len() - 1 {
        let pre = bases_spec(metas.drop_last());
        if pre.contains(metas[i].pkgbase) {
            assert(bases_spec(metas) == pre);
        } else {
            assert(bases_spec(metas) == pre.push(metas[i].pkgbase));
            assert(bases_spec(metas)[pre.len() as int] == metas[i].pkgbase);
        }
    } else {
        lemma_bases_contains(metas.drop_last(), i);
        assert(metas.drop_last()[i] == metas[i]);
        let pre = bases_spec(metas.drop_last());
        if bases_spec(metas) == pre.push(metas.last().pkgbase) {
            let w = choose|w: int| 0 <= w < pre.len() && pre[w] == metas[i].pkgbase;
            assert(bases_spec(metas)[w] == metas[i].pkgbase);
        }
    }
}

/// Adds the edges of one base: for each dependency whose clean name
/// resolves to a known base (through the split-package index or as a
/// base name itself), an edge from this base to that one.
fn add_meta_edges(
    g: &mut crate::graph::DependencyGraph,
    meta: &PackageMetaData,
    idx_names: &Vec<Vec<char>>,
    idx_bases: &Vec<String>,
)
    requires
        old(g).wf(),
        old(g).nodes().contains(meta@.pkgbase),
        idx_names@.len() == idx_bases@.len(),
        forall|j: int|
            0 <= j < idx_bases@.len() ==> old(g).nodes().contains(
                #[trigger] idx_bases.deep_view()[j],
            ),
    ensures
        final(g).wf(),
        final(g).nodes() == old(g).nodes(),
        forall|e: (int, int)| old(g).edges().contains(e) ==> final(g).edges().contains(e),
        forall|d: int|
            0 <= d < meta@.depends.len() ==> idx_dep_edge_ok(
                idx_names@.map_values(|e: Vec<char>| e@),
                idx_bases.deep_view(),
                old(g).nodes(),
                final(g).edges(),
                meta@.pkgbase,
                clean_spec(#[trigger] meta@.depends[d]),
            ),
        forall|d: int|
            0 <= d < meta@.make_depends.len() ==> idx_dep_edge_ok(
                idx_names@.map_values(|e: Vec<char>| e@),
                idx_bases.deep_view(),
                old(g).nodes(),
                final(g).edges(),
                meta@.pkgbase,
                clean_spec(#[trigger] meta@.make_depends[d]),
            ),
        forall|e: (int, int)|
            final(g).edges().contains(e) ==> old(g).edges().contains(e) || (exists|d: int|
                0 <= d < meta@.depends.len() && idx_edge_justified(
                    idx_names@.map_values(|e2: Vec<char>| e2@),
                    idx_bases.deep_view(),
                    old(g).nodes(),
                    meta@.pkgbase,
                    clean_spec(#[trigger] meta@.depends[d]),
                    e,
                )) || (exists|d: int|
                0 <= d < meta@.make_depends.len() && idx_edge_justified(
                    idx_names@.map_values(|e2: Vec<char>| e2@),
                    idx_bases.deep_view(),
                    old(g).nodes(),
                    meta@.pkgbase,
                    clean_spec(#[trigger] meta@.make_depends[d]),
                    e,
                )),
{
    let base = meta.pkgbase.clone();
    add_dep_edges(g, &base, &meta.depends, idx_names, idx_bases);
    let ghost e1 = g.edges();
    add_dep_edges(g, &base, &meta.make_depends, idx_names, idx_bases);
    proof {
        let inames = idx_names@.map_values(|e2: Vec<char>| e2@);
        let ibases = idx_bases.deep_view();
        assert forall|e: (int, int)|
            g.edges().contains(e) implies old(g).edges().contains(e) || (exists|d: int|
                0 <= d < meta@.depends.len() && idx_edge_justified(
                    inames,
                    ibases,
                    old(g).nodes(),
                    meta@.pkgbase,
                    clean_spec(#[trigger] meta@.depends[d]),
                    e,
                )) || (exists|d: int|
                0 <= d < meta@.make_depends.len() && idx_edge_justified(
                    inames,
                    ibases,
                    old(g).nodes(),
                    meta@.pkgbase,
                    clean_spec(#[trigger] meta@.make_depends[d]),
                    e,
                )) by {
            if !e1.contains(e) {
                let d = choose|d: int|
                    0 <= d < meta.make_depends.deep_view().len() && idx_edge_justified(
                        inames,
                        ibases,
                        old(g).nodes(),
                        base@,
                        clean_spec(#[trigger] meta.make_depends.deep_view()[d]),
                        e,
                    );
                assert(0 <= d < meta@.make_depends.len());
            } else if !old(g).edges().contains(e) {
                let d = choose|d: int|
                    0 <= d < meta.depends.deep_view().len() && idx_edge_justified(
                        inames,
                        ibases,
                        old(g).nodes(),
                        base@,
                        clean_spec(#[trigger] meta.depends.deep_view()[d]),
                        e,
                    );
                assert(0 <= d < meta@.depends.len());
            }
        }
        assert forall|d: int|
            0 <= d < meta@.depends.len() implies idx_dep_edge_ok(
            idx_names@.map_values(|e: Vec<char>| e@),
            idx_bases.deep_view(),
            old(g).nodes(),
            g.edges(),
            meta@.pkgbase,
            clean_spec(#[trigger] meta@.depends[d]),
        ) by {
            lemma_dep_edge_mono(
                idx_names@.map_values(|e: Vec<char>| e@),
                idx_bases.deep_view(),
                old(g).nodes(),
                e1,
                g.edges(),
                meta@.pkgbase,
                clean_spec(meta@.depends[d]),
            );
        }
    }
}

/// Adds the edges one dependency list demands.
fn add_dep_edges(
    g: &mut crate::graph::DependencyGraph,
    base: &String,
    deps: &Vec<String>,
    idx_names: &Vec<Vec<char>>,
    idx_bases: &Vec<String>,
)
    requires
        old(g).wf(),
        old(g).nodes().contains(base@),
        idx_names@.len() == idx_bases@.len(),
        forall|j: int|
            0 <= j < idx_bases@.len() ==> old(g).nodes().contains(
                #[trigger] idx_bases.deep_view()[j],
            ),
    ensures
        final(g).wf(),
        final(g).nodes() == old(g).nodes(),
        forall|e: (int, int)| old(g).edges().contains(e) ==> final(g).edges().contains(e),
        forall|d: int|
            0 <= d < deps.deep_view().len() ==> idx_dep_edge_ok(
                idx_names@.map_values(|e: Vec<char>| e@),
                idx_bases.deep_view(),
                old(g).nodes(),
                final(g).edges(),
                base@,
                clean_spec(#[trigger] deps.deep_view()[d]),
            ),
        forall|e: (int, int)|
            final(g).edges().contains(e) ==> old(g).edges().contains(e) || (exists|d: int|
                0 <= d < deps.deep_view().len() && idx_edge_justified(
                    idx_names@.map_values(|e2: Vec<char>| e2@),
                    idx_bases.deep_view(),
                    old(g).nodes(),
                    base@,
                    clean_spec(#[trigger] deps.deep_view()[d]),
                    e,
                )),
{
    let ghost dv = deps.deep_view();
    let ghost inames = idx_names@.map_values(|e: Vec<char>| e@);
    let ghost ibases = idx_bases.deep_view();
    let mut d: usize = 0;
    while d < deps.len()
        invariant
            d <= deps@.len(),
            dv == deps.deep_view(),
            inames == idx_names@.map_values(|e: Vec<char>| e@),
            ibases == idx_bases.deep_view(),
            g.wf(),
            g.nodes() == old(g).nodes(),
            g.nodes().contains(base@),
            idx_names@.len() == idx_bases@.len(),
            forall|j: int|
                0 <= j < idx_bases@.len() ==> g.nodes().contains(
                    #[trigger] idx_bases.deep_view()[j],
                ),
            forall|e: (int, int)| old(g).edges().contains(e) ==> g.edges().contains(e),
            forall|d2: int|
                0 <= d2 < d ==> idx_dep_edge_ok(
                    inames,
                    ibases,
                    old(g).nodes(),
                    g.edges(),
                    base@,
                    clean_spec(#[trigger] dv[d2]),
                ),
            forall|e: (int, int)|
                g.edges().contains(e) ==> old(g).edges().contains(e) || (exists|d2: int|
                    0 <= d2 < d && idx_edge_justified(
                        inames,
                        ibases,
                        old(g).nodes(),
                        base@,
                        clean_spec(#[trigger] dv[d2]),
                        e,
                    )),
        decreases deps@.len() - d,
    {
        let chars = crate::text::str_chars(deps[d].as_str());
        let cl = crate::dependency::clean_chars(&chars);
        let clean_name = chars_to_string(&cl);
        let mut target: Option<String> = None;
        let mut w: usize = 0;
        while w < idx_names.len()
            invariant
                w <= idx_names@.len(),
                inames == idx_names@.map_values(|e: Vec<char>| e@),
                ibases == idx_bases.deep_view(),
                d < dv.len(),
                cl@ == clean_spec(dv[d as int]),
                idx_names@.len() == idx_bases@.len(),
                g.nodes().contains(base@),
                forall|j: int|
                    0 <= j < idx_bases@.len() ==> g.nodes().contains(
                        #[trigger] idx_bases.deep_view()[j],
                    ),
                match target {
                    Some(t) => g.nodes().contains(t@) && idx_has(inames, ibases, cl@, t@),
                    None => forall|j: int| 0 <= j < w ==> inames[j] != cl@,
                },
            decreases idx_names@.len() - w,
        {
            if chars_eq(&idx_names[w], &cl) {
                let t = idx_bases[w].clone();
                proof {
                    assert(g.nodes().contains(idx_bases.deep_view()[w as int]));
                    assert(inames[w as int] == cl@ && t@ == ibases[w as int]);
                    assert(idx_has(inames, ibases, cl@, t@));
                }
                target = Some(t);
            }
            w = w + 1;
        }
        let ghost pre_nodes = g.nodes();
        let ghost pre_edges = g.edges();
        match target {
            Some(t) => {
                g.add_edge(base.as_str(), t.as_str());
                proof {
                    assert(g.nodes() =~= pre_nodes);
                    assert(g.edges().contains(
                        (
                            crate::graph::idx_of(g.nodes(), base@),
                            crate::graph::idx_of(g.nodes(), t@),
                        ),
                    ));
                    let w2 = choose|w2: int|
                        0 <= w2 < inames.len() && #[trigger] inames[w2] == cl@ && ibases[w2] == t@;
                    assert(idx_matches(inames, cl@));
                    assert(idx_dep_edge_ok(
                        inames,
                        ibases,
                        old(g).nodes(),
                        g.edges(),
                        base@,
                        clean_spec(dv[d as int]),
                    ));
                    assert(crate::graph::idx_of(g.nodes(), t@) == crate::graph::idx_of(
                        g.nodes(),
                        ibases[w2],
                    ));
                    assert(idx_edge_justified(
                        inames,
                        ibases,
                        old(g).nodes(),
                        base@,
                        clean_spec(dv[d as int]),
                        (
                            crate::graph::idx_of(g.nodes(), base@),
                            crate::graph::idx_of(g.nodes(), t@),
                        ),
                    ));
                }
            },
            None => {
                proof {
                    assert(forall|j: int| 0 <= j < inames.len() ==> inames[j] != cl@);
                    assert(!idx_matches(inames, cl@));
                }
                if g.contains_node(clean_name.as_str()) {
                    g.add_edge(base.as_str(), clean_name.as_str());
                    proof {
                        assert(g.nodes() =~= pre_nodes);
                        assert(g.edges().contains(
                            (
                                crate::graph::idx_of(g.nodes(), base@),
                                crate::graph::idx_of(g.nodes(), cl@),
                            ),
                        ));
                        assert(idx_dep_edge_ok(
                            inames,
                            ibases,
                            old(g).nodes(),
                            g.edges(),
                            base@,
                            clean_spec(dv[d as int]),
                        ));
                        assert(idx_edge_justified(
                            inames,
                            ibases,
                            old(g).nodes(),
                            base@,
                            clean_spec(dv[d as int]),
                            (
                                crate::graph::idx_of(g.nodes(), base@),
                                crate::graph::idx_of(g.nodes(), cl@),
                            ),
                        ));
                    }
                } else {
                    proof {
                        assert(idx_dep_edge_ok(
                            inames,
                            ibases,
                            old(g).nodes(),
                            g.edges(),
                            base@,
                            clean_spec(dv[d as int]),
                        ));
                    }
                }
            },
        }
        d = d + 1;
        proof {
            assert forall|d2: int|
                0 <= d2 < d implies idx_dep_edge_ok(
                inames,
                ibases,
                old(g).nodes(),
                g.edges(),
                base@,
                clean_spec(#[trigger] dv[d2]),
            ) by {
                if d2 < d - 1 {
                    lemma_dep_edge_mono(
                        inames,
                        ibases,
                        old(g).nodes(),
                        pre_edges,
                        g.edges(),
                        base@,
                        clean_spec(dv[d2]),
                    );
                }
            }
            assert forall|e: (int, int)|
                g.edges().contains(e) implies old(g).edges().contains(e) || (exists|d2: int|
                    0 <= d2 < d && idx_edge_justified(
                        inames,
                        ibases,
                        old(g).nodes(),
                        base@,
                        clean_spec(#[trigger] dv[d2]),
                        e,
                    )) by {
                if pre_edges.contains(e) {
                    if !old(g).edges().contains(e) {
                        let d2 = choose|d2: int|
                            0 <= d2 < d - 1 && idx_edge_justified(
                                inames,
                                ibases,
                                old(g).nodes(),
                                base@,
                                clean_spec(#[trigger] dv[d2]),
                                e,
                            );
                        assert(0 <= d2 < d && idx_edge_justified(
                            inames,
                            ibases,
                            old(g).nodes(),
                            base@,
                            clean_spec(dv[d2]),
                            e,
                        ));
                    }
                } else {
                    assert(idx_edge_justified(
                        inames,
                        ibases,
                        old(g).nodes(),
                        base@,
                        clean_spec(dv[d - 1]),
                        e,
                    ));
                }
            }
        }
    }
}

/// The bases in build order: dependency-first topologically when the
/// graph is acyclic, else every base in ascending name order, so that
/// a cyclic graph still yields a deterministic, complete order.
pub fn plan_order(g: &crate::graph::DependencyGraph) -> (r: Vec<String>)
    requires
        g.wf(),
    ensures
        r.deep_view().len() == g.nodes().len(),
        forall|i: int|
            0 <= i < r.deep_view().len() ==> g.nodes().contains(#[trigger] r.deep_view()[i]),
        forall|n: Seq<char>| g.nodes().contains(n) ==> r.deep_view().contains(n),
        forall|i: int, j: int|
            0 <= i < r.deep_view().len() && 0 <= j < r.deep_view().len() && i != j
                ==> r.deep_view()[i] != r.deep_view()[j],
        !crate::graph::has_cycle(g.edges()) ==> forall|i: int, j: int|
            0 <= i < r.deep_view().len() && 0 <= j < r.deep_view().len() && g.edges().contains(
                (
                    crate::graph::idx_of(g.nodes(), r.deep_view()[i]),
                    crate::graph::idx_of(g.nodes(), r.deep_view()[j]),
                ),
            ) ==> j < i,
        crate::graph::has_cycle(g.edges()) ==> sorted_lex(r.deep_view()),
{
    match g.topological_order() {
        Ok(o) => o,
        Err(_) => {
            let names = g.node_names();
            proof {
                crate::graph::lemma_wf_unique(g);
                assert(unique_list(names.deep_view()));
            }
            let sorted = sort_names(&names);
            proof {
                assert forall|i: int|
                    0 <= i < sorted.deep_view().len() implies g.nodes().contains(
                    #[trigger] sorted.deep_view()[i],
                ) by {
                    assert(sorted.deep_view().contains(sorted.deep_view()[i]));
                }
            }
            sorted
        },
    }
}

/// What the driver executes: the batch of repository names, then the
/// bases in build order.
pub struct ResolutionPlan {
    pub repo_deps: Vec<String>,
    pub build_order: Vec<String>,
}

/// Joins the two halves; a name about to be built from source is not
/// also batch-installed, so the two lists share no name.
pub fn make_plan(repo_deps: Vec<String>, build_order: Vec<String>) -> (r: ResolutionPlan)
    ensures
        r.build_order == build_order,
        disjoint_lists(r.repo_deps.deep_view(), r.build_order.deep_view()),
        forall|n: Seq<char>|
            r.repo_deps.deep_view().contains(n) <==> (repo_deps.deep_view().contains(n)
                && !build_order.deep_view().contains(n)),
{
    let ghost rv = repo_deps.deep_view();
    let mut kept: Vec<String> = Vec::new();
    let mut k: usize = 0;
    let mut build_chars: Vec<Vec<char>> = Vec::new();
    let mut w: usize = 0;
    while w < build_order.len()
        invariant
            w <= build_order@.len(),
            build_chars@.len() == w,
            forall|j: int|
                0 <= j < w ==> #[trigger] build_chars@[j]@ == build_order.deep_view()[j],
        decreases build_order@.len() - w,
    {
        build_chars.push(crate::text::str_chars(build_order[w].as_str()));
        w = w + 1;
    }
    assert(build_chars@.map_values(|e: Vec<char>| e@) =~= build_order.deep_view());
    assert(kept.deep_view() =~= Seq::<Seq<char>>::empty());
    assert(rv.subrange(0, 0) =~= Seq::<Seq<char>>::empty());
    while k < repo_deps.len()
        invariant
            k <= repo_deps@.len(),
            rv == repo_deps.deep_view(),
            build_chars@.map_values(|e: Vec<char>| e@) == build_order.deep_view(),
            forall|n: Seq<char>|
                kept.deep_view().contains(n) <==> (rv.subrange(0, k as int).contains(n)
                    && !build_order.deep_view().contains(n)),
        decreases repo_deps@.len() - k,
    {
        let chars = crate::text::str_chars(repo_deps[k].as_str());
        let ghost pre = kept.deep_view();
        let pushed = !contains_chars(&build_chars, &chars);
        if pushed {
            kept.push(repo_deps[k].clone());
            assert(kept.deep_view() =~= pre.push(rv[k as int]));
        }
        k = k + 1;
        proof {
            let now_pre = rv.subrange(0, k as int);
            let older = rv.subrange(0, k as int - 1);
            let kv = kept.deep_view();
            let bv = build_order.deep_view();
            let last = rv[k - 1];
            assert forall|n: Seq<char>| kv.contains(n) <==> (now_pre.contains(n)
                && !bv.contains(n)) by {
                // membership in the one-longer prefix
                if now_pre.contains(n) {
                    let u = choose|u: int| 0 <= u < now_pre.len() && now_pre[u] == n;
                    if u < k - 1 {
                        assert(older[u] == n);
                        assert(older.contains(n));
                    } else {
                        assert(n == last);
                    }
                }
                if older.contains(n) {
                    let u = choose|u: int| 0 <= u < older.len() && older[u] == n;
                    assert(now_pre[u] == n);
                    assert(now_pre.contains(n));
                }
                if n == last {
                    assert(now_pre[k - 1] == n);
                    assert(now_pre.contains(n));
                }
                // membership in the possibly-extended kept list
                if pushed {
                    if kv.contains(n) {
                        let u = choose|u: int| 0 <= u < kv.len() && kv[u] == n;
                        if u < kv.len() - 1 {
                            assert(pre[u] == n);
                            assert(pre.contains(n));
                        } else {
                            assert(n == last);
                        }
                    }
                    if pre.contains(n) {
                        let u = choose|u: int| 0 <= u < pre.len() && pre[u] == n;
                        assert(kv[u] == n);
                        assert(kv.contains(n));
                    }
                    if n == last {
                        assert(kv[kv.len() - 1] == n);
                        assert(kv.contains(n));
                        assert(!bv.contains(n));
                    }
                } else {
                    assert(kv == pre);
                    assert(bv.contains(last));
                }
            }
        }
    }
    proof {
        assert(rv.subrange(0, rv.len() as int) =~= rv);
    }
    let r = ResolutionPlan { repo_deps: kept, build_order };
    proof {
        assert forall|i: int|
            0 <= i < r.repo_deps.deep_view().len() implies !r.build_order.deep_view().contains(
            #[trigger] r.repo_deps.deep_view()[i],
        ) by {
            assert(r.repo_deps.deep_view().contains(r.repo_deps.deep_view()[i]));
        }
    }
    r
}

} // verus!
