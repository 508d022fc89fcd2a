//! The upgrade planner: which foreign packages to hand to the
//! installer.
//!
//! A foreign package present in the AUR is due when the native
//! comparison puts its installed version strictly below the remote
//! one. A version-controlled package is instead due when its upstream
//! is strictly ahead. Each name appears once, first occurrence kept.

use vstd::prelude::*;
use vstd::string::*;
use crate::resolver::{VerCmp, is_vcs_spec, is_vcs_name};
use crate::graph::add_name_spec;
use crate::text::str_chars;

verus! {

/// A foreign package beside its AUR counterpart: the native comparison
/// of installed against remote version.
pub struct RemoteCmp {
    pub name: String,
    pub cmp: VerCmp,
}

#[verifier::ext_equal]
pub ghost struct RemoteCmpV {
    pub name: Seq<char>,
    pub cmp: VerCmp,
}

impl View for RemoteCmp {
    type V = RemoteCmpV;

    open spec fn view(&self) -> RemoteCmpV {
        RemoteCmpV { name: self.name@, cmp: self.cmp }
    }
}

impl DeepView for RemoteCmp {
    type V = RemoteCmpV;

    open spec fn deep_view(&self) -> RemoteCmpV {
        self.view()
    }
}

/// A foreign package beside its upstream: whether the live branch is
/// strictly ahead of the cached source tree.
pub struct VcsCheck {
    pub name: String,
    pub upstream_ahead: bool,
}

#[verifier::ext_equal]
pub ghost struct VcsCheckV {
    pub name: Seq<char>,
    pub upstream_ahead: bool,
}

impl View for VcsCheck {
    type V = VcsCheckV;

    open spec fn view(&self) -> VcsCheckV {
        VcsCheckV { name: self.name@, upstream_ahead: self.upstream_ahead }
    }
}

impl DeepView for VcsCheck {
    type V = VcsCheckV;

    open spec fn deep_view(&self) -> VcsCheckV {
        self.view()
    }
}

/// The names due by version comparison, folded over `acc`.
pub open spec fn upgrades_by_version(acc: Seq<Seq<char>>, remote: Seq<RemoteCmpV>) -> Seq<Seq<char>>
    decreases remote.len(),
{
    if remote.len() == 0 {
        acc
    } else {
        let next = if remote[0].cmp == VerCmp::Less {
            add_name_spec(acc, remote[0].name)
        } else {
            acc
        };
        upgrades_by_version(next, remote.drop_first())
    }
}

/// The names due by upstream movement, folded over `acc`.
pub open spec fn upgrades_by_vcs(acc: Seq<Seq<char>>, vcs: Seq<VcsCheckV>) -> Seq<Seq<char>>
    decreases vcs.len(),
{
    if vcs.len() == 0 {
        acc
    } else {
        let next = if is_vcs_spec(vcs[0].name) && vcs[0].upstream_ahead {
            add_name_spec(acc, vcs[0].name)
        } else {
            acc
        };
        upgrades_by_vcs(next, vcs.drop_first())
    }
}

/// The names to feed the installer.
pub open spec fn upgrades_spec(remote: Seq<RemoteCmpV>, vcs: Seq<VcsCheckV>) -> Seq<Seq<char>> {
    upgrades_by_vcs(upgrades_by_version(Seq::empty(), remote), vcs)
}

/// Plans the upgrade run: first every AUR name whose installed version
/// compares strictly below the remote one, then every
/// version-controlled name whose upstream moved ahead; a name already
/// chosen is not chosen again.
pub fn plan_upgrades(remote: &Vec<RemoteCmp>, vcs: &Vec<VcsCheck>) -> (r: Vec<String>)
    ensures
        r.deep_view() == upgrades_spec(remote.deep_view(), vcs.deep_view()),
{
    let ghost rv = remote.deep_view();
    let ghost vv = vcs.deep_view();
    let mut r: Vec<String> = Vec::new();
    let mut k: usize = 0;
    assert(r.deep_view() =~= Seq::<Seq<char>>::empty());
    assert(rv.skip(0) =~= rv);
    while k < remote.len()
        invariant
            k <= remote@.len(),
            rv == remote.deep_view(),
            vv == vcs.deep_view(),
            upgrades_by_version(Seq::empty(), rv) == upgrades_by_version(
                r.deep_view(),
                rv.skip(k as int),
            ),
        decreases remote@.len() - k,
    {
        proof {
            assert(rv.skip(k as int)[0] == rv[k as int]);
            assert(rv.skip(k as int).drop_first() =~= rv.skip(k as int + 1));
        }
        let due = remote[k].cmp == VerCmp::Less;
        if due {
            let chars = str_chars(remote[k].name.as_str());
            if !crate::text::contains_str(&r, &chars) {
                let ghost pre = r.deep_view();
                r.push(remote[k].name.clone());
                assert(r.deep_view() =~= pre.push(rv[k as int].name));
            }
        }
        k = k + 1;
    }
    proof {
        assert(rv.skip(rv.len() as int) =~= Seq::<RemoteCmpV>::empty());
    }
    let ghost mid = r.deep_view();
    let mut w: usize = 0;
    assert(vv.skip(0) =~= vv);
    while w < vcs.len()
        invariant
            w <= vcs@.len(),
            vv == vcs.deep_view(),
            upgrades_by_vcs(mid, vv) == upgrades_by_vcs(r.deep_view(), vv.skip(w as int)),
        decreases vcs@.len() - w,
    {
        proof {
            assert(vv.skip(w as int)[0] == vv[w as int]);
            assert(vv.skip(w as int).drop_first() =~= vv.skip(w as int + 1));
        }
        if is_vcs_name(vcs[w].name.as_str()) && vcs[w].upstream_ahead {
            let chars = str_chars(vcs[w].name.as_str());
            if !crate::text::contains_str(&r, &chars) {
                let ghost pre = r.deep_view();
                r.push(vcs[w].name.clone());
                assert(r.deep_view() =~= pre.push(vv[w as int].name));
            }
        }
        w = w + 1;
    }
    proof {
        assert(vv.skip(vv.len() as int) =~= Seq::<VcsCheckV>::empty());
    }
    r
}

} // verus!
