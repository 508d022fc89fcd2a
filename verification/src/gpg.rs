//! The signing-key manager's decisions: which named keys still need
//! fetching, and whether every key ended up resolved. The keyring
//! queries and the keyserver calls stay outside; their outcomes come
//! back as plain booleans.

use vstd::prelude::*;
use vstd::string::*;

verus! {

/// The keys whose keyring lookup failed, in order.
pub open spec fn fetch_spec(keys: Seq<Seq<char>>, present: Seq<bool>) -> Seq<Seq<char>>
    decreases keys.len(),
{
    if keys.len() == 0 {
        Seq::empty()
    } else {
        let rest = fetch_spec(keys.drop_first(), present.drop_first());
        if present[0] {
            rest
        } else {
            seq![keys[0]] + rest
        }
    }
}

/// The keys to ask the keyserver for: those the keyring does not hold.
/// `present` reports the keyring lookups, one per key.
pub fn keys_to_fetch(keys: &Vec<String>, present: &Vec<bool>) -> (r: Vec<String>)
    requires
        keys@.len() == present@.len(),
    ensures
        r.deep_view() == fetch_spec(keys.deep_view(), present@),
{
    let ghost kv = keys.deep_view();
    let ghost pv = present@;
    let mut r: Vec<String> = Vec::new();
    let mut k: usize = 0;
    assert(r.deep_view() =~= Seq::<Seq<char>>::empty());
    assert(kv.skip(0) =~= kv);
    assert(pv.skip(0) =~= pv);
    while k < keys.len()
        invariant
            k <= keys@.len(),
            keys@.len() == present@.len(),
            kv == keys.deep_view(),
            pv == present@,
            fetch_spec(kv, pv) == r.deep_view() + fetch_spec(kv.skip(k as int), pv.skip(k as int)),
        decreases keys@.len() - k,
    {
        proof {
            assert(kv.skip(k as int)[0] == kv[k as int]);
            assert(pv.skip(k as int)[0] == pv[k as int]);
            assert(kv.skip(k as int).drop_first() =~= kv.skip(k as int + 1));
            assert(pv.skip(k as int).drop_first() =~= pv.skip(k as int + 1));
        }
        if !present[k] {
            let ghost pre = r.deep_view();
            r.push(keys[k].clone());
            assert(r.deep_view() =~= pre.push(kv[k as int]));
        }
        k = k + 1;
        assert(fetch_spec(kv, pv) =~~= r.deep_view() + fetch_spec(
            kv.skip(k as int),
            pv.skip(k as int),
        ));
    }
    proof {
        assert(kv.skip(kv.len() as int) =~= Seq::<Seq<char>>::empty());
    }
    r
}

/// Whether every key ended up in the keyring; when not, the build is
/// told to skip the signature check, and nothing is aborted.
pub fn all_keys_resolved(outcomes: &Vec<bool>) -> (r: bool)
    ensures
        r == (forall|i: int| 0 <= i < outcomes@.len() ==> outcomes@[i]),
{
    let mut i: usize = 0;
    while i < outcomes.len()
        invariant
            i <= outcomes@.len(),
            forall|j: int| 0 <= j < i ==> outcomes@[j],
        decreases outcomes@.len() - i,
    {
        if !outcomes[i] {
            return false;
        }
        i = i + 1;
    }
    true
}

} // verus!
