//! The AUR RPC client's decisions: how the batched `info` query is
//! formed, and how rate limiting is retried.
//!
//! The network call itself stays outside; these functions fix what is
//! sent and what each HTTP outcome means.

use vstd::prelude::*;
use vstd::string::*;
use crate::text::chars_to_string;

verus! {

/// One package as the AUR RPC reports it.
pub struct AurPackage {
    pub name: String,
    pub version: String,
    pub _maintainer: Option<String>,
    pub description: Option<String>,
    pub num_votes: Option<i32>,
}

pub open spec fn arg_key_chars() -> Seq<char> {
    seq!['a', 'r', 'g', '[', ']']
}

/// The query parameters of a batched `info` call: one repeated
/// `arg[]` pair per name. An empty request needs no network call and
/// yields nothing.
pub fn info_query_params(packages: &Vec<String>) -> (r: Option<Vec<(String, String)>>)
    ensures
        (packages@.len() == 0) <==> (r is None),
        match r {
            Some(ps) => ps@.len() == packages@.len() && forall|i: int|
                0 <= i < ps@.len() ==> (#[trigger] ps@[i]).0@ == arg_key_chars() && ps@[i].1@
                    == packages.deep_view()[i],
            None => true,
        },
{
    if packages.len() == 0 {
        return None;
    }
    let mut ps: Vec<(String, String)> = Vec::new();
    let mut i: usize = 0;
    while i < packages.len()
        invariant
            i <= packages@.len(),
            ps@.len() == i,
            forall|j: int|
                0 <= j < i ==> (#[trigger] ps@[j]).0@ == arg_key_chars() && ps@[j].1@
                    == packages.deep_view()[j],
        decreases packages@.len() - i,
    {
        let key_chars: Vec<char> = vec!['a', 'r', 'g', '[', ']'];
        proof {
            assert(key_chars@ =~= arg_key_chars());
        }
        ps.push((chars_to_string(&key_chars), packages[i].clone()));
        i = i + 1;
    }
    Some(ps)
}

/// The backoff before retry `attempt` (counting from zero): one, two,
/// then four seconds.
pub open spec fn backoff_spec(attempt: nat) -> u64 {
    if attempt == 0 {
        1
    } else if attempt == 1 {
        2
    } else {
        4
    }
}

/// What one HTTP outcome of the RPC means: success proceeds; a
/// rate-limit waits with exponential backoff, three times at most;
/// anything else fails at once.
#[derive(PartialEq, Eq, Structural, Clone, Copy, Debug)]
pub enum RpcStep {
    Proceed,
    RetryAfter(u64),
    Fail,
}

pub fn rpc_step(status: u16, attempt: usize) -> (r: RpcStep)
    ensures
        200 <= status < 300 ==> r == RpcStep::Proceed,
        status == 429 && attempt < 3 ==> r == RpcStep::RetryAfter(backoff_spec(attempt as nat)),
        status == 429 && attempt >= 3 ==> r == RpcStep::Fail,
        !(200 <= status < 300) && status != 429 ==> r == RpcStep::Fail,
{
    if 200 <= status && status < 300 {
        RpcStep::Proceed
    } else if status == 429 && attempt < 3 {
        if attempt == 0 {
            RpcStep::RetryAfter(1)
        } else if attempt == 1 {
            RpcStep::RetryAfter(2)
        } else {
            RpcStep::RetryAfter(4)
        }
    } else {
        RpcStep::Fail
    }
}

} // verus!
