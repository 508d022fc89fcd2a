//! The interactive surface's decisions: search results under one
//! name accessor, the yes/no rule, and the error-action menu. The
//! terminal itself stays outside; when input is no terminal, every
//! prompt falls to its non-interactive answer.

use vstd::prelude::*;
use vstd::string::*;
use crate::text::trim_spec;

verus! {

/// One search hit: from the sync repositories or from the AUR.
pub enum SearchResult {
    Repo(crate::pacman::Package),
    Aur(crate::api::AurPackage),
}

pub open spec fn result_name(r: SearchResult) -> Seq<char> {
    match r {
        SearchResult::Repo(p) => p.name@,
        SearchResult::Aur(p) => p.name@,
    }
}

impl SearchResult {
    /// The hit's package name, whichever side it came from.
    pub fn name(&self) -> (r: &str)
        ensures
            r@ == result_name(*self),
    {
        match self {
            SearchResult::Repo(p) => p.name.as_str(),
            SearchResult::Aur(p) => p.name.as_str(),
        }
    }
}

/// The names the chosen indices pick, in order.
pub fn select_names(results: &Vec<SearchResult>, picks: &Vec<usize>) -> (r: Vec<String>)
    requires
        forall|i: int| 0 <= i < picks@.len() ==> picks@[i] < results@.len(),
    ensures
        r.deep_view().len() == picks@.len(),
        forall|i: int|
            0 <= i < picks@.len() ==> #[trigger] r.deep_view()[i] == result_name(
                results@[picks@[i] as int],
            ),
{
    let mut r: Vec<String> = Vec::new();
    let mut k: usize = 0;
    while k < picks.len()
        invariant
            k <= picks@.len(),
            forall|i: int| 0 <= i < picks@.len() ==> picks@[i] < results@.len(),
            r.deep_view().len() == k,
            forall|i: int|
                0 <= i < k ==> #[trigger] r.deep_view()[i] == result_name(
                    results@[picks@[i] as int],
                ),
        decreases picks@.len() - k,
    {
        let ghost pre = r.deep_view();
        let name = String::from_str(results[picks[k]].name());
        r.push(name);
        proof {
            assert(r.deep_view() =~= pre.push(result_name(results@[picks@[k as int] as int])));
        }
        k = k + 1;
    }
    r
}

/// A yes/no answer: empty means yes, as do `y` and `yes` in any
/// letter case.
pub open spec fn yes_no_spec(s: Seq<char>) -> bool {
    let t = trim_spec(s);
    ||| t.len() == 0
    ||| (t.len() == 1 && (t[0] == 'y' || t[0] == 'Y'))
    ||| (t.len() == 3 && (t[0] == 'y' || t[0] == 'Y') && (t[1] == 'e' || t[1] == 'E') && (t[2]
        == 's' || t[2] == 'S'))
}

/// Reads a yes/no answer; without a terminal (`no_confirm`) the answer
/// is always no.
pub fn parse_yes_no(input: &str, no_confirm: bool) -> (r: bool)
    ensures
        r == (!no_confirm && yes_no_spec(input@)),
{
    if no_confirm {
        return false;
    }
    let chars = crate::text::str_chars(input);
    let t = crate::text::trim_chars(&chars);
    if t.len() == 0 {
        return true;
    }
    if t.len() == 1 {
        let c = t[0];
        return c == 'y' || c == 'Y';
    }
    if t.len() == 3 {
        let a = t[0];
        let b = t[1];
        let c = t[2];
        return (a == 'y' || a == 'Y') && (b == 'e' || b == 'E') && (c == 's' || c == 'S');
    }
    false
}

/// What to do after a failed build or install step.
#[derive(PartialEq, Eq, Structural, Clone, Copy, Debug)]
pub enum ErrorAction {
    Retry,
    Skip,
    Abort,
}

/// The menu's reading of an answer: `r` retries where retrying is
/// offered, `s` skips the base, anything else aborts.
pub open spec fn error_action_spec(s: Seq<char>, retry_allowed: bool) -> ErrorAction {
    let t = trim_spec(s);
    if t.len() == 1 && (t[0] == 'r' || t[0] == 'R') && retry_allowed {
        ErrorAction::Retry
    } else if t.len() == 1 && (t[0] == 's' || t[0] == 'S') {
        ErrorAction::Skip
    } else {
        ErrorAction::Abort
    }
}

/// Reads an error-menu answer; without a terminal (`no_confirm`) the
/// answer is always abort.
pub fn parse_error_action(input: &str, retry_allowed: bool, no_confirm: bool) -> (r: ErrorAction)
    ensures
        no_confirm ==> r == ErrorAction::Abort,
        !no_confirm ==> r == error_action_spec(input@, retry_allowed),
{
    if no_confirm {
        return ErrorAction::Abort;
    }
    let chars = crate::text::str_chars(input);
    let t = crate::text::trim_chars(&chars);
    if t.len() == 1 {
        let c = t[0];
        if (c == 'r' || c == 'R') && retry_allowed {
            return ErrorAction::Retry;
        }
        if c == 's' || c == 'S' {
            return ErrorAction::Skip;
        }
    }
    ErrorAction::Abort
}

} // verus!
