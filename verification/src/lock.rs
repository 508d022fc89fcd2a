//! The single-instance lock's decision rules.
//!
//! The lock file holds the holder's PID in ASCII. When exclusive
//! creation fails, the file's content and the process table decide:
//! a live process of this tool keeps the lock; a dead, foreign or
//! unreadable holder leaves a stale file that may be removed and the
//! acquisition retried. The file operations themselves stay outside.

use vstd::prelude::*;
use vstd::string::*;
use crate::text::{all_digits, digits_val, trim_spec, str_chars, trim_chars, subrange_vec, chars_eq, parse_usize};

verus! {

/// `pat` occurs somewhere in `hay`.
pub open spec fn has_sub(hay: Seq<char>, pat: Seq<char>) -> bool {
    exists|i: int| 0 <= i <= hay.len() - pat.len() && #[trigger] hay.subrange(i, i + pat.len())
        == pat
}

/// True when the characters of `pat` occur in order inside `hay`.
pub fn contains_sub(hay: &Vec<char>, pat: &Vec<char>) -> (r: bool)
    ensures
        r == has_sub(hay@, pat@),
{
    if pat.len() > hay.len() {
        return false;
    }
    if pat.len() == 0 {
        proof {
            assert(hay@.subrange(0, 0 + pat@.len() as int) =~= pat@);
        }
        return true;
    }
    let pl = pat.len();
    let hl = hay.len();
    let bound = hl - pl;
    let mut i: usize = 0;
    while i <= bound
        invariant
            i <= bound + 1,
            pl == pat@.len(),
            hl == hay@.len(),
            1 <= pl <= hl,
            bound == hl - pl,
            forall|j: int| 0 <= j < i ==> #[trigger] hay@.subrange(j, j + pat@.len()) != pat@,
        decreases bound + 1 - i,
    {
        let piece = subrange_vec(hay, i, i + pl);
        if chars_eq(&piece, pat) {
            assert(hay@.subrange(i as int, i + pat@.len()) == pat@);
            return true;
        }
        i = i + 1;
    }
    false
}

/// The marker the holder's process name must carry to count as this
/// tool.
pub open spec fn app_name_chars() -> Seq<char> {
    seq!['a', 'x']
}

/// What to do about an existing lock file.
#[derive(PartialEq, Eq, Structural, Clone, Copy, Debug)]
pub enum LockAction {
    OtherRunning,
    RemoveStale,
}

/// The decision over the file's content, this process's PID, and the
/// name of the process holding the recorded PID (nothing when no such
/// process runs): only a live, foreign process whose name carries the
/// tool's marker keeps the lock; everything else is stale.
pub open spec fn lock_decision_spec(
    content: Seq<char>,
    self_pid: usize,
    proc_name: Option<Seq<char>>,
) -> LockAction {
    let t = trim_spec(content);
    if t.len() == 0 || !all_digits(t) || digits_val(t) > usize::MAX {
        LockAction::RemoveStale
    } else if digits_val(t) == self_pid {
        LockAction::RemoveStale
    } else {
        match proc_name {
            None => LockAction::RemoveStale,
            Some(nm) => if has_sub(nm, app_name_chars()) {
                LockAction::OtherRunning
            } else {
                LockAction::RemoveStale
            },
        }
    }
}

/// Decides about an existing lock file.
pub fn lock_decision(content: &str, self_pid: usize, proc_name: Option<&str>) -> (r: LockAction)
    ensures
        r == lock_decision_spec(
            content@,
            self_pid,
            match proc_name {
                Some(nm) => Some(nm@),
                None => None,
            },
        ),
{
    let chars = str_chars(content);
    let t = trim_chars(&chars);
    let pid = match parse_usize(&t) {
        Some(p) => p,
        None => {
            return LockAction::RemoveStale;
        },
    };
    if pid == self_pid {
        return LockAction::RemoveStale;
    }
    match proc_name {
        None => LockAction::RemoveStale,
        Some(nm) => {
            let nv = str_chars(nm);
            let marker: Vec<char> = vec!['a', 'x'];
            proof {
                assert(marker@ =~= app_name_chars());
            }
            if contains_sub(&nv, &marker) {
                LockAction::OtherRunning
            } else {
                LockAction::RemoveStale
            }
        },
    }
}

/// A lock file naming a PID with no live process is stale, whatever it
/// holds.
pub proof fn lemma_dead_pid_is_stale(content: Seq<char>, self_pid: usize)
    ensures
        lock_decision_spec(content, self_pid, None) == LockAction::RemoveStale,
{
}

} // verus!
