//! The command surface, and the splitting of raw arguments.
//!
//! Arguments that begin with `-` are forwarded verbatim to the native
//! package manager; `--noconfirm` additionally turns every prompt
//! non-interactive. The argument parser itself stays outside.

use vstd::prelude::*;
use vstd::string::*;
use crate::text::str_chars;

verus! {

/// The top-level invocation: a subcommand, or bare query words.
pub struct Cli {
    pub command: Option<Commands>,
    pub query: Vec<String>,
}

/// The subcommands.
pub enum Commands {
    Sync { refresh: bool, sysupgrade: bool, cleanbuild: bool, packages: Vec<String> },
    Remove { packages: Vec<String> },
}

pub open spec fn noconfirm_chars() -> Seq<char> {
    seq!['-', '-', 'n', 'o', 'c', 'o', 'n', 'f', 'i', 'r', 'm']
}

pub open spec fn is_flag(s: Seq<char>) -> bool {
    s.len() >= 1 && s[0] == '-'
}

/// The arguments that are package names, in order.
pub open spec fn packages_spec(args: Seq<Seq<char>>) -> Seq<Seq<char>>
    decreases args.len(),
{
    if args.len() == 0 {
        Seq::empty()
    } else {
        let rest = packages_spec(args.drop_first());
        if is_flag(args[0]) {
            rest
        } else {
            seq![args[0]] + rest
        }
    }
}

/// The arguments forwarded verbatim, in order.
pub open spec fn forwarded_spec(args: Seq<Seq<char>>) -> Seq<Seq<char>>
    decreases args.len(),
{
    if args.len() == 0 {
        Seq::empty()
    } else {
        let rest = forwarded_spec(args.drop_first());
        if is_flag(args[0]) {
            seq![args[0]] + rest
        } else {
            rest
        }
    }
}

/// The package names, the forwarded flags, and whether `--noconfirm`
/// was among them.
pub fn split_forwarded(args: &Vec<String>) -> (r: (Vec<String>, Vec<String>, bool))
    ensures
        r.0.deep_view() == packages_spec(args.deep_view()),
        r.1.deep_view() == forwarded_spec(args.deep_view()),
        r.2 == args.deep_view().contains(noconfirm_chars()),
{
    let ghost av = args.deep_view();
    let mut packages: Vec<String> = Vec::new();
    let mut forwarded: Vec<String> = Vec::new();
    let mut no_confirm = false;
    let nc: Vec<char> = vec!['-', '-', 'n', 'o', 'c', 'o', 'n', 'f', 'i', 'r', 'm'];
    proof {
        assert(nc@ =~= noconfirm_chars());
    }
    let mut k: usize = 0;
    assert(packages.deep_view() =~= Seq::<Seq<char>>::empty());
    assert(forwarded.deep_view() =~= Seq::<Seq<char>>::empty());
    assert(av.skip(0) =~= av);
    while k < args.len()
        invariant
            k <= args@.len(),
            av == args.deep_view(),
            nc@ == noconfirm_chars(),
            packages_spec(av) == packages.deep_view() + packages_spec(av.skip(k as int)),
            forwarded_spec(av) == forwarded.deep_view() + forwarded_spec(av.skip(k as int)),
            no_confirm == exists|j: int| 0 <= j < k && av[j] == noconfirm_chars(),
        decreases args@.len() - k,
    {
        proof {
            assert(av.skip(k as int)[0] == av[k as int]);
            assert(av.skip(k as int).drop_first() =~= av.skip(k as int + 1));
        }
        let chars = str_chars(args[k].as_str());
        let flag = chars.len() >= 1 && chars[0] == '-';
        if flag {
            let ghost pre = forwarded.deep_view();
            forwarded.push(args[k].clone());
            assert(forwarded.deep_view() =~= pre.push(av[k as int]));
            if crate::text::chars_eq(&chars, &nc) {
                no_confirm = true;
            }
        } else {
            let ghost pre = packages.deep_view();
            packages.push(args[k].clone());
            assert(packages.deep_view() =~= pre.push(av[k as int]));
        }
        k = k + 1;
        proof {
            assert(packages_spec(av) =~~= packages.deep_view() + packages_spec(
                av.skip(k as int),
            ));
            assert(forwarded_spec(av) =~~= forwarded.deep_view() + forwarded_spec(
                av.skip(k as int),
            ));
            if no_confirm {
                assert(exists|j: int| 0 <= j < k && av[j] == noconfirm_chars());
            }
        }
    }
    proof {
        assert(av.skip(av.len() as int) =~= Seq::<Seq<char>>::empty());
        if no_confirm {
            let j = choose|j: int| 0 <= j < av.len() && av[j] == noconfirm_chars();
            assert(av.contains(noconfirm_chars()));
        }
        if av.contains(noconfirm_chars()) {
            let j = choose|j: int| 0 <= j < av.len() && av[j] == noconfirm_chars();
            assert(exists|j2: int| 0 <= j2 < av.len() && av[j2] == noconfirm_chars());
        }
    }
    (packages, forwarded, no_confirm)
}

} // verus!
