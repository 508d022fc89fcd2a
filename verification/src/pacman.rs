//! Reading the native tool's search output.
//!
//! The output lists one package per two lines: a header
//! `repo/name version … [installed]?` and an indented description.
//! Malformed pairs are skipped; a trailing lone line is ignored.

use vstd::prelude::*;
use vstd::string::*;
use crate::text::{
    str_chars, chars_to_string, chars_eq, subrange_vec, trim_chars, trim_spec, split_char,
    split_char_spec, find_idx, find_char,
};
use crate::selection::{tokens_spec, tokenize};

verus! {

/// One package as the search output describes it.
pub struct Package {
    pub repo: String,
    pub name: String,
    pub version: String,
    pub description: String,
    pub installed: bool,
}

#[verifier::ext_equal]
pub ghost struct PackageV {
    pub repo: Seq<char>,
    pub name: Seq<char>,
    pub version: Seq<char>,
    pub description: Seq<char>,
    pub installed: bool,
}

impl View for Package {
    type V = PackageV;

    open spec fn view(&self) -> PackageV {
        PackageV {
            repo: self.repo@,
            name: self.name@,
            version: self.version@,
            description: self.description@,
            installed: self.installed,
        }
    }
}

impl DeepView for Package {
    type V = PackageV;

    open spec fn deep_view(&self) -> PackageV {
        self.view()
    }
}

pub open spec fn installed_chars() -> Seq<char> {
    seq!['[', 'i', 'n', 's', 't', 'a', 'l', 'l', 'e', 'd', ']']
}

/// One header-and-description pair, read into a package: the first
/// token splits at its first `/` into repository and name, the second
/// token is the version, and a final `[installed]` token marks an
/// installed package.
pub open spec fn pkg_of_pair(h: Seq<char>, d: Seq<char>) -> Option<PackageV> {
    let toks = tokens_spec(h);
    if toks.len() < 2 {
        None
    } else {
        let p = find_idx(toks[0], '/');
        if p < 0 {
            None
        } else {
            Some(
                PackageV {
                    repo: toks[0].subrange(0, p),
                    name: toks[0].subrange(p + 1, toks[0].len() as int),
                    version: toks[1],
                    description: trim_spec(d),
                    installed: toks[toks.len() - 1] == installed_chars(),
                },
            )
        }
    }
}

/// The packages of the output lines, two lines per entry.
pub open spec fn parse_search_spec(lines: Seq<Seq<char>>) -> Seq<PackageV>
    decreases lines.len(),
{
    if lines.len() < 2 {
        Seq::empty()
    } else {
        let rest = parse_search_spec(lines.skip(2));
        match pkg_of_pair(lines[0], lines[1]) {
            Some(p) => seq![p] + rest,
            None => rest,
        }
    }
}

/// Reads the search output into packages.
pub fn parse_search_output(raw: &str) -> (r: Vec<Package>)
    ensures
        r.deep_view() == parse_search_spec(split_char_spec(raw@, '\n')),
{
    let chars = str_chars(raw);
    let lines = split_char(&chars, '\n');
    let ghost lv = lines@.map_values(|e: Vec<char>| e@);
    let installed_tok: Vec<char> = vec!['[', 'i', 'n', 's', 't', 'a', 'l', 'l', 'e', 'd', ']'];
    proof {
        assert(installed_tok@ =~= installed_chars());
    }
    let mut r: Vec<Package> = Vec::new();
    let mut i: usize = 0;
    assert(r.deep_view() =~= Seq::<PackageV>::empty());
    assert(lv.skip(0) =~= lv);
    while i < lines.len() - 1
        invariant
            lines@.len() >= 1,
            i <= lines@.len(),
            lv == lines@.map_values(|e: Vec<char>| e@),
            installed_tok@ == installed_chars(),
            parse_search_spec(lv) == r.deep_view() + parse_search_spec(lv.skip(i as int)),
        decreases lines@.len() - i,
    {
        proof {
            assert(lv.skip(i as int)[0] == lv[i as int]);
            assert(lv.skip(i as int)[1] == lv[i + 1]);
            assert(lv.skip(i as int).skip(2) =~= lv.skip(i as int + 2));
        }
        let toks = tokenize(&lines[i]);
        let ghost tv = tokens_spec(lv[i as int]);
        if toks.len() >= 2 {
            proof {
                assert(toks@.map_values(|e: Vec<char>| e@)[0] == tv[0]);
                assert(toks@.map_values(|e: Vec<char>| e@)[1] == tv[1]);
                assert(toks@.map_values(|e: Vec<char>| e@)[toks@.len() - 1] == tv[tv.len() - 1]);
            }
            match find_char(&toks[0], '/') {
                Some(p) => {
                    let first_len = toks[0].len();
                    let repo = subrange_vec(&toks[0], 0, p);
                    let name = subrange_vec(&toks[0], p + 1, first_len);
                    let desc = trim_chars(&lines[i + 1]);
                    let last = toks.len() - 1;
                    let inst = chars_eq(&toks[last], &installed_tok);
                    let pkg = Package {
                        repo: chars_to_string(&repo),
                        name: chars_to_string(&name),
                        version: chars_to_string(&toks[1]),
                        description: chars_to_string(&desc),
                        installed: inst,
                    };
                    proof {
                        assert(pkg@ =~~= pkg_of_pair(lv[i as int], lv[i + 1]).unwrap());
                    }
                    let ghost pre = r.deep_view();
                    r.push(pkg);
                    assert(r.deep_view() =~= pre.push(
                        pkg_of_pair(lv[i as int], lv[i + 1]).unwrap(),
                    ));
                },
                None => {
                    assert(pkg_of_pair(lv[i as int], lv[i + 1]) is None);
                },
            }
        } else {
            assert(pkg_of_pair(lv[i as int], lv[i + 1]) is None);
        }
        i = i + 2;
        assert(parse_search_spec(lv) =~~= r.deep_view() + parse_search_spec(lv.skip(i as int)));
    }
    proof {
        assert(lv.skip(i as int).len() < 2);
        assert(parse_search_spec(lv) =~~= r.deep_view());
    }
    r
}

} // verus!
