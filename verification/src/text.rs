//! Character-level text utilities shared by the parsers: conversion
//! between `&str` and `Vec<char>`, trimming, splitting on a separator,
//! and decimal number reading.

use vstd::prelude::*;
use vstd::string::*;

verus! {

/// ASCII whitespace as the trimmer understands it (newline is handled
/// by the line splitter).
pub open spec fn is_space_char(c: char) -> bool {
    c == ' ' || c == '\t' || c == '\r'
}

pub open spec fn is_digit_char(c: char) -> bool {
    '0' <= c && c <= '9'
}

/// The numeric value of a digit sequence, most significant digit first.
pub open spec fn digits_val(s: Seq<char>) -> nat
    decreases s.len(),
{
    if s.len() == 0 {
        0
    } else {
        digits_val(s.drop_last()) * 10 + ((s.last() as int - '0' as int) as nat)
    }
}

pub open spec fn all_digits(s: Seq<char>) -> bool {
    forall|i: int| 0 <= i < s.len() ==> is_digit_char(#[trigger] s[i])
}

/// The longest prefix of `s` made of whitespace, dropped.
pub open spec fn trim_start_spec(s: Seq<char>) -> Seq<char>
    decreases s.len(),
{
    if s.len() == 0 {
        s
    } else if is_space_char(s[0]) {
        trim_start_spec(s.drop_first())
    } else {
        s
    }
}

/// The longest suffix of `s` made of whitespace, dropped.
pub open spec fn trim_end_spec(s: Seq<char>) -> Seq<char>
    decreases s.len(),
{
    if s.len() == 0 {
        s
    } else if is_space_char(s.last()) {
        trim_end_spec(s.drop_last())
    } else {
        s
    }
}

pub open spec fn trim_spec(s: Seq<char>) -> Seq<char> {
    trim_end_spec(trim_start_spec(s))
}

/// The pieces of `s` between occurrences of the separator `c`: one more
/// piece than there are separators, each piece free of `c`.
pub open spec fn split_char_spec(s: Seq<char>, c: char) -> Seq<Seq<char>>
    decreases s.len(),
{
    if s.len() == 0 {
        seq![Seq::<char>::empty()]
    } else if s[0] == c {
        seq![Seq::<char>::empty()] + split_char_spec(s.drop_first(), c)
    } else {
        let rest = split_char_spec(s.drop_first(), c);
        seq![seq![s[0]] + rest[0]] + rest.drop_first()
    }
}

pub proof fn lemma_split_len_pos(s: Seq<char>, c: char)
    ensures
        split_char_spec(s, c).len() >= 1,
    decreases s.len(),
{
    if s.len() > 0 {
        lemma_split_len_pos(s.drop_first(), c);
    }
}

/// A separator-free sequence splits into itself alone.
pub proof fn lemma_split_nosep(s: Seq<char>, c: char)
    requires
        forall|j: int| 0 <= j < s.len() ==> s[j] != c,
    ensures
        split_char_spec(s, c) == seq![s],
    decreases s.len(),
{
    if s.len() == 0 {
        assert(s =~= Seq::<char>::empty());
        assert(split_char_spec(s, c) =~= seq![s]);
    } else {
        lemma_split_nosep(s.drop_first(), c);
        let rest = split_char_spec(s.drop_first(), c);
        assert(rest == seq![s.drop_first()]);
        assert(seq![s[0]] + rest[0] =~= s);
        assert(rest.drop_first() =~= Seq::<Seq<char>>::empty());
        assert(split_char_spec(s, c) =~= seq![s]);
    }
}

/// Splitting at the first separator: the piece before it, then the
/// split of what follows it.
pub proof fn lemma_split_first(s: Seq<char>, c: char, e: int)
    requires
        0 <= e < s.len(),
        s[e] == c,
        forall|j: int| 0 <= j < e ==> s[j] != c,
    ensures
        split_char_spec(s, c) == seq![s.subrange(0, e)] + split_char_spec(
            s.subrange(e + 1, s.len() as int),
            c,
        ),
    decreases e,
{
    if e == 0 {
        assert(s.subrange(0, 0) =~= Seq::<char>::empty());
        assert(s.subrange(1, s.len() as int) =~= s.drop_first());
        assert(split_char_spec(s, c) =~= seq![s.subrange(0, e)] + split_char_spec(
            s.subrange(e + 1, s.len() as int),
            c,
        ));
    } else {
        let df = s.drop_first();
        lemma_split_first(df, c, e - 1);
        lemma_split_len_pos(df.subrange(e, df.len() as int), c);
        let rest = split_char_spec(df, c);
        assert(rest[0] == df.subrange(0, e - 1));
        assert(seq![s[0]] + rest[0] =~= s.subrange(0, e));
        assert(df.subrange(e, df.len() as int) =~= s.subrange(e + 1, s.len() as int));
        assert(rest.drop_first() =~= split_char_spec(s.subrange(e + 1, s.len() as int), c));
        assert(split_char_spec(s, c) =~= seq![s.subrange(0, e)] + split_char_spec(
            s.subrange(e + 1, s.len() as int),
            c,
        ));
    }
}

/// The characters of `s`, one per vector element.
pub fn str_chars(s: &str) -> (r: Vec<char>)
    ensures
        r@ == s@,
{
    let n = s.unicode_len();
    let mut r: Vec<char> = Vec::new();
    let mut i: usize = 0;
    while i < n
        invariant
            n == s@.len(),
            i <= n,
            r@ == s@.subrange(0, i as int),
        decreases n - i,
    {
        r.push(s.get_char(i));
        i = i + 1;
        assert(r@ =~= s@.subrange(0, i as int));
    }
    assert(s@.subrange(0, n as int) =~= s@);
    r
}

/// Relies on `String: FromIterator<char>`: collecting characters yields
/// the string holding exactly those characters in order.
#[verifier::external_body]
pub fn chars_to_string(v: &Vec<char>) -> (r: String)
    ensures
        r@ == v@,
{
    v.iter().collect()
}

proof fn lemma_trim_start_skip(s: Seq<char>, i: int)
    requires
        0 <= i <= s.len(),
        forall|j: int| 0 <= j < i ==> is_space_char(#[trigger] s[j]),
    ensures
        trim_start_spec(s) == trim_start_spec(s.subrange(i, s.len() as int)),
    decreases i,
{
    if i > 0 {
        lemma_trim_start_skip(s.drop_first(), i - 1);
        assert(s.drop_first().subrange(i - 1, s.drop_first().len() as int) =~= s.subrange(
            i,
            s.len() as int,
        ));
    } else {
        assert(s.subrange(0, s.len() as int) =~= s);
    }
}

proof fn lemma_trim_end_drop(s: Seq<char>, i: int)
    requires
        0 <= i <= s.len(),
        forall|j: int| i <= j < s.len() ==> is_space_char(#[trigger] s[j]),
    ensures
        trim_end_spec(s) == trim_end_spec(s.subrange(0, i)),
    decreases s.len() - i,
{
    if i < s.len() {
        lemma_trim_end_drop(s.drop_last(), i);
        assert(s.drop_last().subrange(0, i) =~= s.subrange(0, i));
    } else {
        assert(s.subrange(0, s.len() as int) =~= s);
    }
}

/// `v` with leading and trailing whitespace removed.
pub fn trim_chars(v: &Vec<char>) -> (r: Vec<char>)
    ensures
        r@ == trim_spec(v@),
{
    let mut start: usize = 0;
    while start < v.len() && (v[start] == ' ' || v[start] == '\t' || v[start] == '\r')
        invariant
            start <= v@.len(),
            forall|j: int| 0 <= j < start ==> is_space_char(#[trigger] v@[j]),
        decreases v@.len() - start,
    {
        start = start + 1;
    }
    let mut end: usize = v.len();
    while end > start && (v[end - 1] == ' ' || v[end - 1] == '\t' || v[end - 1] == '\r')
        invariant
            start <= end <= v@.len(),
            forall|j: int| end <= j < v@.len() ==> is_space_char(#[trigger] v@[j]),
        decreases end,
    {
        end = end - 1;
    }
    let mut r: Vec<char> = Vec::new();
    let mut i: usize = start;
    while i < end
        invariant
            start <= i <= end <= v@.len(),
            r@ == v@.subrange(start as int, i as int),
        decreases end - i,
    {
        r.push(v[i]);
        i = i + 1;
        assert(r@ =~= v@.subrange(start as int, i as int));
    }
    proof {
        lemma_trim_start_skip(v@, start as int);
        let tail = v@.subrange(start as int, v@.len() as int);
        assert(trim_start_spec(v@) == tail);
        lemma_trim_end_drop(tail, end - start);
        let kept = tail.subrange(0, end - start);
        assert(kept =~= v@.subrange(start as int, end as int));
        assert(trim_end_spec(kept) == kept);
        assert(r@ =~= v@.subrange(start as int, end as int));
    }
    r
}

/// The pieces of `v` between occurrences of the separator `c`.
pub fn split_char(v: &Vec<char>, c: char) -> (r: Vec<Vec<char>>)
    ensures
        r@.map_values(|e: Vec<char>| e@) == split_char_spec(v@, c),
        r@.len() >= 1,
{
    let mut r: Vec<Vec<char>> = Vec::new();
    let mut cur: Vec<char> = Vec::new();
    let ghost mut start: int = 0;
    let mut i: usize = 0;
    assert(r@.map_values(|e: Vec<char>| e@) =~= Seq::<Seq<char>>::empty());
    assert(v@.subrange(0, v@.len() as int) =~= v@);
    while i < v.len()
        invariant
            0 <= start <= i <= v@.len(),
            cur@ == v@.subrange(start, i as int),
            forall|j: int| start <= j < i ==> v@[j] != c,
            split_char_spec(v@, c) == r@.map_values(|e: Vec<char>| e@) + split_char_spec(
                v@.subrange(start, v@.len() as int),
                c,
            ),
        decreases v@.len() - i,
    {
        let x = v[i];
        if x == c {
            proof {
                let tail = v@.subrange(start, v@.len() as int);
                lemma_split_first(tail, c, i - start);
                assert(tail.subrange(0, i - start) =~= v@.subrange(start, i as int));
                assert(tail.subrange(i - start + 1, tail.len() as int) =~= v@.subrange(
                    i + 1,
                    v@.len() as int,
                ));
            }
            let done = cur;
            cur = Vec::new();
            i = i + 1;
            proof {
                start = i as int;
            }
            let ghost pre = r@.map_values(|e: Vec<char>| e@);
            r.push(done);
            assert(r@.map_values(|e: Vec<char>| e@) =~= pre + seq![done@]);
            assert(split_char_spec(v@, c) =~~= r@.map_values(|e: Vec<char>| e@)
                + split_char_spec(v@.subrange(start, v@.len() as int), c));
            assert(cur@ =~= v@.subrange(start, i as int));
        } else {
            cur.push(x);
            i = i + 1;
            assert(cur@ =~= v@.subrange(start, i as int));
        }
    }
    proof {
        let tail = v@.subrange(start, v@.len() as int);
        lemma_split_nosep(tail, c);
    }
    let ghost pre = r@.map_values(|e: Vec<char>| e@);
    let ghost last = cur@;
    r.push(cur);
    assert(r@.map_values(|e: Vec<char>| e@) =~= pre + seq![last]);
    assert(r@.map_values(|e: Vec<char>| e@) =~~= split_char_spec(v@, c));
    r
}

/// A copy of the characters of `v` between `a` and `b`.
pub fn subrange_vec(v: &Vec<char>, a: usize, b: usize) -> (r: Vec<char>)
    requires
        a <= b <= v@.len(),
    ensures
        r@ == v@.subrange(a as int, b as int),
{
    let mut r: Vec<char> = Vec::new();
    let mut i: usize = a;
    while i < b
        invariant
            a <= i <= b <= v@.len(),
            r@ == v@.subrange(a as int, i as int),
        decreases b - i,
    {
        r.push(v[i]);
        i = i + 1;
        assert(r@ =~= v@.subrange(a as int, i as int));
    }
    r
}

/// Trimming a string whose ends are not whitespace changes nothing.
pub proof fn lemma_trim_noop(s: Seq<char>)
    requires
        s.len() == 0 || (!is_space_char(s[0]) && !is_space_char(s.last())),
    ensures
        trim_spec(s) == s,
{
}

/// True when the two character vectors hold the same characters.
pub fn chars_eq(a: &Vec<char>, b: &Vec<char>) -> (r: bool)
    ensures
        r == (a@ == b@),
{
    if a.len() != b.len() {
        return false;
    }
    let mut i: usize = 0;
    while i < a.len()
        invariant
            a@.len() == b@.len(),
            i <= a@.len(),
            forall|j: int| 0 <= j < i ==> a@[j] == b@[j],
        decreases a@.len() - i,
    {
        if a[i] != b[i] {
            return false;
        }
        i = i + 1;
    }
    proof {
        assert(a@ =~= b@);
    }
    true
}

pub open spec fn starts_with_spec(s: Seq<char>, pre: Seq<char>) -> bool {
    s.len() >= pre.len() && s.subrange(0, pre.len() as int) == pre
}

/// True when `v` begins with the characters of `pre`.
pub fn starts_with_chars(v: &Vec<char>, pre: &Vec<char>) -> (r: bool)
    ensures
        r == starts_with_spec(v@, pre@),
{
    if v.len() < pre.len() {
        return false;
    }
    let head = subrange_vec(v, 0, pre.len());
    chars_eq(&head, pre)
}

pub open spec fn ends_with_spec(s: Seq<char>, suf: Seq<char>) -> bool {
    s.len() >= suf.len() && s.subrange(s.len() - suf.len(), s.len() as int) == suf
}

/// True when `v` ends in the characters of `suf`.
pub fn ends_with_chars(v: &Vec<char>, suf: &Vec<char>) -> (r: bool)
    ensures
        r == ends_with_spec(v@, suf@),
{
    if v.len() < suf.len() {
        return false;
    }
    let off = v.len() - suf.len();
    let tail = subrange_vec(v, off, v.len());
    chars_eq(&tail, suf)
}

/// True when some string of `v` holds the characters of `x`.
pub fn contains_str(v: &Vec<String>, x: &Vec<char>) -> (r: bool)
    ensures
        r == v.deep_view().contains(x@),
{
    let ghost m = v.deep_view();
    let mut i: usize = 0;
    while i < v.len()
        invariant
            i <= v@.len(),
            m == v.deep_view(),
            forall|j: int| 0 <= j < i ==> m[j] != x@,
        decreases v@.len() - i,
    {
        let c = str_chars(v[i].as_str());
        if chars_eq(&c, x) {
            assert(m[i as int] == x@);
            return true;
        }
        i = i + 1;
    }
    assert(forall|j: int| 0 <= j < m.len() ==> m[j] != x@);
    false
}

/// True when some element of `v` holds the characters of `x`.
pub fn contains_chars(v: &Vec<Vec<char>>, x: &Vec<char>) -> (r: bool)
    ensures
        r == v@.map_values(|e: Vec<char>| e@).contains(x@),
{
    let ghost m = v@.map_values(|e: Vec<char>| e@);
    let mut i: usize = 0;
    while i < v.len()
        invariant
            i <= v@.len(),
            m == v@.map_values(|e: Vec<char>| e@),
            forall|j: int| 0 <= j < i ==> m[j] != x@,
        decreases v@.len() - i,
    {
        if chars_eq(&v[i], x) {
            assert(m[i as int] == x@);
            return true;
        }
        i = i + 1;
    }
    assert(forall|j: int| 0 <= j < m.len() ==> m[j] != x@);
    false
}

/// A digit sequence's value is at least what any proper prefix, extended
/// by the next digit, is worth.
pub proof fn lemma_digits_val_grows(s: Seq<char>, i: int)
    requires
        0 <= i < s.len(),
        all_digits(s),
    ensures
        digits_val(s) >= digits_val(s.subrange(0, i)) * 10 + (s[i] as int - '0' as int),
    decreases s.len() - i,
{
    if i == s.len() - 1 {
        assert(s.drop_last() =~= s.subrange(0, i));
    } else {
        assert(all_digits(s.drop_last()));
        lemma_digits_val_grows(s.drop_last(), i);
        assert(s.drop_last().subrange(0, i) =~= s.subrange(0, i));
    }
}

/// The value of a single decimal digit, or nothing for any other
/// character.
pub fn char_digit(c: char) -> (r: Option<usize>)
    ensures
        match r {
            Some(d) => is_digit_char(c) && d == c as int - '0' as int,
            None => !is_digit_char(c),
        },
{
    if c == '0' {
        Some(0)
    } else if c == '1' {
        Some(1)
    } else if c == '2' {
        Some(2)
    } else if c == '3' {
        Some(3)
    } else if c == '4' {
        Some(4)
    } else if c == '5' {
        Some(5)
    } else if c == '6' {
        Some(6)
    } else if c == '7' {
        Some(7)
    } else if c == '8' {
        Some(8)
    } else if c == '9' {
        Some(9)
    } else {
        None
    }
}

/// The decimal value of `v`, when `v` is one or more digits and the
/// value fits in `usize`.
pub fn parse_usize(v: &Vec<char>) -> (r: Option<usize>)
    ensures
        match r {
            Some(n) => v@.len() > 0 && all_digits(v@) && digits_val(v@) == n,
            None => v@.len() == 0 || !all_digits(v@) || digits_val(v@) > usize::MAX,
        },
{
    if v.len() == 0 {
        return None;
    }
    let mut acc: usize = 0;
    let mut i: usize = 0;
    while i < v.len()
        invariant
            i <= v@.len(),
            v@.len() > 0,
            all_digits(v@.subrange(0, i as int)),
            acc == digits_val(v@.subrange(0, i as int)),
        decreases v@.len() - i,
    {
        let c = v[i];
        let d: usize = match char_digit(c) {
            Some(d) => d,
            None => {
                assert(!is_digit_char(v@[i as int]));
                return None;
            },
        };
        let next: usize = match acc.checked_mul(10) {
            Some(m) => match m.checked_add(d) {
                Some(n) => n,
                None => {
                    proof {
                        if all_digits(v@) {
                            lemma_digits_val_grows(v@, i as int);
                        }
                    }
                    return None;
                },
            },
            None => {
                proof {
                    if all_digits(v@) {
                        lemma_digits_val_grows(v@, i as int);
                    }
                }
                return None;
            },
        };
        acc = next;
        i = i + 1;
        proof {
            let pre = v@.subrange(0, i - 1);
            let now = v@.subrange(0, i as int);
            assert(now.drop_last() =~= pre);
            assert(now.last() == v@[i - 1]);
            assert forall|j: int| 0 <= j < now.len() implies is_digit_char(#[trigger] now[j]) by {
                if j < i - 1 {
                    assert(now[j] == pre[j]);
                } else {
                    assert(now[j] == c);
                }
            }
            assert(digits_val(now) == digits_val(pre) * 10 + (v@[i - 1] as int - '0' as int));
        }
    }
    assert(v@.subrange(0, v@.len() as int) =~= v@);
    Some(acc)
}


/// Index of the first occurrence of `c`, or a negative value if none.
pub open spec fn find_idx(s: Seq<char>, c: char) -> int
    decreases s.len(),
{
    if s.len() == 0 {
        -1
    } else if s[0] == c {
        0
    } else {
        let r = find_idx(s.drop_first(), c);
        if r < 0 {
            -1
        } else {
            r + 1
        }
    }
}

pub proof fn lemma_find_idx_at(s: Seq<char>, c: char, p: int)
    requires
        0 <= p < s.len(),
        s[p] == c,
        forall|j: int| 0 <= j < p ==> s[j] != c,
    ensures
        find_idx(s, c) == p,
    decreases p,
{
    if p > 0 {
        lemma_find_idx_at(s.drop_first(), c, p - 1);
    }
}

pub proof fn lemma_find_idx_none(s: Seq<char>, c: char)
    requires
        forall|j: int| 0 <= j < s.len() ==> s[j] != c,
    ensures
        find_idx(s, c) < 0,
    decreases s.len(),
{
    if s.len() > 0 {
        lemma_find_idx_none(s.drop_first(), c);
    }
}

/// First occurrence of `c` in `t`, as the specification counts it.
pub fn find_char(t: &Vec<char>, c: char) -> (r: Option<usize>)
    ensures
        match r {
            Some(p) => p < t@.len() && find_idx(t@, c) == p,
            None => find_idx(t@, c) < 0,
        },
{
    let mut i: usize = 0;
    while i < t.len()
        invariant
            i <= t@.len(),
            forall|j: int| 0 <= j < i ==> t@[j] != c,
        decreases t@.len() - i,
    {
        if t[i] == c {
            proof {
                lemma_find_idx_at(t@, c, i as int);
            }
            return Some(i);
        }
        i = i + 1;
    }
    proof {
        lemma_find_idx_none(t@, c);
    }
    None
}

} // verus!
