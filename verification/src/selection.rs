//! The numeric selection parser for interactive package choice.
//!
//! The input line holds whitespace-separated tokens; each token is a
//! single 1-based index or an inclusive range `N-M` (a reversed range
//! is normalised). Indices outside `1..=max` are silently discarded;
//! a token that is neither a number nor such a range fails the whole
//! parse, so no partial selection comes back from a typo. The result
//! is the set of chosen 0-based indices, deduplicated and strictly
//! ascending.

use vstd::prelude::*;
use vstd::string::*;
use crate::text::{all_digits, digits_val, str_chars, char_digit, is_digit_char};

verus! {

pub open spec fn is_ws(c: char) -> bool {
    c == ' ' || c == '\t' || c == '\r' || c == '\n'
}

/// The maximal whitespace-free tokens of `s`, in order.
pub open spec fn tokens_spec(s: Seq<char>) -> Seq<Seq<char>>
    decreases s.len(),
{
    if s.len() == 0 {
        Seq::empty()
    } else if is_ws(s[0]) {
        tokens_spec(s.drop_first())
    } else {
        let rest = tokens_spec(s.drop_first());
        if s.len() > 1 && !is_ws(s[1]) {
            seq![seq![s[0]] + rest[0]] + rest.drop_first()
        } else {
            seq![seq![s[0]]] + rest
        }
    }
}

/// Peeling the first token off the front.
proof fn lemma_tokens_first(s: Seq<char>, e: int)
    requires
        0 < e <= s.len(),
        forall|j: int| 0 <= j < e ==> !is_ws(#[trigger] s[j]),
        e < s.len() ==> is_ws(s[e]),
    ensures
        tokens_spec(s) == seq![s.subrange(0, e)] + tokens_spec(s.subrange(e, s.len() as int)),
    decreases e,
{
    let df = s.drop_first();
    if e == 1 {
        if s.len() == 1 {
            assert(df =~= Seq::<char>::empty());
            assert(s.subrange(0, 1) =~= seq![s[0]]);
            assert(s.subrange(1, s.len() as int) =~= Seq::<char>::empty());
            assert(tokens_spec(s) =~= seq![s.subrange(0, e)] + tokens_spec(
                s.subrange(e, s.len() as int),
            ));
        } else {
            assert(is_ws(s[1]));
            assert(s.subrange(0, 1) =~= seq![s[0]]);
            assert(df =~= s.subrange(1, s.len() as int));
            assert(tokens_spec(s) =~= seq![s.subrange(0, e)] + tokens_spec(
                s.subrange(e, s.len() as int),
            ));
        }
    } else {
        lemma_tokens_first(df, e - 1);
        let rest = tokens_spec(df);
        assert(df.subrange(0, e - 1) =~= s.subrange(1, e));
        assert(rest[0] == s.subrange(1, e));
        assert(seq![s[0]] + s.subrange(1, e) =~= s.subrange(0, e));
        assert(df.subrange(e - 1, df.len() as int) =~= s.subrange(e, s.len() as int));
        assert(rest.drop_first() =~= tokens_spec(s.subrange(e, s.len() as int)));
        assert(tokens_spec(s) =~= seq![s.subrange(0, e)] + tokens_spec(
            s.subrange(e, s.len() as int),
        ));
    }
}

/// The whitespace-free tokens of `v`, as character vectors.
pub fn tokenize(v: &Vec<char>) -> (r: Vec<Vec<char>>)
    ensures
        r@.map_values(|e: Vec<char>| e@) == tokens_spec(v@),
{
    let mut r: Vec<Vec<char>> = Vec::new();
    let mut i: usize = 0;
    assert(r@.map_values(|e: Vec<char>| e@) =~= Seq::<Seq<char>>::empty());
    assert(v@.subrange(0, v@.len() as int) =~= v@);
    while i < v.len()
        invariant
            i <= v@.len(),
            tokens_spec(v@) == r@.map_values(|e: Vec<char>| e@) + tokens_spec(
                v@.subrange(i as int, v@.len() as int),
            ),
        decreases v@.len() - i,
    {
        let c = v[i];
        if c == ' ' || c == '\t' || c == '\r' || c == '\n' {
            proof {
                let tail = v@.subrange(i as int, v@.len() as int);
                assert(tail.drop_first() =~= v@.subrange(i + 1, v@.len() as int));
            }
            i = i + 1;
        } else {
            let mut e: usize = i + 1;
            while e < v.len() && !(v[e] == ' ' || v[e] == '\t' || v[e] == '\r' || v[e] == '\n')
                invariant
                    i < e <= v@.len(),
                    forall|j: int| i <= j < e ==> !is_ws(#[trigger] v@[j]),
                decreases v@.len() - e,
            {
                e = e + 1;
            }
            let mut tok: Vec<char> = Vec::new();
            let mut k: usize = i;
            while k < e
                invariant
                    i <= k <= e <= v@.len(),
                    tok@ == v@.subrange(i as int, k as int),
                decreases e - k,
            {
                tok.push(v[k]);
                k = k + 1;
                assert(tok@ =~= v@.subrange(i as int, k as int));
            }
            proof {
                let tail = v@.subrange(i as int, v@.len() as int);
                lemma_tokens_first(tail, e - i);
                assert(tail.subrange(0, e - i) =~= v@.subrange(i as int, e as int));
                assert(tail.subrange(e - i, tail.len() as int) =~= v@.subrange(
                    e as int,
                    v@.len() as int,
                ));
            }
            let ghost pre = r@.map_values(|x: Vec<char>| x@);
            r.push(tok);
            assert(r@.map_values(|x: Vec<char>| x@) =~= pre + seq![v@.subrange(
                i as int,
                e as int,
            )]);
            i = e;
            assert(tokens_spec(v@) =~~= r@.map_values(|x: Vec<char>| x@) + tokens_spec(
                v@.subrange(i as int, v@.len() as int),
            ));
        }
    }
    proof {
        assert(v@.subrange(i as int, v@.len() as int) =~= Seq::<char>::empty());
        assert(tokens_spec(v@) =~~= r@.map_values(|x: Vec<char>| x@));
    }
    r
}

/// How often `c` occurs in `s`.
pub open spec fn count_char(s: Seq<char>, c: char) -> nat
    decreases s.len(),
{
    if s.len() == 0 {
        0
    } else {
        count_char(s.drop_last(), c) + (if s.last() == c {
            1nat
        } else {
            0nat
        })
    }
}

proof fn lemma_count_zero(s: Seq<char>, c: char)
    requires
        count_char(s, c) == 0,
    ensures
        forall|j: int| 0 <= j < s.len() ==> s[j] != c,
    decreases s.len(),
{
    if s.len() > 0 {
        lemma_count_zero(s.drop_last(), c);
        assert forall|j: int| 0 <= j < s.len() implies s[j] != c by {
            if j < s.len() - 1 {
                assert(s.drop_last()[j] == s[j]);
            }
        }
    }
}

proof fn lemma_count_positions(s: Seq<char>, c: char, p: int, q: int)
    requires
        count_char(s, c) == 1,
        0 <= p < s.len(),
        0 <= q < s.len(),
        s[p] == c,
        s[q] == c,
    ensures
        p == q,
    decreases s.len(),
{
    if s.last() == c {
        lemma_count_zero(s.drop_last(), c);
        if p < s.len() - 1 {
            assert(s.drop_last()[p] == s[p]);
        }
        if q < s.len() - 1 {
            assert(s.drop_last()[q] == s[q]);
        }
        assert(p == s.len() - 1 && q == s.len() - 1);
    } else {
        assert(p < s.len() - 1 && q < s.len() - 1);
        assert(s.drop_last()[p] == s[p]);
        assert(s.drop_last()[q] == s[q]);
        lemma_count_positions(s.drop_last(), c, p, q);
    }
}

/// The chosen 0-based indices contributed by one token.
pub open spec fn token_sel(t: Seq<char>, max: usize) -> Set<usize> {
    if t.len() > 0 && all_digits(t) {
        let n = digits_val(t);
        if 1 <= n <= max {
            set![(n - 1) as usize]
        } else {
            Set::empty()
        }
    } else if count_char(t, '-') == 1 {
        let p = choose|p: int| 0 <= p < t.len() && t[p] == '-';
        let a = t.subrange(0, p);
        let b = t.subrange(p + 1, t.len() as int);
        if a.len() > 0 && all_digits(a) && b.len() > 0 && all_digits(b) {
            let va = digits_val(a);
            let vb = digits_val(b);
            let lo = if va <= vb {
                va
            } else {
                vb
            };
            let hi = if va <= vb {
                vb
            } else {
                va
            };
            Set::new(|i: usize| lo <= i + 1 <= hi && i + 1 <= max)
        } else {
            Set::empty()
        }
    } else {
        Set::empty()
    }
}

/// The chosen indices of a token list: the union over its tokens.
pub open spec fn sel_all(ts: Seq<Seq<char>>, max: usize) -> Set<usize>
    decreases ts.len(),
{
    if ts.len() == 0 {
        Set::empty()
    } else {
        token_sel(ts[0], max) + sel_all(ts.drop_first(), max)
    }
}

/// The chosen indices of an input line.
pub open spec fn sel_spec(s: Seq<char>, max: usize) -> Set<usize> {
    sel_all(tokens_spec(s), max)
}

pub open spec fn strictly_ascending(s: Seq<usize>) -> bool {
    forall|i: int, j: int| 0 <= i < j < s.len() ==> s[i] < s[j]
}

/// The elements of a sequence, as a set.
pub open spec fn elems(s: Seq<usize>) -> Set<usize> {
    Set::new(|x: usize| s.contains(x))
}

/// How one token parses: an exact in-range number, a number beyond the
/// cap, or no number at all.
enum NumParse {
    Fits(usize),
    TooBig,
    NotNum,
}

/// Reads a decimal token against a cap.
fn parse_num_bounded(t: &Vec<char>, cap: usize) -> (r: NumParse)
    ensures
        match r {
            NumParse::Fits(n) => t@.len() > 0 && all_digits(t@) && digits_val(t@) == n && n <= cap,
            NumParse::TooBig => t@.len() > 0 && all_digits(t@) && digits_val(t@) > cap,
            NumParse::NotNum => t@.len() == 0 || !all_digits(t@),
        },
{
    if t.len() == 0 {
        return NumParse::NotNum;
    }
    let mut i: usize = 0;
    while i < t.len()
        invariant
            i <= t@.len(),
            forall|j: int| 0 <= j < i ==> is_digit_char(#[trigger] t@[j]),
        decreases t@.len() - i,
    {
        if char_digit(t[i]).is_none() {
            return NumParse::NotNum;
        }
        i = i + 1;
    }
    assert(all_digits(t@));
    let mut acc: usize = 0;
    let mut k: usize = 0;
    let mut big = false;
    while k < t.len()
        invariant
            k <= t@.len(),
            all_digits(t@),
            !big ==> acc == digits_val(t@.subrange(0, k as int)),
            big ==> digits_val(t@) > cap,
            !big ==> acc <= cap,
        decreases t@.len() - k,
    {
        let c = t[k];
        let d: usize = match char_digit(c) {
            Some(d) => d,
            None => {
                assert(false);
                0
            },
        };
        if !big {
            let stepped: Option<usize> = match acc.checked_mul(10) {
                Some(m) => m.checked_add(d),
                None => None,
            };
            match stepped {
                Some(n) => {
                    proof {
                        let pre = t@.subrange(0, k as int);
                        let now = t@.subrange(0, k + 1);
                        assert(now.drop_last() =~= pre);
                        assert(now.last() == t@[k as int]);
                    }
                    if n > cap {
                        proof {
                            if k + 1 < t@.len() {
                                crate::text::lemma_digits_val_grows(t@, k + 1);
                                assert(t@.subrange(0, k + 2).drop_last() =~= t@.subrange(0, k + 1));
                                assert(digits_val(t@) >= digits_val(t@.subrange(0, k + 1)));
                            } else {
                                assert(t@.subrange(0, k + 1) =~= t@);
                            }
                        }
                        big = true;
                    } else {
                        acc = n;
                    }
                },
                None => {
                    proof {
                        crate::text::lemma_digits_val_grows(t@, k as int);
                    }
                    big = true;
                },
            }
        }
        k = k + 1;
    }
    if big {
        NumParse::TooBig
    } else {
        assert(t@.subrange(0, t@.len() as int) =~= t@);
        NumParse::Fits(acc)
    }
}

/// Keeps `v` strictly ascending while adding `x`.
fn insert_sorted(v: &mut Vec<usize>, x: usize)
    requires
        strictly_ascending(old(v)@),
    ensures
        strictly_ascending(final(v)@),
        elems(final(v)@) == elems(old(v)@).insert(x),
{
    let mut pos: usize = 0;
    while pos < v.len() && v[pos] < x
        invariant
            pos <= v@.len(),
            strictly_ascending(v@),
            v@ == old(v)@,
            forall|j: int| 0 <= j < pos ==> v@[j] < x,
        decreases v@.len() - pos,
    {
        pos = pos + 1;
    }
    if pos < v.len() {
        let cur = v[pos];
        if cur == x {
            proof {
                assert(v@.contains(x));
                assert(elems(v@) =~= elems(old(v)@).insert(x));
            }
            return ;
        }
    }
    let ghost pre = v@;
    v.insert(pos, x);
    proof {
        assert(v@ == pre.insert(pos as int, x));
        assert forall|i: int, j: int| 0 <= i < j < v@.len() implies v@[i] < v@[j] by {
            if j < pos {
                assert(v@[i] == pre[i] && v@[j] == pre[j]);
            } else if i > pos {
                assert(v@[i] == pre[i - 1] && v@[j] == pre[j - 1]);
            } else if i < pos && j == pos {
                assert(v@[i] == pre[i]);
            } else if i == pos && j > pos {
                assert(v@[j] == pre[j - 1]);
                assert(pre[j - 1] >= x);
                assert(pre[j - 1] != x);
            } else if i < pos && j > pos {
                assert(v@[i] == pre[i] && v@[j] == pre[j - 1]);
                assert(pre[j - 1] >= x);
            }
        }
        assert forall|y: usize| elems(v@).contains(y) <==> elems(pre).insert(x).contains(y) by {
            if y == x {
                assert(v@[pos as int] == x);
                assert(v@.contains(x));
            } else {
                if pre.contains(y) {
                    let w = choose|w: int| 0 <= w < pre.len() && pre[w] == y;
                    if w < pos {
                        assert(v@[w] == y);
                    } else {
                        assert(v@[w + 1] == y);
                    }
                    assert(v@.contains(y));
                }
                if v@.contains(y) {
                    let w = choose|w: int| 0 <= w < v@.len() && v@[w] == y;
                    if w < pos {
                        assert(pre[w] == y);
                    } else if w > pos {
                        assert(pre[w - 1] == y);
                    }
                    assert(pre.contains(y));
                }
            }
        }
        assert(elems(v@) =~= elems(pre).insert(x));
    }
}

/// A dash-free token the parser accepts: one or more digits whose
/// value fits the machine.
pub open spec fn good_num(t: Seq<char>) -> bool {
    t.len() > 0 && all_digits(t) && digits_val(t) <= usize::MAX
}

/// A token the parser rejects outright: a dash-free token that is not
/// a machine-sized number, or a single-dash token whose two sides are
/// not both such numbers. A token with two or more dashes is silently
/// ignored, as is an out-of-range number.
pub open spec fn token_bad(t: Seq<char>) -> bool {
    if count_char(t, '-') == 0 {
        !good_num(t)
    } else if count_char(t, '-') == 1 {
        let p = choose|p: int| 0 <= p < t.len() && t[p] == '-';
        !(good_num(t.subrange(0, p)) && good_num(t.subrange(p + 1, t.len() as int)))
    } else {
        false
    }
}

/// Reads a selection line against `max` entries: the chosen 0-based
/// indices, strictly ascending, each below `max`; or the first
/// malformed token, with no partial selection.
pub fn parse_selection(input: &str, max: usize) -> (r: Result<Vec<usize>, String>)
    ensures
        match r {
            Ok(v) => {
                &&& forall|j: int|
                    0 <= j < tokens_spec(input@).len() ==> !token_bad(
                        #[trigger] tokens_spec(input@)[j],
                    )
                &&& strictly_ascending(v@)
                &&& forall|i: int| 0 <= i < v@.len() ==> v@[i] < max
                &&& elems(v@) == sel_spec(input@, max)
            },
            Err(e) => exists|j: int|
                0 <= j < tokens_spec(input@).len() && token_bad(#[trigger] tokens_spec(input@)[j])
                    && e@ == tokens_spec(input@)[j],
        },
{
    let chars = str_chars(input);
    let tokens = tokenize(&chars);
    let ghost ts = tokens@.map_values(|e: Vec<char>| e@);
    let mut r: Vec<usize> = Vec::new();
    let mut k: usize = 0;
    assert(elems(r@) =~= Set::<usize>::empty());
    assert(ts.skip(0) =~= ts);
    while k < tokens.len()
        invariant
            k <= tokens@.len(),
            ts == tokens@.map_values(|e: Vec<char>| e@),
            ts == tokens_spec(input@),
            strictly_ascending(r@),
            forall|i: int| 0 <= i < r@.len() ==> r@[i] < max,
            sel_all(ts, max) == elems(r@) + sel_all(ts.skip(k as int), max),
            forall|j: int| 0 <= j < k ==> !token_bad(#[trigger] ts[j]),
        decreases tokens@.len() - k,
    {
        proof {
            assert(ts.skip(k as int)[0] == ts[k as int]);
            assert(ts.skip(k as int).drop_first() =~= ts.skip(k as int + 1));
        }
        let tok = &tokens[k];
        let ghost t = tok@;
        let mut lo1: usize = 0;
        let mut hi1: usize = 0;
        let mut chosen = false;
        let mut dashes: usize = 0;
        let mut dp: usize = 0;
        let mut j: usize = 0;
        assert(count_char(t.subrange(0, 0), '-') == 0) by {
            assert(t.subrange(0, 0) =~= Seq::<char>::empty());
        }
        while j < tok.len()
            invariant
                j <= t.len(),
                t == tok@,
                dashes == count_char(t.subrange(0, j as int), '-'),
                dashes > 0 ==> dp < j && t[dp as int] == '-',
                dashes <= j,
            decreases t.len() - j,
        {
            proof {
                let pre = t.subrange(0, j as int);
                let now = t.subrange(0, j + 1);
                assert(now.drop_last() =~= pre);
                assert(now.last() == t[j as int]);
            }
            if tok[j] == '-' {
                if dashes == 0 {
                    dp = j;
                }
                dashes = dashes + 1;
            }
            j = j + 1;
        }
        assert(t.subrange(0, t.len() as int) =~= t);
        if dashes == 0 {
            match parse_num_bounded(tok, usize::MAX) {
                NumParse::Fits(n) => {
                    assert(!token_bad(t));
                    if 1 <= n && n <= max {
                        lo1 = n;
                        hi1 = n;
                        chosen = true;
                        assert(token_sel(t, max) =~= Set::new(
                            |i: usize| lo1 <= i + 1 <= hi1 && i + 1 <= max,
                        ));
                    } else {
                        assert(token_sel(t, max) =~= Set::<usize>::empty());
                    }
                },
                NumParse::TooBig => {
                    proof {
                        assert(ts =~= tokens_spec(input@));
                        assert(tokens_spec(input@)[k as int] == t);
                        assert(token_bad(tokens_spec(input@)[k as int]));
                    }
                    return Err(crate::text::chars_to_string(tok));
                },
                NumParse::NotNum => {
                    proof {
                        assert(ts =~= tokens_spec(input@));
                        assert(tokens_spec(input@)[k as int] == t);
                        assert(token_bad(tokens_spec(input@)[k as int]));
                    }
                    return Err(crate::text::chars_to_string(tok));
                },
            }
        } else if dashes == 1 {
            proof {
                let p = choose|p: int| 0 <= p < t.len() && t[p] == '-';
                lemma_count_positions(t, '-', p, dp as int);
            }
            let mut a: Vec<char> = Vec::new();
            let mut b: Vec<char> = Vec::new();
            let mut w: usize = 0;
            while w < dp
                invariant
                    w <= dp <= t.len(),
                    t == tok@,
                    a@ == t.subrange(0, w as int),
                decreases dp - w,
            {
                a.push(tok[w]);
                w = w + 1;
                assert(a@ =~= t.subrange(0, w as int));
            }
            let mut w2: usize = dp + 1;
            while w2 < tok.len()
                invariant
                    dp < w2 <= t.len(),
                    t == tok@,
                    b@ == t.subrange(dp + 1, w2 as int),
                decreases t.len() - w2,
            {
                b.push(tok[w2]);
                w2 = w2 + 1;
                assert(b@ =~= t.subrange(dp + 1, w2 as int));
            }
            assert(b@ =~= t.subrange(dp + 1, t.len() as int));
            let na = match parse_num_bounded(&a, usize::MAX) {
                NumParse::Fits(n) => n,
                NumParse::TooBig => {
                    proof {
                        assert(ts =~= tokens_spec(input@));
                        assert(tokens_spec(input@)[k as int] == t);
                        assert(token_bad(tokens_spec(input@)[k as int]));
                    }
                    return Err(crate::text::chars_to_string(tok));
                },
                NumParse::NotNum => {
                    proof {
                        assert(ts =~= tokens_spec(input@));
                        assert(tokens_spec(input@)[k as int] == t);
                        assert(token_bad(tokens_spec(input@)[k as int]));
                    }
                    return Err(crate::text::chars_to_string(tok));
                },
            };
            let nb = match parse_num_bounded(&b, usize::MAX) {
                NumParse::Fits(n) => n,
                NumParse::TooBig => {
                    proof {
                        assert(ts =~= tokens_spec(input@));
                        assert(tokens_spec(input@)[k as int] == t);
                        assert(token_bad(tokens_spec(input@)[k as int]));
                    }
                    return Err(crate::text::chars_to_string(tok));
                },
                NumParse::NotNum => {
                    proof {
                        assert(ts =~= tokens_spec(input@));
                        assert(tokens_spec(input@)[k as int] == t);
                        assert(token_bad(tokens_spec(input@)[k as int]));
                    }
                    return Err(crate::text::chars_to_string(tok));
                },
            };
            assert(!token_bad(t));
            lo1 = if na <= nb {
                na
            } else {
                nb
            };
            hi1 = if na <= nb {
                nb
            } else {
                na
            };
            chosen = true;
            proof {
                assert(token_sel(t, max) =~= Set::new(
                    |i: usize| lo1 <= i + 1 <= hi1 && i + 1 <= max,
                ));
            }
        } else {
            proof {
                assert(t[dp as int] == '-');
                assert(!crate::text::is_digit_char('-'));
                assert(!all_digits(t));
                assert(!token_bad(t));
                assert(token_sel(t, max) =~= Set::<usize>::empty());
            }
        }
        if chosen {
            let start: usize = if lo1 < 1 {
                1
            } else {
                lo1
            };
            let hh: usize = if hi1 > max {
                max
            } else {
                hi1
            };
            let ghost tsel = token_sel(t, max);
            let ghost base = elems(r@);
            assert(tsel =~= Set::new(|i: usize| lo1 <= i + 1 <= hi1 && i + 1 <= max));
            if start <= hh {
                let span: usize = hh - start;
                let mut off: usize = 0;
                assert(elems(r@) =~= base + Set::new(|i: usize| start <= i + 1 < start as int));
                while off <= span
                    invariant
                        off <= span + 1,
                        span == hh - start,
                        1 <= start <= hh <= max,
                        tsel == token_sel(t, max),
                        tsel =~= Set::new(|i: usize| lo1 <= i + 1 <= hi1 && i + 1 <= max),
                        start == (if lo1 < 1 { 1 } else { lo1 }),
                        hh == (if hi1 > max { max } else { hi1 }),
                        strictly_ascending(r@),
                        forall|i: int| 0 <= i < r@.len() ==> r@[i] < max,
                        elems(r@) =~= base + Set::new(
                            |i: usize| start <= i + 1 < start + off,
                        ),
                    decreases span + 1 - off,
                {
                    let x = start + off;
                    let ghost pre_r = r@;
                    insert_sorted(&mut r, x - 1);
                    off = off + 1;
                    assert(elems(r@) =~= base + Set::new(|i: usize| start <= i + 1 < start + off));
                    assert forall|i: int| 0 <= i < r@.len() implies r@[i] < max by {
                        assert(r@.contains(r@[i]));
                        assert(elems(r@).contains(r@[i]));
                        if r@[i] != x - 1 {
                            assert(elems(pre_r).contains(r@[i]));
                            assert(pre_r.contains(r@[i]));
                            let w = choose|w: int| 0 <= w < pre_r.len() && pre_r[w] == r@[i];
                            assert(pre_r[w] < max);
                        }
                    }
                }
                proof {
                    assert(tsel =~= Set::new(|i: usize| start <= i + 1 < start + off));
                    assert(elems(r@) =~= base + tsel);
                }
            } else {
                proof {
                    assert(tsel =~= Set::<usize>::empty());
                    assert(elems(r@) =~= base + tsel);
                }
            }
        } else {
            assert(token_sel(t, max) =~= Set::<usize>::empty());
        }
        k = k + 1;
        proof {
            assert(sel_all(ts, max) =~= elems(r@) + sel_all(ts.skip(k as int), max));
        }
    }
    proof {
        assert(ts.skip(ts.len() as int) =~= Seq::<Seq<char>>::empty());
        assert(sel_all(ts, max) =~= elems(r@));
        assert(ts =~= tokens_spec(input@));
    }
    Ok(r)
}

/// The character of a single decimal digit.
pub open spec fn digit_char(d: nat) -> char {
    if d == 0 {
        '0'
    } else if d == 1 {
        '1'
    } else if d == 2 {
        '2'
    } else if d == 3 {
        '3'
    } else if d == 4 {
        '4'
    } else if d == 5 {
        '5'
    } else if d == 6 {
        '6'
    } else if d == 7 {
        '7'
    } else if d == 8 {
        '8'
    } else {
        '9'
    }
}

/// The decimal writing of `n`, most significant digit first.
pub open spec fn decimal_spec(n: nat) -> Seq<char>
    decreases n,
{
    if n < 10 {
        seq![digit_char(n)]
    } else {
        decimal_spec(n / 10) + seq![digit_char(n % 10)]
    }
}

proof fn lemma_digit_char(d: nat)
    requires
        d < 10,
    ensures
        is_digit_char(digit_char(d)),
        digit_char(d) as int - '0' as int == d,
{
    if d == 0 {
    } else if d == 1 {
    } else if d == 2 {
    } else if d == 3 {
    } else if d == 4 {
    } else if d == 5 {
    } else if d == 6 {
    } else if d == 7 {
    } else if d == 8 {
    } else {
    }
}

proof fn lemma_decimal_digits(n: nat)
    ensures
        decimal_spec(n).len() >= 1,
        all_digits(decimal_spec(n)),
        digits_val(decimal_spec(n)) == n,
    decreases n,
{
    if n < 10 {
        let s = decimal_spec(n);
        lemma_digit_char(n);
        assert(s.drop_last() =~= Seq::<char>::empty());
        assert(digits_val(Seq::<char>::empty()) == 0);
        assert(s.last() == digit_char(n));
        assert(digits_val(s) == digit_char(n) as int - '0' as int);
    } else {
        lemma_digit_char(n % 10);
        lemma_decimal_digits(n / 10);
        let s = decimal_spec(n);
        let a = decimal_spec(n / 10);
        assert(s.drop_last() =~= a);
        assert(s.last() == digit_char(n % 10));
        assert(digits_val(s) == digits_val(a) * 10 + (digit_char(n % 10) as int - '0' as int));
        assert forall|i: int| 0 <= i < s.len() implies is_digit_char(#[trigger] s[i]) by {
            if i < a.len() {
                assert(s[i] == a[i]);
            } else {
                assert(s[i] == digit_char(n % 10));
            }
        }
    }
}

/// The pieces, joined by single spaces.
pub open spec fn join_spec(ps: Seq<Seq<char>>) -> Seq<char>
    decreases ps.len(),
{
    if ps.len() == 0 {
        Seq::empty()
    } else if ps.len() == 1 {
        ps[0]
    } else {
        ps[0] + seq![' '] + join_spec(ps.drop_first())
    }
}

proof fn lemma_join_snoc(ps: Seq<Seq<char>>, p: Seq<char>)
    requires
        ps.len() >= 1,
    ensures
        join_spec(ps.push(p)) == join_spec(ps) + seq![' '] + p,
    decreases ps.len(),
{
    let w = ps.push(p);
    if ps.len() == 1 {
        assert(w.drop_first() =~= seq![p]);
        assert(join_spec(seq![p]) == p);
        assert(join_spec(w) =~= ps[0] + seq![' '] + p);
    } else {
        lemma_join_snoc(ps.drop_first(), p);
        assert(w.drop_first() =~= ps.drop_first().push(p));
        assert(join_spec(w) =~= join_spec(ps) + seq![' '] + p);
    }
}

/// The rendering of chosen indices: 1-based decimal numbers, separated
/// by single spaces.
pub open spec fn render_spec(r: Seq<usize>) -> Seq<char> {
    join_spec(r.map_values(|x: usize| decimal_spec((x + 1) as nat)))
}

/// Tokenizing a space-joined list of nonempty whitespace-free pieces
/// gives the pieces back.
proof fn lemma_tokens_join(ps: Seq<Seq<char>>)
    requires
        forall|k: int| 0 <= k < ps.len() ==> (#[trigger] ps[k]).len() >= 1,
        forall|k: int, j: int| 0 <= k < ps.len() && 0 <= j < ps[k].len() ==> !is_ws(
            #[trigger] ps[k][j],
        ),
    ensures
        tokens_spec(join_spec(ps)) == ps,
    decreases ps.len(),
{
    if ps.len() == 0 {
        assert(tokens_spec(join_spec(ps)) =~= ps);
    } else if ps.len() == 1 {
        let s = ps[0];
        lemma_tokens_first(s, s.len() as int);
        assert(s.subrange(0, s.len() as int) =~= s);
        assert(s.subrange(s.len() as int, s.len() as int) =~= Seq::<char>::empty());
        assert(tokens_spec(join_spec(ps)) =~= ps);
    } else {
        let s = join_spec(ps);
        let head = ps[0];
        let e = head.len() as int;
        let rest = join_spec(ps.drop_first());
        assert(s == head + seq![' '] + rest);
        assert(s.len() == head.len() + 1 + rest.len());
        assert forall|j: int| 0 <= j < e implies !is_ws(#[trigger] s[j]) by {
            assert(s[j] == ps[0][j]);
        }
        assert(s[e] == ' ');
        lemma_tokens_first(s, e);
        assert(s.subrange(0, e) =~= head);
        let suffix = s.subrange(e, s.len() as int);
        assert(suffix[0] == ' ');
        assert(suffix.drop_first() =~= rest);
        assert(forall|k: int| 0 <= k < ps.drop_first().len() ==> (#[trigger] ps.drop_first()[
            k
        ]).len() >= 1);
        assert forall|k: int, j: int|
            0 <= k < ps.drop_first().len() && 0 <= j < ps.drop_first()[k].len() implies !is_ws(
            #[trigger] ps.drop_first()[k][j],
        ) by {
            assert(ps.drop_first()[k] == ps[k + 1]);
        }
        lemma_tokens_join(ps.drop_first());
        assert(tokens_spec(s) =~= seq![head] + tokens_spec(suffix));
        assert(tokens_spec(suffix) == tokens_spec(rest));
        assert(tokens_spec(join_spec(ps)) =~= ps);
    }
}

/// A digit sequence holds no dash.
proof fn lemma_digits_no_dash(s: Seq<char>)
    requires
        all_digits(s),
    ensures
        count_char(s, '-') == 0,
    decreases s.len(),
{
    if s.len() > 0 {
        assert(all_digits(s.drop_last()));
        lemma_digits_no_dash(s.drop_last());
        assert(is_digit_char(s.last()));
        assert(s.last() != '-');
    }
}

/// Parsing the rendering of chosen indices chooses them again, and the
/// rendering holds no token the parser rejects: the selection parser
/// is idempotent through its own textual output.
pub proof fn lemma_selection_idempotent(r: Seq<usize>, max: usize)
    requires
        forall|i: int| 0 <= i < r.len() ==> r[i] < max,
    ensures
        sel_spec(render_spec(r), max) == elems(r),
        forall|j: int|
            0 <= j < tokens_spec(render_spec(r)).len() ==> !token_bad(
                #[trigger] tokens_spec(render_spec(r))[j],
            ),
    decreases r.len(),
{
    let ps = r.map_values(|x: usize| decimal_spec((x + 1) as nat));
    assert forall|k: int| 0 <= k < ps.len() implies (#[trigger] ps[k]).len() >= 1 by {
        lemma_decimal_digits((r[k] + 1) as nat);
    }
    assert forall|k: int, j: int| 0 <= k < ps.len() && 0 <= j < ps[k].len() implies !is_ws(
        #[trigger] ps[k][j],
    ) by {
        lemma_decimal_digits((r[k] + 1) as nat);
        assert(is_digit_char(ps[k][j]));
    }
    lemma_tokens_join(ps);
    lemma_sel_all_decimals(r, max);
    assert forall|j: int|
        0 <= j < tokens_spec(render_spec(r)).len() implies !token_bad(
        #[trigger] tokens_spec(render_spec(r))[j],
    ) by {
        assert(tokens_spec(render_spec(r))[j] == ps[j]);
        lemma_decimal_digits((r[j] + 1) as nat);
        lemma_digits_no_dash(ps[j]);
        assert(good_num(ps[j]));
    }
}

proof fn lemma_sel_all_decimals(r: Seq<usize>, max: usize)
    requires
        forall|i: int| 0 <= i < r.len() ==> r[i] < max,
    ensures
        sel_all(r.map_values(|x: usize| decimal_spec((x + 1) as nat)), max) == elems(r),
    decreases r.len(),
{
    let ps = r.map_values(|x: usize| decimal_spec((x + 1) as nat));
    if r.len() == 0 {
        assert(sel_all(ps, max) =~= elems(r));
    } else {
        lemma_decimal_digits((r[0] + 1) as nat);
        assert(token_sel(ps[0], max) =~= set![r[0]]);
        assert(ps.drop_first() =~= r.drop_first().map_values(|x: usize| decimal_spec((x + 1) as nat)));
        lemma_sel_all_decimals(r.drop_first(), max);
        assert forall|y: usize| elems(r).contains(y) <==> (set![r[0]] + elems(
            r.drop_first(),
        )).contains(y) by {
            if elems(r).contains(y) {
                let w = choose|w: int| 0 <= w < r.len() && r[w] == y;
                if w > 0 {
                    assert(r.drop_first()[w - 1] == y);
                }
            }
            if elems(r.drop_first()).contains(y) {
                let w = choose|w: int| 0 <= w < r.drop_first().len() && r.drop_first()[w] == y;
                assert(r[w + 1] == y);
            }
            if y == r[0] {
                assert(r.contains(y));
            }
        }
        assert(sel_all(ps, max) =~= elems(r));
    }
}

/// Two strictly ascending sequences with the same elements are the same.
pub proof fn lemma_ascending_unique(a: Seq<usize>, b: Seq<usize>)
    requires
        strictly_ascending(a),
        strictly_ascending(b),
        elems(a) == elems(b),
    ensures
        a == b,
    decreases a.len(),
{
    if a.len() == 0 {
        if b.len() > 0 {
            assert(b.contains(b[0]));
            assert(elems(b).contains(b[0]));
            assert(a.contains(b[0]));
        }
        assert(a =~= b);
    } else {
        assert(a.contains(a[0]));
        assert(elems(b).contains(a[0]));
        let wb = choose|w: int| 0 <= w < b.len() && b[w] == a[0];
        assert(b.contains(b[0]));
        assert(elems(a).contains(b[0]));
        let wa = choose|w: int| 0 <= w < a.len() && a[w] == b[0];
        assert(a[0] <= a[wa] && b[0] <= b[wb]);
        assert(a[0] == b[0]);
        let da = a.drop_first();
        let db = b.drop_first();
        assert forall|y: usize| elems(da).contains(y) <==> elems(db).contains(y) by {
            lemma_drop_first_elems(a, y);
            lemma_drop_first_elems(b, y);
            assert(elems(a).contains(y) == elems(b).contains(y));
        }
        assert(elems(da) =~= elems(db));
        assert forall|i: int, j: int| 0 <= i < j < da.len() implies da[i] < da[j] by {
            assert(da[i] == a[i + 1] && da[j] == a[j + 1]);
        }
        assert forall|i: int, j: int| 0 <= i < j < db.len() implies db[i] < db[j] by {
            assert(db[i] == b[i + 1] && db[j] == b[j + 1]);
        }
        lemma_ascending_unique(da, db);
        assert forall|i: int| 0 <= i < a.len() implies a[i] == b[i] by {
            if i > 0 {
                assert(a[i] == da[i - 1] && b[i] == db[i - 1]);
            }
        }
        assert(a =~= b);
    }
}

/// Membership in the tail of a strictly ascending sequence.
proof fn lemma_drop_first_elems(s: Seq<usize>, y: usize)
    requires
        strictly_ascending(s),
        s.len() >= 1,
    ensures
        elems(s.drop_first()).contains(y) <==> (elems(s).contains(y) && y != s[0]),
{
    let d = s.drop_first();
    if d.contains(y) {
        let w = choose|w: int| 0 <= w < d.len() && d[w] == y;
        assert(s[w + 1] == y);
        assert(s[0] < s[w + 1]);
        assert(s.contains(y));
    }
    if s.contains(y) && y != s[0] {
        let w = choose|w: int| 0 <= w < s.len() && s[w] == y;
        assert(w > 0);
        assert(d[w - 1] == y);
        assert(d.contains(y));
    }
}

/// Writes `n` in decimal onto `out`.
fn push_decimal(n: usize, out: &mut Vec<char>)
    ensures
        final(out)@ == old(out)@ + decimal_spec(n as nat),
    decreases n,
{
    if n < 10 {
        let c = match n {
            0 => '0',
            1 => '1',
            2 => '2',
            3 => '3',
            4 => '4',
            5 => '5',
            6 => '6',
            7 => '7',
            8 => '8',
            _ => '9',
        };
        assert(c == digit_char(n as nat));
        out.push(c);
        assert(out@ =~= old(out)@ + decimal_spec(n as nat));
    } else {
        push_decimal(n / 10, out);
        let d = n % 10;
        let c = match d {
            0 => '0',
            1 => '1',
            2 => '2',
            3 => '3',
            4 => '4',
            5 => '5',
            6 => '6',
            7 => '7',
            8 => '8',
            _ => '9',
        };
        assert(c == digit_char((n % 10) as nat));
        out.push(c);
        assert(out@ =~= old(out)@ + decimal_spec(n as nat));
    }
}

/// The textual form of chosen indices, as the prompts print them:
/// 1-based, space-separated, ascending as given.
pub fn render_selection(v: &Vec<usize>) -> (r: String)
    requires
        forall|i: int| 0 <= i < v@.len() ==> v@[i] < usize::MAX,
    ensures
        r@ == render_spec(v@),
{
    let mut out: Vec<char> = Vec::new();
    let mut k: usize = 0;
    let ghost ps = v@.map_values(|x: usize| decimal_spec((x + 1) as nat));
    assert(v@.subrange(0, 0) =~= Seq::<usize>::empty());
    assert(out@ =~= join_spec(v@.subrange(0, 0).map_values(|x: usize| decimal_spec((x + 1) as nat))));
    while k < v.len()
        invariant
            k <= v@.len(),
            forall|i: int| 0 <= i < v@.len() ==> v@[i] < usize::MAX,
            out@ == join_spec(v@.subrange(0, k as int).map_values(|x: usize| decimal_spec((x + 1) as nat))),
        decreases v@.len() - k,
    {
        let ghost pre = v@.subrange(0, k as int).map_values(|x: usize| decimal_spec((x + 1) as nat));
        if k > 0 {
            out.push(' ');
        }
        push_decimal(v[k] + 1, &mut out);
        k = k + 1;
        proof {
            let now = v@.subrange(0, k as int).map_values(|x: usize| decimal_spec((x + 1) as nat));
            assert(now =~= pre.push(decimal_spec((v@[k - 1] + 1) as nat)));
            if k > 1 {
                lemma_join_snoc(pre, decimal_spec((v@[k - 1] + 1) as nat));
                assert(out@ =~= join_spec(now));
            } else {
                assert(out@ =~= join_spec(now));
            }
        }
    }
    assert(v@.subrange(0, v@.len() as int) =~= v@);
    crate::text::chars_to_string(&out)
}

} // verus!

