//! Character-sequence utilities: locating separators, splitting and
//! joining on delimiters, and trimming whitespace, with the lemmas that
//! make the codec's round trip provable.

use vstd::prelude::*;
use vstd::string::StrSliceExecFns;

verus! {

/// Whitespace as the parser understands it.
pub open spec fn is_ws(c: char) -> bool {
    c == ' ' || c == '\t' || c == '\r' || c == '\n'
}

/// True when `d` occurs nowhere in `s`.
pub open spec fn free_of(s: Seq<char>, d: char) -> bool {
    forall|i: int| 0 <= i < s.len() ==> s[i] != d
}

/// Index of the first occurrence of `d` in `s`, or -1 if there is none.
pub open spec fn find1(s: Seq<char>, d: char) -> int
    decreases s.len(),
{
    if s.len() == 0 {
        -1
    } else if s[0] == d {
        0
    } else {
        let r = find1(s.drop_first(), d);
        if r < 0 {
            -1
        } else {
            r + 1
        }
    }
}

pub proof fn lemma_find1(s: Seq<char>, d: char)
    ensures
        find1(s, d) < 0 ==> free_of(s, d),
        find1(s, d) >= 0 ==> {
            &&& 0 <= find1(s, d) < s.len()
            &&& s[find1(s, d)] == d
            &&& forall|i: int| 0 <= i < find1(s, d) ==> s[i] != d
        },
    decreases s.len(),
{
    if s.len() > 0 && s[0] != d {
        lemma_find1(s.drop_first(), d);
        assert(forall|i: int| 1 <= i < s.len() ==> s[i] == s.drop_first()[i - 1]);
    }
}

/// Index of the first occurrence of the two-character separator `a b`
/// in `s`, or -1 if there is none.
pub open spec fn find2(s: Seq<char>, a: char, b: char) -> int
    decreases s.len(),
{
    if s.len() <= 1 {
        -1
    } else if s[0] == a && s[1] == b {
        0
    } else {
        let r = find2(s.drop_first(), a, b);
        if r < 0 {
            -1
        } else {
            r + 1
        }
    }
}

pub proof fn lemma_find2(s: Seq<char>, a: char, b: char)
    ensures
        find2(s, a, b) < 0 ==> no_match2(s, a, b),
        find2(s, a, b) >= 0 ==> {
            &&& 0 <= find2(s, a, b) < s.len() - 1
            &&& s[find2(s, a, b)] == a
            &&& s[find2(s, a, b) + 1] == b
            &&& forall|i: int| 0 <= i < find2(s, a, b) ==> !(#[trigger] s[i] == a && s[i + 1] == b)
        },
    decreases s.len(),
{
    if s.len() > 1 && !(s[0] == a && s[1] == b) {
        lemma_find2(s.drop_first(), a, b);
        assert(forall|i: int| 1 <= i < s.len() ==> s[i] == s.drop_first()[i - 1]);
    }
}

/// Split on a one-character separator. Always yields at least one part;
/// a separator at the very end yields a trailing empty part.
pub open spec fn split1(s: Seq<char>, d: char) -> Seq<Seq<char>>
    decreases s.len(),
{
    if s.len() == 0 {
        seq![Seq::<char>::empty()]
    } else if s[0] == d {
        seq![Seq::<char>::empty()] + split1(s.drop_first(), d)
    } else {
        let rest = split1(s.drop_first(), d);
        seq![seq![s[0]] + rest[0]] + rest.drop_first()
    }
}

pub proof fn lemma_split1_len(s: Seq<char>, d: char)
    ensures
        split1(s, d).len() >= 1,
    decreases s.len(),
{
    if s.len() > 0 {
        lemma_split1_len(s.drop_first(), d);
    }
}

/// A string free of the separator splits into itself alone.
pub proof fn lemma_split1_no_sep(s: Seq<char>, d: char)
    requires
        free_of(s, d),
    ensures
        split1(s, d) == seq![s],
    decreases s.len(),
{
    if s.len() == 0 {
        assert(split1(s, d) =~~= seq![s]);
    } else {
        lemma_split1_no_sep(s.drop_first(), d);
        lemma_split1_len(s.drop_first(), d);
        assert(seq![s[0]] + s.drop_first() =~= s);
        assert(split1(s, d) =~~= seq![s]);
    }
}

/// Splitting `p d t` where `p` is free of the separator peels off `p`.
pub proof fn lemma_split1_sep_at(p: Seq<char>, t: Seq<char>, d: char)
    requires
        free_of(p, d),
    ensures
        split1(p + seq![d] + t, d) == seq![p] + split1(t, d),
    decreases p.len(),
{
    let s = p + seq![d] + t;
    if p.len() == 0 {
        assert(s[0] == d);
        assert(s.drop_first() =~= t);
        assert(split1(s, d) =~~= seq![p] + split1(t, d));
    } else {
        assert(s[0] == p[0]);
        assert(s[0] != d);
        assert(s.drop_first() =~= p.drop_first() + seq![d] + t);
        assert(free_of(p.drop_first(), d)) by {
            assert(forall|i: int| 0 <= i < p.len() - 1 ==> p.drop_first()[i] == p[i + 1]);
        }
        lemma_split1_sep_at(p.drop_first(), t, d);
        let rest = split1(s.drop_first(), d);
        assert(rest == seq![p.drop_first()] + split1(t, d));
        assert(rest[0] == p.drop_first());
        assert(seq![s[0]] + rest[0] =~= p);
        assert(rest.drop_first() =~= split1(t, d));
        assert(split1(s, d) =~~= seq![p] + split1(t, d));
    }
}

/// Split on a two-character separator `a b`, leftmost match first.
pub open spec fn split2(s: Seq<char>, a: char, b: char) -> Seq<Seq<char>>
    decreases s.len(),
{
    if s.len() <= 1 {
        seq![s]
    } else if s[0] == a && s[1] == b {
        seq![Seq::<char>::empty()] + split2(s.skip(2), a, b)
    } else {
        let rest = split2(s.drop_first(), a, b);
        seq![seq![s[0]] + rest[0]] + rest.drop_first()
    }
}

pub proof fn lemma_split2_len(s: Seq<char>, a: char, b: char)
    ensures
        split2(s, a, b).len() >= 1,
    decreases s.len(),
{
    if s.len() > 1 {
        if s[0] == a && s[1] == b {
            lemma_split2_len(s.skip(2), a, b);
        } else {
            lemma_split2_len(s.drop_first(), a, b);
        }
    }
}

/// True when the two-character separator `a b` matches nowhere in `s`.
pub open spec fn no_match2(s: Seq<char>, a: char, b: char) -> bool {
    forall|j: int| 0 <= j < s.len() - 1 ==> !(#[trigger] s[j] == a && s[j + 1] == b)
}

/// A string in which the separator never matches splits into itself alone.
pub proof fn lemma_split2_no_sep(s: Seq<char>, a: char, b: char)
    requires
        no_match2(s, a, b),
    ensures
        split2(s, a, b) == seq![s],
    decreases s.len(),
{
    if s.len() <= 1 {
        assert(split2(s, a, b) =~~= seq![s]);
    } else {
        assert(!(s[0] == a && s[1] == b));
        assert(no_match2(s.drop_first(), a, b)) by {
            assert(forall|i: int| 0 <= i < s.len() - 1 ==> s.drop_first()[i] == s[i + 1]);
        }
        lemma_split2_no_sep(s.drop_first(), a, b);
        lemma_split2_len(s.drop_first(), a, b);
        assert(seq![s[0]] + s.drop_first() =~= s);
        assert(split2(s, a, b) =~~= seq![s]);
    }
}

/// Splitting `p a b t` where the separator never matches inside `p`
/// peels off `p`. The two separator characters must differ, so a match
/// cannot straddle the boundary between `p` and the separator.
pub proof fn lemma_split2_sep_at(p: Seq<char>, t: Seq<char>, a: char, b: char)
    requires
        a != b,
        no_match2(p, a, b),
    ensures
        split2(p + seq![a, b] + t, a, b) == seq![p] + split2(t, a, b),
    decreases p.len(),
{
    let s = p + seq![a, b] + t;
    assert(s.len() >= 2);
    if p.len() == 0 {
        assert(s[0] == a && s[1] == b);
        assert(s.skip(2) =~= t);
        assert(split2(s, a, b) =~~= seq![p] + split2(t, a, b));
    } else {
        assert(s[0] == p[0]);
        assert(s[1] == (if p.len() >= 2 { p[1] } else { a }));
        assert(!(s[0] == a && s[1] == b));
        assert(s.drop_first() =~= p.drop_first() + seq![a, b] + t);
        assert(no_match2(p.drop_first(), a, b)) by {
            assert(forall|i: int| 0 <= i < p.len() - 1 ==> p.drop_first()[i] == p[i + 1]);
        }
        lemma_split2_sep_at(p.drop_first(), t, a, b);
        let rest = split2(s.drop_first(), a, b);
        assert(rest[0] == p.drop_first());
        assert(seq![s[0]] + rest[0] =~= p);
        assert(rest.drop_first() =~= split2(t, a, b));
        assert(split2(s, a, b) =~~= seq![p] + split2(t, a, b));
    }
}

/// Join parts with a one-character separator.
pub open spec fn join1(parts: Seq<Seq<char>>, d: char) -> Seq<char>
    decreases parts.len(),
{
    if parts.len() == 0 {
        Seq::<char>::empty()
    } else if parts.len() == 1 {
        parts[0]
    } else {
        parts[0] + seq![d] + join1(parts.drop_first(), d)
    }
}

/// Appending one more part extends the join by a separator and the part.
pub proof fn lemma_join1_snoc(parts: Seq<Seq<char>>, q: Seq<char>, d: char)
    requires
        parts.len() >= 1,
    ensures
        join1(parts.push(q), d) == join1(parts, d) + seq![d] + q,
    decreases parts.len(),
{
    if parts.len() == 1 {
        assert(parts.push(q).drop_first() =~~= seq![q]);
        assert(parts.push(q)[0] == parts[0]);
        assert(join1(parts.push(q), d) == parts[0] + seq![d] + join1(seq![q], d));
    } else {
        assert(parts.push(q).drop_first() =~~= parts.drop_first().push(q));
        assert(parts.push(q)[0] == parts[0]);
        lemma_join1_snoc(parts.drop_first(), q, d);
        assert(join1(parts, d) + seq![d] + q =~= parts[0] + seq![d] + (join1(
            parts.drop_first(),
            d,
        ) + seq![d] + q));
    }
}

/// Joining parts free of the separator and splitting again restores them.
pub proof fn lemma_split1_join1(parts: Seq<Seq<char>>, d: char)
    requires
        parts.len() >= 1,
        forall|k: int| 0 <= k < parts.len() ==> free_of(#[trigger] parts[k], d),
    ensures
        split1(join1(parts, d), d) == parts,
    decreases parts.len(),
{
    if parts.len() == 1 {
        lemma_split1_no_sep(parts[0], d);
        assert(split1(join1(parts, d), d) =~~= parts);
    } else {
        lemma_split1_sep_at(parts[0], join1(parts.drop_first(), d), d);
        lemma_split1_join1(parts.drop_first(), d);
        assert(split1(join1(parts, d), d) =~~= parts);
    }
}

/// No part produced by splitting contains the separator.
pub proof fn lemma_split1_parts_free(s: Seq<char>, d: char)
    ensures
        forall|k: int| 0 <= k < split1(s, d).len() ==> free_of(#[trigger] split1(s, d)[k], d),
    decreases s.len(),
{
    if s.len() == 0 {
    } else if s[0] == d {
        lemma_split1_parts_free(s.drop_first(), d);
        let parts = split1(s, d);
        let rest = split1(s.drop_first(), d);
        assert forall|k: int| 0 <= k < parts.len() implies free_of(parts[k], d) by {
            if k > 0 {
                assert(parts[k] == rest[k - 1]);
            }
        }
    } else {
        lemma_split1_parts_free(s.drop_first(), d);
        lemma_split1_len(s.drop_first(), d);
        let parts = split1(s, d);
        let rest = split1(s.drop_first(), d);
        assert forall|k: int| 0 <= k < parts.len() implies free_of(parts[k], d) by {
            if k == 0 {
                assert(parts[0] == seq![s[0]] + rest[0]);
                assert(free_of(rest[0], d));
                assert(forall|j: int|
                    0 <= j < parts[0].len() ==> parts[0][j] == (if j == 0 {
                        s[0]
                    } else {
                        rest[0][j - 1]
                    }));
            } else {
                assert(parts[k] == rest.drop_first()[k - 1]);
                assert(rest.drop_first()[k - 1] == rest[k]);
            }
        }
    }
}

/// Remove leading whitespace.
pub open spec fn trim_front(s: Seq<char>) -> Seq<char>
    decreases s.len(),
{
    if s.len() > 0 && is_ws(s[0]) {
        trim_front(s.drop_first())
    } else {
        s
    }
}

/// Remove trailing whitespace.
pub open spec fn trim_back(s: Seq<char>) -> Seq<char>
    decreases s.len(),
{
    if s.len() > 0 && is_ws(s.last()) {
        trim_back(s.drop_last())
    } else {
        s
    }
}

/// Remove surrounding whitespace.
pub open spec fn trim(s: Seq<char>) -> Seq<char> {
    trim_back(trim_front(s))
}

pub proof fn lemma_trim_front_skip(s: Seq<char>, lo: int)
    requires
        0 <= lo <= s.len(),
        forall|j: int| 0 <= j < lo ==> is_ws(s[j]),
        lo == s.len() || !is_ws(s[lo]),
    ensures
        trim_front(s) == s.skip(lo),
    decreases lo,
{
    if lo == 0 {
        assert(s.skip(0) =~= s);
    } else {
        assert(is_ws(s[0]));
        assert(forall|j: int| 0 <= j < s.len() - 1 ==> s.drop_first()[j] == s[j + 1]);
        lemma_trim_front_skip(s.drop_first(), lo - 1);
        assert(s.drop_first().skip(lo - 1) =~= s.skip(lo));
    }
}

pub proof fn lemma_trim_back_take(s: Seq<char>, k: int)
    requires
        0 <= k <= s.len(),
        forall|j: int| k <= j < s.len() ==> is_ws(s[j]),
        k == 0 || !is_ws(s[k - 1]),
    ensures
        trim_back(s) == s.take(k),
    decreases s.len(),
{
    if s.len() > 0 && is_ws(s.last()) {
        assert(k < s.len());
        assert(forall|j: int| 0 <= j < s.len() - 1 ==> s.drop_last()[j] == s[j]);
        lemma_trim_back_take(s.drop_last(), k);
        assert(s.drop_last().take(k) =~= s.take(k));
    } else {
        assert(k == s.len());
        assert(s.take(k) =~= s);
    }
}

/// A non-empty string with no whitespace at either end trims to itself.
pub proof fn lemma_trim_id(s: Seq<char>)
    requires
        s.len() > 0,
        !is_ws(s[0]),
        !is_ws(s.last()),
    ensures
        trim(s) == s,
{
    assert(trim_front(s) == s);
    assert(trim_back(s) == s);
}

// === executable counterparts ===

pub fn is_ws_exec(c: char) -> (r: bool)
    ensures
        r == is_ws(c),
{
    c == ' ' || c == '\t' || c == '\r' || c == '\n'
}

/// First occurrence of `d` in `s`, if any.
pub fn find_sep1(s: &str, d: char) -> (r: Option<usize>)
    ensures
        r matches Some(i) ==> i as int == find1(s@, d),
        r is None ==> find1(s@, d) < 0,
{
    let n: usize = s.unicode_len();
    let mut i: usize = 0;
    while i < n
        invariant
            i <= n,
            n == s@.len(),
            forall|j: int| 0 <= j < i ==> s@[j] != d,
        decreases n - i,
    {
        if s.get_char(i) == d {
            proof {
                lemma_find1(s@, d);
            }
            return Some(i);
        }
        i += 1;
    }
    proof {
        lemma_find1(s@, d);
    }
    None
}

/// First occurrence of the two-character separator `a b` in `s`, if any.
pub fn find_sep2(s: &str, a: char, b: char) -> (r: Option<usize>)
    ensures
        r matches Some(i) ==> i as int == find2(s@, a, b),
        r is None ==> find2(s@, a, b) < 0,
{
    let n: usize = s.unicode_len();
    if n <= 1 {
        return None;
    }
    let mut i: usize = 0;
    while i + 1 < n
        invariant
            i <= n - 1,
            n == s@.len(),
            n >= 2,
            forall|j: int| 0 <= j < i ==> !(#[trigger] s@[j] == a && s@[j + 1] == b),
        decreases n - i,
    {
        if s.get_char(i) == a && s.get_char(i + 1) == b {
            proof {
                lemma_find2(s@, a, b);
            }
            return Some(i);
        }
        i += 1;
    }
    proof {
        lemma_find2(s@, a, b);
    }
    None
}

/// The views of a sequence of string slices.
pub open spec fn strs_view(v: Seq<&str>) -> Seq<Seq<char>> {
    v.map_values(|t: &str| t@)
}

/// Split `s` on a one-character separator.
pub fn split_str1<'a>(s: &'a str, d: char) -> (v: Vec<&'a str>)
    ensures
        strs_view(v@) == split1(s@, d),
    decreases s@.len(),
{
    match find_sep1(s, d) {
        None => {
            let mut v: Vec<&'a str> = Vec::new();
            v.push(s);
            proof {
                lemma_find1(s@, d);
                lemma_split1_no_sep(s@, d);
                assert(strs_view(v@) =~~= split1(s@, d));
            }
            v
        },
        Some(i) => {
            proof {
                lemma_find1(s@, d);
            }
            let n: usize = s.unicode_len();
            let left = s.substring_char(0, i);
            let right = s.substring_char(i + 1, n);
            let mut v = split_str1(right, d);
            v.insert(0, left);
            proof {
                assert(left@ =~= s@.take(i as int));
                assert(right@ =~= s@.skip(i + 1));
                assert(s@ =~= s@.take(i as int) + seq![d] + s@.skip(i + 1));
                lemma_split1_sep_at(s@.take(i as int), s@.skip(i + 1), d);
                assert(strs_view(v@) =~~= seq![left@] + strs_view(v@.drop_first()));
                assert(strs_view(v@) =~~= split1(s@, d));
            }
            v
        },
    }
}

/// Split `s` on the two-character separator `a b`.
pub fn split_str2<'a>(s: &'a str, a: char, b: char) -> (v: Vec<&'a str>)
    requires
        a != b,
    ensures
        strs_view(v@) == split2(s@, a, b),
    decreases s@.len(),
{
    match find_sep2(s, a, b) {
        None => {
            let mut v: Vec<&'a str> = Vec::new();
            v.push(s);
            proof {
                lemma_find2(s@, a, b);
                lemma_split2_no_sep(s@, a, b);
                assert(strs_view(v@) =~~= split2(s@, a, b));
            }
            v
        },
        Some(i) => {
            proof {
                lemma_find2(s@, a, b);
            }
            let n: usize = s.unicode_len();
            let left = s.substring_char(0, i);
            let right = s.substring_char(i + 2, n);
            let mut v = split_str2(right, a, b);
            v.insert(0, left);
            proof {
                assert(left@ =~= s@.take(i as int));
                assert(right@ =~= s@.skip(i + 2));
                assert(s@ =~= s@.take(i as int) + seq![a, b] + s@.skip(i + 2));
                assert(no_match2(s@.take(i as int), a, b)) by {
                    assert(forall|j: int| 0 <= j < i ==> s@.take(i as int)[j] == s@[j]);
                }
                lemma_split2_sep_at(s@.take(i as int), s@.skip(i + 2), a, b);
                assert(strs_view(v@) =~~= seq![left@] + strs_view(v@.drop_first()));
                assert(strs_view(v@) =~~= split2(s@, a, b));
            }
            v
        },
    }
}

/// Remove surrounding whitespace from a string slice.
pub fn trim_str<'a>(s: &'a str) -> (r: &'a str)
    ensures
        r@ == trim(s@),
{
    let n: usize = s.unicode_len();
    let mut lo: usize = 0;
    while lo < n && is_ws_exec(s.get_char(lo))
        invariant
            lo <= n,
            n == s@.len(),
            forall|j: int| 0 <= j < lo ==> is_ws(s@[j]),
        decreases n - lo,
    {
        lo += 1;
    }
    let mut hi: usize = n;
    while hi > lo && is_ws_exec(s.get_char(hi - 1))
        invariant
            lo <= hi <= n,
            n == s@.len(),
            forall|j: int| hi <= j < n ==> is_ws(s@[j]),
        decreases hi,
    {
        hi -= 1;
    }
    proof {
        lemma_trim_front_skip(s@, lo as int);
        assert(forall|j: int|
            0 <= j < s@.skip(lo as int).len() ==> s@.skip(lo as int)[j] == s@[j + lo]);
        lemma_trim_back_take(s@.skip(lo as int), hi - lo);
        assert(s@.skip(lo as int).take(hi - lo) =~= s@.subrange(lo as int, hi as int));
    }
    s.substring_char(lo, hi)
}

/// Character-for-character string equality.
pub fn str_eq(a: &str, b: &str) -> (r: bool)
    ensures
        r == (a@ == b@),
{
    let na: usize = a.unicode_len();
    let nb: usize = b.unicode_len();
    if na != nb {
        return false;
    }
    let mut i: usize = 0;
    while i < na
        invariant
            i <= na,
            na == a@.len(),
            na == b@.len(),
            forall|j: int| 0 <= j < i ==> a@[j] == b@[j],
        decreases na - i,
    {
        if a.get_char(i) != b.get_char(i) {
            return false;
        }
        i += 1;
    }
    proof {
        assert(a@ =~= b@);
    }
    true
}

/// Does `s` start with `p`?
pub fn has_prefix(s: &str, p: &str) -> (r: bool)
    ensures
        r == p@.is_prefix_of(s@),
{
    let np: usize = p.unicode_len();
    let ns: usize = s.unicode_len();
    if np > ns {
        return false;
    }
    let mut i: usize = 0;
    while i < np
        invariant
            i <= np,
            np == p@.len(),
            ns == s@.len(),
            np <= ns,
            forall|j: int| 0 <= j < i ==> p@[j] == s@[j],
        decreases np - i,
    {
        if p.get_char(i) != s.get_char(i) {
            proof {
                assert(!p@.is_prefix_of(s@)) by {
                    if p@.is_prefix_of(s@) {
                        assert(p@[i as int] == s@.subrange(0, p@.len() as int)[i as int]);
                    }
                }
            }
            return false;
        }
        i += 1;
    }
    proof {
        assert(p@ =~= s@.subrange(0, p@.len() as int));
    }
    true
}

} // verus!
