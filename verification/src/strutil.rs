//! Character-level string helpers: locating delimiter characters, splitting
//! around them, comparing strings, and replacing single characters.

use vstd::prelude::*;
use vstd::string::StrSliceExecFns;
use vstd::string::StringExecFns;

verus! {

/// `c` occurs somewhere in `s`.
pub open spec fn contains_char(s: Seq<char>, c: char) -> bool {
    exists|i: int| 0 <= i < s.len() && s[i] == c
}

/// `i` is the index of the first occurrence of `c` in `s`.
pub open spec fn is_first_at(s: Seq<char>, c: char, i: int) -> bool {
    &&& 0 <= i < s.len()
    &&& s[i] == c
    &&& forall|j: int| 0 <= j < i ==> s[j] != c
}

/// The index of the first occurrence of `c` in `s`.
pub open spec fn first_at(s: Seq<char>, c: char) -> int
    recommends
        contains_char(s, c),
{
    choose|i: int| is_first_at(s, c, i)
}

/// `i` is the index of the last occurrence of `c` in `s`.
pub open spec fn is_last_at(s: Seq<char>, c: char, i: int) -> bool {
    &&& 0 <= i < s.len()
    &&& s[i] == c
    &&& forall|j: int| i < j < s.len() ==> s[j] != c
}

/// The index of the last occurrence of `c` in `s`.
pub open spec fn last_at(s: Seq<char>, c: char) -> int
    recommends
        contains_char(s, c),
{
    choose|i: int| is_last_at(s, c, i)
}

/// Everything strictly before the first occurrence of `c`.
pub open spec fn before_first(s: Seq<char>, c: char) -> Seq<char>
    recommends
        contains_char(s, c),
{
    s.take(first_at(s, c))
}

/// Everything strictly after the first occurrence of `c`.
pub open spec fn after_first(s: Seq<char>, c: char) -> Seq<char>
    recommends
        contains_char(s, c),
{
    s.skip(first_at(s, c) + 1)
}

/// The final `/`-delimited segment of a path (the whole string if no `/`).
pub open spec fn last_segment(s: Seq<char>) -> Seq<char> {
    if contains_char(s, '/') {
        s.skip(last_at(s, '/') + 1)
    } else {
        s
    }
}

/// `s` with every occurrence of `from` replaced by `to`.
pub open spec fn replace_char(s: Seq<char>, from: char, to: char) -> Seq<char> {
    Seq::new(s.len(), |i: int| if s[i] == from { to } else { s[i] })
}

/// A witness index pins down `first_at`.
pub proof fn lemma_first_at_is(s: Seq<char>, c: char, i: int)
    requires
        is_first_at(s, c, i),
    ensures
        contains_char(s, c),
        first_at(s, c) == i,
{
    assert(contains_char(s, c));
    let w = choose|w: int| is_first_at(s, c, w);
    assert(is_first_at(s, c, w));
    if w < i {
        assert(s[w] == c);
        assert(false);
    } else if i < w {
        assert(s[i] == c);
        assert(false);
    }
}

/// Index of the first occurrence of `c` in `s`, if any.
pub fn find_first(s: &str, c: char) -> (r: Option<usize>)
    ensures
        match r {
            Some(i) => is_first_at(s@, c, i as int) && first_at(s@, c) == i as int,
            None => !contains_char(s@, c),
        },
{
    let n = s.unicode_len();
    let mut k: usize = 0;
    while k < n
        invariant
            n == s@.len(),
            k <= n,
            forall|j: int| 0 <= j < k ==> s@[j] != c,
        decreases n - k,
    {
        if s.get_char(k) == c {
            proof {
                assert(is_first_at(s@, c, k as int));
                let w = first_at(s@, c);
                assert(is_first_at(s@, c, w));
            }
            return Some(k);
        }
        k += 1;
    }
    None
}

/// Index of the last occurrence of `c` in `s`, if any.
pub fn find_last(s: &str, c: char) -> (r: Option<usize>)
    ensures
        match r {
            Some(i) => is_last_at(s@, c, i as int) && last_at(s@, c) == i as int,
            None => !contains_char(s@, c),
        },
{
    let n = s.unicode_len();
    let mut k: usize = n;
    while k > 0
        invariant
            n == s@.len(),
            k <= n,
            forall|j: int| k <= j < n ==> s@[j] != c,
        decreases k,
    {
        k -= 1;
        if s.get_char(k) == c {
            proof {
                assert(is_last_at(s@, c, k as int));
                let w = last_at(s@, c);
                assert(is_last_at(s@, c, w));
            }
            return Some(k);
        }
    }
    None
}

/// Character-wise string equality.
pub fn str_eq(a: &str, b: &str) -> (r: bool)
    ensures
        r == (a@ == b@),
{
    let na = a.unicode_len();
    let nb = b.unicode_len();
    if na != nb {
        return false;
    }
    let mut k: usize = 0;
    while k < na
        invariant
            na == a@.len(),
            na == b@.len(),
            k <= na,
            forall|j: int| 0 <= j < k ==> a@[j] == b@[j],
        decreases na - k,
    {
        if a.get_char(k) != b.get_char(k) {
            return false;
        }
        k += 1;
    }
    proof {
        assert(a@ =~= b@);
    }
    true
}

/// `s` with every underscore replaced by a space.
pub fn underscores_to_spaces(s: &str) -> (r: String)
    ensures
        r@ == replace_char(s@, '_', ' '),
{
    proof {
        reveal_strlit(" ");
        assert(" "@ =~= seq![' ']);
    }
    replace_to_literal(s, '_', " ", ' ')
}

/// `s` with every space replaced by an underscore.
pub fn spaces_to_underscores(s: &str) -> (r: String)
    ensures
        r@ == replace_char(s@, ' ', '_'),
{
    proof {
        reveal_strlit("_");
        assert("_"@ =~= seq!['_']);
    }
    replace_to_literal(s, ' ', "_", '_')
}

/// Replace every occurrence of `from` by the single character of `to_str`.
fn replace_to_literal(s: &str, from: char, to_str: &str, to: char) -> (r: String)
    requires
        to_str@ =~= seq![to],
    ensures
        r@ == replace_char(s@, from, to),
{
    let n = s.unicode_len();
    let mut r = String::new();
    let mut start: usize = 0;
    let mut j: usize = 0;
    while j < n
        invariant
            n == s@.len(),
            start <= j <= n,
            to_str@ =~= seq![to],
            r@ + s@.subrange(start as int, j as int) =~= replace_char(s@.take(j as int), from, to),
            forall|k: int| start <= k < j ==> s@[k] != from,
        decreases n - j,
    {
        if s.get_char(j) != from {
            proof {
                let t1 = s@.take((j + 1) as int);
                let t0 = s@.take(j as int);
                assert(s@.subrange(start as int, (j + 1) as int) =~= s@.subrange(
                    start as int,
                    j as int,
                ).push(s@[j as int]));
                assert(t1 =~= t0.push(s@[j as int]));
                assert(replace_char(t1, from, to) =~= replace_char(t0, from, to).push(
                    s@[j as int],
                ));
                assert(r@ + s@.subrange(start as int, (j + 1) as int) =~= replace_char(
                    t1,
                    from,
                    to,
                ));
            }
        } else {
            let seg = s.substring_char(start, j);
            r.append(seg);
            r.append(to_str);
            proof {
                let t1 = s@.take((j + 1) as int);
                let t0 = s@.take(j as int);
                assert(t1 =~= t0.push(s@[j as int]));
                assert(replace_char(t1, from, to) =~= replace_char(t0, from, to).push(to));
                assert(r@ =~= replace_char(t1, from, to));
            }
            start = j + 1;
            proof {
                assert(r@ + s@.subrange(start as int, (j + 1) as int) =~= r@);
            }
        }
        j += 1;
    }
    let tail = s.substring_char(start, n);
    r.append(tail);
    proof {
        assert(s@.take(n as int) =~= s@);
        assert(r@ =~= replace_char(s@, from, to));
    }
    r
}

} // verus!
