//! Parsing of the textual inputs: a separator-delimited pair of values.

use vstd::prelude::*;
use vstd::string::StrSliceExecFns;

verus! {

/// Index of the first occurrence of `sep` in `s`, if any.
pub open spec fn first_sep(s: Seq<char>, sep: char) -> Option<int>
    decreases s.len(),
{
    if s.len() == 0 {
        None
    } else if s[0] == sep {
        Some(0)
    } else {
        match first_sep(s.subrange(1, s.len() as int), sep) {
            Some(i) => Some(i + 1),
            None => None,
        }
    }
}

/// Whether two string slices hold the same characters.
pub fn str_eq(a: &str, b: &str) -> (r: bool)
    ensures
        r <==> a@ == b@,
{
    let alen = a.unicode_len();
    let blen = b.unicode_len();
    if alen != blen {
        return false;
    }
    let mut i: usize = 0;
    while i < alen
        invariant
            i <= alen,
            alen == a@.len(),
            alen == b@.len(),
            forall|j: int| 0 <= j < i ==> a@[j] == b@[j],
        decreases alen - i,
    {
        if a.get_char(i) != b.get_char(i) {
            return false;
        }
        i = i + 1;
    }
    proof {
        assert(a@ =~= b@);
    }
    true
}

proof fn lemma_first_sep_at(s: Seq<char>, sep: char, i: int)
    requires
        0 <= i < s.len(),
        s[i] == sep,
        forall|j: int| 0 <= j < i ==> s[j] != sep,
    ensures
        first_sep(s, sep) == Some(i),
    decreases i,
{
    if i > 0 {
        let t = s.subrange(1, s.len() as int);
        assert forall|j: int| 0 <= j < i - 1 implies t[j] != sep by {
            assert(t[j] == s[j + 1]);
        }
        lemma_first_sep_at(t, sep, i - 1);
    }
}

proof fn lemma_first_sep_none(s: Seq<char>, sep: char)
    requires
        forall|j: int| 0 <= j < s.len() ==> s[j] != sep,
    ensures
        first_sep(s, sep) is None,
    decreases s.len(),
{
    if s.len() > 0 {
        let t = s.subrange(1, s.len() as int);
        assert forall|j: int| 0 <= j < t.len() implies t[j] != sep by {
            assert(t[j] == s[j + 1]);
        }
        lemma_first_sep_none(t, sep);
    }
}

/// Index of the first occurrence of `sep` in `s`, scanning left to right.
pub fn find_sep(s: &str, sep: char) -> (r: Option<usize>)
    ensures
        match r {
            Some(i) => first_sep(s@, sep) == Some(i as int) && i < s@.len(),
            None => first_sep(s@, sep) is None,
        },
{
    let n = s.unicode_len();
    let mut i: usize = 0;
    while i < n
        invariant
            i <= n,
            n == s@.len(),
            forall|j: int| 0 <= j < i ==> s@[j] != sep,
        decreases n - i,
    {
        if s.get_char(i) == sep {
            proof {
                lemma_first_sep_at(s@, sep, i as int);
            }
            return Some(i);
        }
        i = i + 1;
    }
    proof {
        lemma_first_sep_none(s@, sep);
    }
    None
}

/// Split `s` into the halves before and after the first `separator`;
/// `None` exactly when the separator does not occur.
pub fn split_pair<'a>(s: &'a str, separator: char) -> (r: Option<(&'a str, &'a str)>)
    ensures
        match r {
            Some(halves) => first_sep(s@, separator) matches Some(i) && halves.0@ == s@.subrange(
                0,
                i,
            ) && halves.1@ == s@.subrange(i + 1, s@.len() as int),
            None => first_sep(s@, separator) is None,
        },
{
    match find_sep(s, separator) {
        None => None,
        Some(index) => {
            let n = s.unicode_len();
            let left = s.substring_char(0, index);
            let right = s.substring_char(index + 1, n);
            Some((left, right))
        },
    }
}

/// Relies on `T::from_str` from std: only the type's own parser decides
/// whether a half is accepted, so nothing is assumed of the outcome.
#[verifier::external_body]
fn from_str_opt<T: core::str::FromStr>(s: &str) -> Option<T> {
    match T::from_str(s) {
        Ok(v) => Some(v),
        Err(_) => None,
    }
}

/// Pair up the two parsed halves: `Some` exactly when both parsed.
pub fn pair_of_parsed<T>(left: Option<T>, right: Option<T>) -> (r: Option<(T, T)>)
    ensures
        match (left, right) {
            (Some(l), Some(rg)) => r == Some((l, rg)),
            _ => r is None,
        },
{
    match (left, right) {
        (Some(l), Some(rg)) => Some((l, rg)),
        _ => None,
    }
}

/// Parse the string `s` as a pair, like `"400x600"` or `"1.0,1.5"`.
///
/// `s` must have the form `<left><sep><right>`, where `<sep>` is the first
/// occurrence of `separator` and both halves are accepted by `T`'s parser;
/// `None` when the separator is absent or either half is rejected.
pub fn parse_pair<T: core::str::FromStr>(s: &str, separator: char) -> (r: Option<(T, T)>)
    ensures
        first_sep(s@, separator) is None ==> r is None,
        r is Some ==> first_sep(s@, separator) is Some,
{
    match split_pair(s, separator) {
        None => None,
        Some((left, right)) => pair_of_parsed(from_str_opt::<T>(left), from_str_opt::<T>(right)),
    }
}

} // verus!
