//! Substring search over the characters of a string.
use crate::model::has_substring;
use vstd::prelude::*;
use vstd::string::StrSliceExecFns;

verus! {

/// The characters of `s`, one per element.
pub fn chars_of(s: &str) -> (r: Vec<char>)
    ensures
        r@ == s@,
{
    let n = s.unicode_len();
    let mut r: Vec<char> = Vec::new();
    let mut i: usize = 0;
    while i < n
        invariant
            n == s@.len(),
            i <= n,
            r@ == s@.take(i as int),
        decreases n - i,
    {
        r.push(s.get_char(i));
        i += 1;
        assert(r@ =~= s@.take(i as int));
    }
    assert(s@.take(n as int) =~= s@);
    r
}

/// Whether `fragment` stands in `text` from position `at` on.
fn matches_at(text: &Vec<char>, fragment: &Vec<char>, at: usize) -> (r: bool)
    requires
        at + fragment@.len() <= text@.len(),
    ensures
        r == (text@.subrange(at as int, at + fragment@.len()) == fragment@),
{
    let n = text.len();
    let mut j: usize = 0;
    while j < fragment.len()
        invariant
            n == text@.len(),
            at + fragment@.len() <= text@.len(),
            j <= fragment@.len(),
            forall|k: int| 0 <= k < j ==> text@[at + k] == fragment@[k],
        decreases fragment@.len() - j,
    {
        if text[at + j] != fragment[j] {
            assert(text@.subrange(at as int, at + fragment@.len())[j as int] != fragment@[j as int]);
            return false;
        }
        j += 1;
    }
    assert(text@.subrange(at as int, at + fragment@.len()) =~= fragment@);
    true
}

/// Whether `fragment` occurs in `text`; the comparison is exact, character
/// by character, so it is case-sensitive. The empty fragment occurs in every
/// text.
pub fn contains_fragment(text: &str, fragment: &str) -> (r: bool)
    ensures
        r == has_substring(text@, fragment@),
{
    let t = chars_of(text);
    let f = chars_of(fragment);
    if f.len() > t.len() {
        return false;
    }
    let last = t.len() - f.len();
    let mut i: usize = 0;
    loop
        invariant
            last == t@.len() - f@.len(),
            t@ == text@,
            f@ == fragment@,
            i <= last,
            forall|k: int| 0 <= k < i ==> #[trigger] t@.subrange(k, k + f@.len()) != f@,
        decreases last - i,
    {
        if matches_at(&t, &f, i) {
            return true;
        }
        if i == last {
            return false;
        }
        i += 1;
    }
}

} // verus!
