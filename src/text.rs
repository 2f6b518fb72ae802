use vstd::prelude::*;

verus! {

/// True when `needle` occurs in `hay` as a contiguous run of characters.
pub open spec fn is_substring(needle: Seq<char>, hay: Seq<char>) -> bool {
    exists|i: int|
        0 <= i && i + needle.len() <= hay.len() && #[trigger] hay.subrange(i, i + needle.len())
            == needle
}

/// The characters of `s`, in order.
pub fn chars_of(s: &str) -> (r: Vec<char>)
    ensures
        r@ == s@,
{
    let mut r: Vec<char> = Vec::new();
    for c in it: s.chars()
        invariant
            r@ == it.seq().take(it.index() as int),
    {
        r.push(c);
    }
    r
}


/// Whether `needle` equals the characters `hay[k..k + needle.len()]`.
fn matches_at(needle: &Vec<char>, hay: &Vec<char>, k: usize) -> (r: bool)
    requires
        k + needle.len() <= hay.len(),
    ensures
        r == (hay@.subrange(k as int, k + needle.len()) == needle@),
{
    let n = needle.len();
    let mut j: usize = 0;
    while j < n
        invariant
            n == needle.len(),
            k + n <= hay.len(),
            j <= n,
            forall|t: int| 0 <= t < j ==> hay@[k + t] == needle@[t],
        decreases n - j,
    {
        if hay[k + j] != needle[j] {
            assert(hay@.subrange(k as int, k + n)[j as int] != needle@[j as int]);
            return false;
        }
        j = j + 1;
    }
    assert(hay@.subrange(k as int, k + n) =~= needle@);
    true
}

/// Whether `needle` occurs in the characters `hay[lo..hi]`.
pub fn occurs_in(needle: &Vec<char>, hay: &Vec<char>, lo: usize, hi: usize) -> (r: bool)
    requires
        lo <= hi <= hay.len(),
    ensures
        r == is_substring(needle@, hay@.subrange(lo as int, hi as int)),
{
    let ghost part = hay@.subrange(lo as int, hi as int);
    let n = needle.len();
    if n > hi - lo {
        return false;
    }
    let mut k: usize = lo;
    loop
        invariant
            n == needle.len(),
            lo <= k <= hi - n,
            n <= hi - lo,
            hi <= hay.len(),
            part == hay@.subrange(lo as int, hi as int),
            forall|t: int|
                0 <= t && lo + t < k ==> #[trigger] part.subrange(t, t + n) != needle@,
        decreases hi - k,
    {
        assert(part.subrange(k - lo, k - lo + n) =~= hay@.subrange(k as int, k + n));
        if matches_at(needle, hay, k) {
            return true;
        }
        if k == hi - n {
            return false;
        }
        k = k + 1;
    }
}

/// Whether `needle` occurs in `haystack`.
pub fn contains(haystack: &str, needle: &str) -> (r: bool)
    ensures
        r == is_substring(needle@, haystack@),
{
    let hay = chars_of(haystack);
    let pat = chars_of(needle);
    assert(hay@.subrange(0, hay@.len() as int) =~= hay@);
    occurs_in(&pat, &hay, 0, hay.len())
}

} // verus!
