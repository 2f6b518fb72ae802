use vstd::prelude::*;
use vstd::utf8::is_ascii_chars;
use crate::lines::{lines, line_bounds, spans};
use crate::text::{chars_of, is_substring, occurs_in};

verus! {

/// What `str::to_lowercase` makes of a string.
pub uninterp spec fn lower_of(s: Seq<char>) -> Seq<char>;

/// The ASCII case mapping: 'A'..='Z' become 'a'..='z', the rest stays.
pub open spec fn ascii_lower(s: Seq<char>) -> Seq<char> {
    s.map_values(|c: char| if 'A' <= c <= 'Z' { ((c as u8) + 32u8) as char } else { c })
}

/// Relies on str::to_lowercase: its result depends on the characters alone,
/// an empty string stays empty, and on ASCII text it is the ASCII case mapping
/// (Unicode's lowercase mapping agrees with it there).
#[verifier::external_body]
fn lowercase(s: &str) -> (r: String)
    ensures
        r@ == lower_of(s@),
        s@.len() == 0 ==> r@.len() == 0,
        is_ascii_chars(s@) ==> r@ == ascii_lower(s@),
{
    s.to_lowercase()
}


/// The characters of each returned line, in order.
pub open spec fn views(r: Seq<&str>) -> Seq<Seq<char>> {
    r.map_values(|l: &str| l@)
}

/// The lines of `ls` that contain `q`, in their order.
pub open spec fn select_containing(ls: Seq<Seq<char>>, q: Seq<char>) -> Seq<Seq<char>>
    decreases ls.len(),
{
    if ls.len() == 0 {
        ls
    } else {
        let rest = select_containing(ls.drop_last(), q);
        if is_substring(q, ls.last()) {
            rest.push(ls.last())
        } else {
            rest
        }
    }
}

/// The lines of `ls` whose lowercase form contains `folded`, in their order.
pub open spec fn select_folded(ls: Seq<Seq<char>>, folded: Seq<char>) -> Seq<Seq<char>>
    decreases ls.len(),
{
    if ls.len() == 0 {
        ls
    } else {
        let rest = select_folded(ls.drop_last(), folded);
        if is_substring(folded, lower_of(ls.last())) {
            rest.push(ls.last())
        } else {
            rest
        }
    }
}

/// The empty query occurs everywhere.
pub proof fn lemma_empty_occurs(hay: Seq<char>)
    ensures
        is_substring(Seq::empty(), hay),
{
    let e = Seq::<char>::empty();
    assert(hay.subrange(0int, 0int + e.len()) =~= e);
}

/// The lines of the empty text: none.
pub proof fn lemma_no_lines_in_empty()
    ensures
        lines(Seq::empty()).len() == 0,
{
    assert(crate::lines::pieces(Seq::empty()).drop_last() =~= Seq::<Seq<char>>::empty());
}

/// The case-sensitive search: every line of `contents` that contains `query`,
/// in order. Lines split at "\n" or "\r\n"; a final line needs no terminator.
pub fn search<'a>(query: &str, contents: &'a str) -> (r: Vec<&'a str>)
    ensures
        views(r@) == select_containing(lines(contents@), query@),
        query@.len() == 0 ==> views(r@) == lines(contents@),
        contents@.len() == 0 ==> r@.len() == 0,
{
    let cs = chars_of(contents);
    let qs = chars_of(query);
    let bounds = line_bounds(&cs);
    let ghost ls = spans(cs@, bounds@);
    let mut r: Vec<&'a str> = Vec::new();
    let mut k: usize = 0;
    while k < bounds.len()
        invariant
            k <= bounds.len(),
            cs@ == contents@,
            ls == spans(cs@, bounds@),
            ls == lines(cs@),
            forall|j: int| 0 <= j < bounds.len() ==> #[trigger] bounds@[j].0 <= bounds@[j].1 <= cs.len(),
            views(r@) == select_containing(ls.take(k as int), qs@),
            qs@.len() == 0 ==> views(r@) == ls.take(k as int),
        decreases bounds.len() - k,
    {
        let (lo, hi) = bounds[k];
        let ghost old_r = r@;
        proof {
            assert(ls.take(k + 1).drop_last() =~= ls.take(k as int));
            assert(ls[k as int] == cs@.subrange(lo as int, hi as int));
            if qs@.len() == 0 {
                lemma_empty_occurs(ls[k as int]);
                assert(Seq::<char>::empty() =~= qs@);
            }
        }
        if occurs_in(&qs, &cs, lo, hi) {
            r.push(contents.substring_char(lo, hi));
            proof {
                assert(views(r@) =~= views(old_r).push(ls[k as int]));
                assert(ls.take(k as int).push(ls[k as int]) =~= ls.take(k + 1));
            }
        }
        k = k + 1;
    }
    proof {
        assert(ls.take(bounds.len() as int) =~= ls);
        if contents@.len() == 0 {
            lemma_no_lines_in_empty();
            assert(cs@ =~= Seq::<char>::empty());
        }
    }
    r
}

/// ASCII case mapping keeps an occurrence: it maps each character alone.
pub proof fn lemma_ascii_lower_keeps(q: Seq<char>, l: Seq<char>)
    requires
        is_substring(q, l),
    ensures
        is_substring(ascii_lower(q), ascii_lower(l)),
{
    let i = choose|i: int|
        0 <= i && i + q.len() <= l.len() && #[trigger] l.subrange(i, i + q.len()) == q;
    assert(ascii_lower(l).subrange(i, i + ascii_lower(q).len()) =~= ascii_lower(q));
}

/// The case-insensitive search: every line of `contents` whose lowercase form
/// contains the lowercase form of `query`, in order, as it stands in
/// `contents`.
pub fn search_case_insensitive<'a>(query: &str, contents: &'a str) -> (r: Vec<&'a str>)
    ensures
        views(r@) == select_folded(lines(contents@), lower_of(query@)),
        query@.len() == 0 ==> views(r@) == lines(contents@),
        contents@.len() == 0 ==> r@.len() == 0,
        is_ascii_chars(query@) && is_ascii_chars(contents@) ==> forall|j: int|
            0 <= j < lines(contents@).len() && is_substring(query@, #[trigger] lines(contents@)[j])
                ==> is_substring(lower_of(query@), lower_of(lines(contents@)[j])),
{
    let folded_query = lowercase(query);
    let qs = chars_of(folded_query.as_str());
    let cs = chars_of(contents);
    let bounds = line_bounds(&cs);
    let ghost ls = spans(cs@, bounds@);
    let ghost ascii = is_ascii_chars(query@) && is_ascii_chars(contents@);
    let mut r: Vec<&'a str> = Vec::new();
    let mut k: usize = 0;
    while k < bounds.len()
        invariant
            k <= bounds.len(),
            cs@ == contents@,
            qs@ == lower_of(query@),
            query@.len() == 0 ==> qs@.len() == 0,
            ascii == (is_ascii_chars(query@) && is_ascii_chars(contents@)),
            ascii ==> qs@ == ascii_lower(query@),
            ls == spans(cs@, bounds@),
            ls == lines(cs@),
            forall|j: int| 0 <= j < bounds.len() ==> #[trigger] bounds@[j].0 <= bounds@[j].1 <= cs.len(),
            views(r@) == select_folded(ls.take(k as int), qs@),
            qs@.len() == 0 ==> views(r@) == ls.take(k as int),
            ascii ==> forall|j: int|
                0 <= j < k && is_substring(query@, #[trigger] ls[j])
                    ==> is_substring(qs@, lower_of(ls[j])),
        decreases bounds.len() - k,
    {
        let (lo, hi) = bounds[k];
        let ghost old_r = r@;
        let line = contents.substring_char(lo, hi);
        let folded_line = lowercase(line);
        let lc = chars_of(folded_line.as_str());
        proof {
            assert(ls.take(k + 1).drop_last() =~= ls.take(k as int));
            assert(ls[k as int] == cs@.subrange(lo as int, hi as int));
            assert(lc@.subrange(0, lc@.len() as int) =~= lc@);
            if qs@.len() == 0 {
                lemma_empty_occurs(lc@);
                assert(Seq::<char>::empty() =~= qs@);
            }
            if ascii {
                assert(is_ascii_chars(line@));
                if is_substring(query@, line@) {
                    lemma_ascii_lower_keeps(query@, line@);
                }
            }
        }
        if occurs_in(&qs, &lc, 0, lc.len()) {
            r.push(line);
            proof {
                assert(views(r@) =~= views(old_r).push(ls[k as int]));
                assert(ls.take(k as int).push(ls[k as int]) =~= ls.take(k + 1));
            }
        }
        k = k + 1;
    }
    proof {
        assert(ls.take(bounds.len() as int) =~= ls);
        if contents@.len() == 0 {
            lemma_no_lines_in_empty();
            assert(cs@ =~= Seq::<char>::empty());
        }
    }
    r
}

/// Selecting lines by containment keeps exactly the lines that contain the
/// query: each kept line contains it, each line that contains it is kept,
/// and nothing else is kept.
pub proof fn lemma_select_exact(ls: Seq<Seq<char>>, q: Seq<char>)
    ensures
        forall|k: int|
            0 <= k < select_containing(ls, q).len() ==> is_substring(
                q,
                #[trigger] select_containing(ls, q)[k],
            ),
        forall|j: int|
            0 <= j < ls.len() && is_substring(q, #[trigger] ls[j]) ==> select_containing(
                ls,
                q,
            ).contains(ls[j]),
        forall|l: Seq<char>| #[trigger] select_containing(ls, q).contains(l) ==> ls.contains(l),
    decreases ls.len(),
{
    if ls.len() > 0 {
        let init = ls.drop_last();
        lemma_select_exact(init, q);
        let rest = select_containing(init, q);
        let sel = select_containing(ls, q);
        assert forall|j: int| 0 <= j < ls.len() && is_substring(q, #[trigger] ls[j]) implies sel.contains(
            ls[j],
        ) by {
            if j < ls.len() - 1 {
                assert(init[j] == ls[j]);
                let t = choose|t: int| 0 <= t < rest.len() && rest[t] == init[j];
                assert(sel[t] == rest[t]);
            } else {
                assert(sel[sel.len() - 1] == ls.last());
            }
        }
        assert forall|l: Seq<char>| #[trigger] sel.contains(l) implies ls.contains(l) by {
            let t = choose|t: int| 0 <= t < sel.len() && sel[t] == l;
            if t < rest.len() {
                assert(rest.contains(l));
                let u = choose|u: int| 0 <= u < init.len() && init[u] == l;
                assert(ls[u] == l);
            } else {
                assert(ls[ls.len() - 1] == l);
            }
        }
        assert forall|k: int| 0 <= k < sel.len() implies is_substring(q, #[trigger] sel[k]) by {
            if k < rest.len() {
                assert(sel[k] == rest[k]);
            }
        }
    }
}

/// Every line that the case-sensitive search returns contains the query, and
/// every line of the content that contains the query is returned.
pub proof fn law_search_exact(query: Seq<char>, contents: Seq<char>)
    ensures
        forall|k: int|
            0 <= k < select_containing(lines(contents), query).len() ==> is_substring(
                query,
                #[trigger] select_containing(lines(contents), query)[k],
            ),
        forall|j: int|
            0 <= j < lines(contents).len() && !select_containing(lines(contents), query).contains(
                #[trigger] lines(contents)[j],
            ) ==> !is_substring(query, lines(contents)[j]),
        forall|l: Seq<char>|
            #[trigger] select_containing(lines(contents), query).contains(l) ==> lines(
                contents,
            ).contains(l),
{
    lemma_select_exact(lines(contents), query);
}

/// Both searches depend on the query and the content alone: the same inputs
/// give the same lines in the same order, however often they are run.
pub proof fn law_search_repeatable(q1: Seq<char>, c1: Seq<char>, q2: Seq<char>, c2: Seq<char>)
    requires
        q1 == q2,
        c1 == c2,
    ensures
        select_containing(lines(c1), q1) == select_containing(lines(c2), q2),
        select_folded(lines(c1), lower_of(q1)) == select_folded(lines(c2), lower_of(q2)),
{
}

} // verus!
