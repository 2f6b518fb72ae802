use vstd::prelude::*;

verus! {

/// The pieces of `s` between line feeds, in order. There is always one more
/// piece than there are line feeds; the last one is what follows the final
/// line feed (empty when `s` ends with one).
pub open spec fn pieces(s: Seq<char>) -> Seq<Seq<char>>
    decreases s.len(),
{
    if s.len() == 0 {
        seq![Seq::empty()]
    } else {
        let p = pieces(s.drop_last());
        if s.last() == '\n' {
            p.push(Seq::empty())
        } else {
            p.update(p.len() - 1, p.last().push(s.last()))
        }
    }
}

/// A line terminated by "\r\n" loses its carriage return.
pub open spec fn strip_cr(l: Seq<char>) -> Seq<char> {
    if l.len() > 0 && l.last() == '\r' {
        l.drop_last()
    } else {
        l
    }
}

/// The lines of `s`: every piece that a line feed ends, without its
/// terminator, then the trailing piece if it is not empty (a last line needs
/// no terminator, and its carriage return, if any, is kept).
pub open spec fn lines(s: Seq<char>) -> Seq<Seq<char>> {
    let p = pieces(s);
    let ended = p.drop_last().map_values(|l: Seq<char>| strip_cr(l));
    if p.last().len() > 0 {
        ended.push(p.last())
    } else {
        ended
    }
}

/// The characters of `s` that a list of bounds selects, one run per pair.
pub open spec fn spans(s: Seq<char>, b: Seq<(usize, usize)>) -> Seq<Seq<char>> {
    b.map_values(|p: (usize, usize)| s.subrange(p.0 as int, p.1 as int))
}

/// There is always at least one piece, possibly empty.
pub proof fn lemma_pieces_nonempty(s: Seq<char>)
    ensures
        pieces(s).len() >= 1,
    decreases s.len(),
{
    if s.len() > 0 {
        lemma_pieces_nonempty(s.drop_last());
    }
}

/// Where each line of `cs` starts and ends, as character positions.
pub fn line_bounds(cs: &Vec<char>) -> (r: Vec<(usize, usize)>)
    ensures
        forall|k: int| 0 <= k < r.len() ==> #[trigger] r@[k].0 <= r@[k].1 <= cs.len(),
        spans(cs@, r@) == lines(cs@),
{
    let n = cs.len();
    let mut r: Vec<(usize, usize)> = Vec::new();
    let mut start: usize = 0;
    let mut i: usize = 0;
    proof {
        assert(cs@.take(0) =~= Seq::<char>::empty());
    }
    while i < n
        invariant
            n == cs.len(),
            start <= i <= n,
            forall|k: int| 0 <= k < r.len() ==> #[trigger] r@[k].0 <= r@[k].1 <= cs.len(),
            pieces(cs@.take(i as int)).len() >= 1,
            pieces(cs@.take(i as int)).last() == cs@.subrange(start as int, i as int),
            spans(cs@, r@) == pieces(cs@.take(i as int)).drop_last().map_values(
                |l: Seq<char>| strip_cr(l),
            ),
        decreases n - i,
    {
        let ghost before = cs@.take(i as int);
        let ghost after = cs@.take(i + 1);
        proof {
            assert(after.drop_last() =~= before);
            lemma_pieces_nonempty(before);
        }
        if cs[i] == '\n' {
            let end: usize = if i > start && cs[i - 1] == '\r' { i - 1 } else { i };
            proof {
                assert(cs@.subrange(start as int, end as int) =~= strip_cr(
                    cs@.subrange(start as int, i as int),
                ));
                assert(pieces(after).drop_last() =~= pieces(before));
                assert(pieces(before) =~= pieces(before).drop_last().push(
                    pieces(before).last(),
                ));
            }
            let ghost old_r = r@;
            r.push((start, end));
            start = i + 1;
            proof {
                assert(spans(cs@, r@) =~= spans(cs@, old_r).push(
                    cs@.subrange(r@.last().0 as int, r@.last().1 as int),
                ));
                assert(pieces(before).drop_last().push(pieces(before).last()).map_values(
                    |l: Seq<char>| strip_cr(l),
                ) =~= pieces(before).drop_last().map_values(|l: Seq<char>| strip_cr(l)).push(
                    strip_cr(pieces(before).last()),
                ));
                assert(spans(cs@, r@) =~= pieces(after).drop_last().map_values(
                    |l: Seq<char>| strip_cr(l),
                ));
                assert(cs@.subrange(start as int, start as int) =~= Seq::<char>::empty());
            }
        } else {
            proof {
                assert(pieces(after).drop_last() =~= pieces(before).drop_last());
                assert(cs@.subrange(start as int, i + 1) =~= cs@.subrange(
                    start as int,
                    i as int,
                ).push(cs@[i as int]));
            }
        }
        i = i + 1;
    }
    proof {
        assert(cs@.take(n as int) =~= cs@);
    }
    if start < n {
        r.push((start, n));
        proof {
            assert(spans(cs@, r@) =~= lines(cs@));
        }
    }
    r
}

} // verus!
