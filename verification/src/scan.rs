//! The match scanners: single-pass walks of a haystack over a built
//! representation, proved to produce exactly the match sequences that the
//! brute-force definitions in [`crate::matching`] prescribe.

use crate::matching::{
    leftmost_matches, lemma_lm_search_bounds, lemma_lsuf_push, lemma_suffix_ids_lsuf,
    lemma_suffix_ids_props, lm_fold, lm_from, lm_search, lsuf, matches_ending_at,
    matches_in_window, opt_view, ov_from, overlapping_matches, std_from, standard_matches,
    suffix_ids, triple_view, triples_view, MatchKind,
};
use crate::repr::Repr;
use crate::trie::{ids_view, lemma_pats_in_dom};
use vstd::prelude::*;

verus! {

/// The pattern-length table matches the patterns scanned for.
pub open spec fn lens_ok(pat_lens: Seq<usize>, pats: Seq<Seq<u8>>) -> bool {
    &&& pat_lens.len() == pats.len()
    &&& forall|p: int| 0 <= p < pats.len() ==> pat_lens[p] == #[trigger] pats[p].len()
}

/// Append one match triple per collected pattern id, all ending at offset
/// `e`; the ids are those of the patterns that are suffixes of the scanned
/// window `w`.
fn emit(
    ids: &Vec<usize>,
    pat_lens: &Vec<usize>,
    e: usize,
    out: &mut Vec<(usize, usize, usize)>,
    Ghost(pats): Ghost<Seq<Seq<u8>>>,
    Ghost(w): Ghost<Seq<u8>>,
)
    requires
        lens_ok(pat_lens@, pats),
        ids_view(ids@) == suffix_ids(pats, w),
        w.len() <= e,
    ensures
        final(out)@.len() == old(out)@.len() + ids@.len(),
        forall|j: int| 0 <= j < old(out)@.len() ==> final(out)@[j] == old(out)@[j],
        forall|j: int|
            0 <= j < ids@.len() ==> #[trigger] final(out)@[old(out)@.len() + j] == (
                ids@[j],
                (e - pats[ids@[j] as int].len()) as usize,
                e,
            ),
{
    proof {
        lemma_suffix_ids_props(pats, w);
    }
    let mut j: usize = 0;
    while j < ids.len()
        invariant
            j <= ids@.len(),
            lens_ok(pat_lens@, pats),
            ids_view(ids@) == suffix_ids(pats, w),
            w.len() <= e,
            forall|t: int|
                0 <= t < ids@.len() ==> 0 <= #[trigger] suffix_ids(pats, w)[t] < pats.len()
                    && pats[suffix_ids(pats, w)[t]].is_suffix_of(w),
            out@.len() == old(out)@.len() + j,
            forall|t: int| 0 <= t < old(out)@.len() ==> out@[t] == old(out)@[t],
            forall|t: int|
                0 <= t < j ==> #[trigger] out@[old(out)@.len() + t] == (
                    ids@[t],
                    (e - pats[ids@[t] as int].len()) as usize,
                    e,
                ),
        decreases ids@.len() - j,
    {
        let pid = ids[j];
        proof {
            assert(ids_view(ids@)[j as int] == suffix_ids(pats, w)[j as int]);
            assert(pats[pid as int].len() <= w.len());
        }
        let len = pat_lens[pid];
        out.push((pid, e - len, e));
        j = j + 1;
    }
}

/// Scan `hay` for every pattern occurrence, overlaps included: the matches
/// ending at each offset, longest first, in ascending end order.
pub fn scan_overlapping(repr: &Repr, pat_lens: &Vec<usize>, hay: &[u8]) -> (r: Vec<
    (usize, usize, usize),
>)
    requires
        repr.wf(),
        lens_ok(pat_lens@, repr.src().pats@),
    ensures
        triples_view(r@) == overlapping_matches(repr.src().pats@, hay@),
{
    let ghost m = repr.src();
    let ghost pats = m.pats@;
    let mut out: Vec<(usize, usize, usize)> = Vec::new();
    let mut st: usize = 0;
    let mut i: usize = 0;
    proof {
        assert(hay@.take(0) =~= Seq::<u8>::empty());
        assert(lsuf(m.dom(), Seq::<u8>::empty()) == Seq::<u8>::empty());
    }
    while i < hay.len()
        invariant
            i <= hay@.len(),
            repr.wf(),
            m == repr.src(),
            pats == m.pats@,
            lens_ok(pat_lens@, pats),
            st < m.n(),
            m.strs@[st as int] == lsuf(m.dom(), hay@.take(i as int)),
            triples_view(out@) + ov_from(pats, hay@, i as int) == ov_from(pats, hay@, 0),
        decreases hay@.len() - i,
    {
        let ghost w2 = hay@.take(i as int + 1);
        let b = hay[i];
        let st2 = repr.next(st, b);
        proof {
            lemma_lsuf_push(m.dom(), hay@.take(i as int), b);
            assert(hay@.take(i as int).push(b) =~= w2);
            assert(m.strs@[st2 as int] == lsuf(m.dom(), w2));
        }
        let mut ids: Vec<usize> = Vec::new();
        repr.push_ids(st2, &mut ids);
        proof {
            lemma_pats_in_dom(m);
            lemma_suffix_ids_lsuf(pats, m.dom(), w2);
            assert(ids_view(ids@) =~= suffix_ids(pats, w2));
        }
        let ghost out0 = out@;
        emit(&ids, pat_lens, i + 1, &mut out, Ghost(pats), Ghost(w2));
        proof {
            let e = i as int + 1;
            let me_ = matches_ending_at(pats, hay@, e);
            let sids = suffix_ids(pats, w2);
            lemma_suffix_ids_props(pats, w2);
            assert(hay@.take(e) == w2);
            assert(me_.len() == sids.len());
            assert(out@.len() == out0.len() + ids@.len());
            assert forall|t: int| 0 <= t < ids@.len() implies triples_view(out@)[out0.len() + t]
                == me_[t] by {
                assert(out@[out0.len() + t] == (
                    ids@[t],
                    ((e - pats[ids@[t] as int].len()) as usize),
                    (i + 1) as usize,
                ));
                assert(ids_view(ids@)[t] == sids[t]);
                assert(me_[t] == (sids[t], e - pats[sids[t]].len(), e));
            }
            assert forall|t: int| 0 <= t < out0.len() implies triples_view(out@)[t]
                == triples_view(out0)[t] by {
                assert(out@[t] == out0[t]);
            }
            assert(triples_view(out@) =~= triples_view(out0) + me_);
            assert(triples_view(out@) + ov_from(pats, hay@, i as int + 1) =~= ov_from(
                pats,
                hay@,
                0,
            ));
        }
        st = st2;
        i = i + 1;
    }
    proof {
        assert(triples_view(out@) =~= ov_from(pats, hay@, 0));
    }
    out
}

/// Standard non-overlapping scan: report the earliest-ending match (longest
/// pattern first at that end, ids breaking ties), then restart the automaton
/// just past it.
pub fn scan_standard(repr: &Repr, pat_lens: &Vec<usize>, hay: &[u8]) -> (r: Vec<
    (usize, usize, usize),
>)
    requires
        repr.wf(),
        lens_ok(pat_lens@, repr.src().pats@),
    ensures
        triples_view(r@) == standard_matches(repr.src().pats@, hay@),
{
    let ghost m = repr.src();
    let ghost pats = m.pats@;
    let mut out: Vec<(usize, usize, usize)> = Vec::new();
    let mut st: usize = 0;
    let mut p: usize = 0;
    let mut i: usize = 0;
    proof {
        assert(hay@.subrange(0, 0) =~= Seq::<u8>::empty());
        assert(lsuf(m.dom(), Seq::<u8>::empty()) == Seq::<u8>::empty());
    }
    while i < hay.len()
        invariant
            p <= i <= hay@.len(),
            repr.wf(),
            m == repr.src(),
            pats == m.pats@,
            lens_ok(pat_lens@, pats),
            st < m.n(),
            m.strs@[st as int] == lsuf(m.dom(), hay@.subrange(p as int, i as int)),
            triples_view(out@) + std_from(pats, hay@, p as int, i as int + 1) == std_from(
                pats,
                hay@,
                0,
                1,
            ),
        decreases hay@.len() - i,
    {
        let ghost w2 = hay@.subrange(p as int, i as int + 1);
        let b = hay[i];
        let st2 = repr.next(st, b);
        proof {
            lemma_lsuf_push(m.dom(), hay@.subrange(p as int, i as int), b);
            assert(hay@.subrange(p as int, i as int).push(b) =~= w2);
            assert(m.strs@[st2 as int] == lsuf(m.dom(), w2));
        }
        let mut ids: Vec<usize> = Vec::new();
        repr.push_ids(st2, &mut ids);
        proof {
            lemma_pats_in_dom(m);
            lemma_suffix_ids_lsuf(pats, m.dom(), w2);
            assert(ids_view(ids@) =~= suffix_ids(pats, w2));
        }
        if ids.len() == 0 {
            proof {
                assert(suffix_ids(pats, w2).len() == 0);
                assert(std_from(pats, hay@, p as int, i as int + 1) == std_from(
                    pats,
                    hay@,
                    p as int,
                    i as int + 2,
                ));
            }
            st = st2;
            i = i + 1;
        } else {
            let pid = ids[0];
            proof {
                lemma_suffix_ids_props(pats, w2);
                assert(ids_view(ids@)[0] == suffix_ids(pats, w2)[0]);
                assert(pats[pid as int].len() <= w2.len());
            }
            let len = pat_lens[pid];
            let ghost out0 = out@;
            out.push((pid, i + 1 - len, i + 1));
            proof {
                let e = i as int + 1;
                let sids = suffix_ids(pats, w2);
                assert(std_from(pats, hay@, p as int, e) == seq![
                    (sids[0], e - pats[sids[0]].len(), e),
                ] + std_from(pats, hay@, e, e + 1));
                assert(triples_view(out@) =~= triples_view(out0) + seq![
                    (sids[0], e - pats[sids[0]].len(), e),
                ]);
                assert(triples_view(out@) + std_from(pats, hay@, e, e + 1) =~= std_from(
                    pats,
                    hay@,
                    0,
                    1,
                ));
                assert(hay@.subrange(e, e) =~= Seq::<u8>::empty());
            }
            st = 0;
            p = i + 1;
            i = i + 1;
        }
    }
    proof {
        assert(triples_view(out@) =~= std_from(pats, hay@, 0, 1));
    }
    out
}

/// Does candidate `c` beat the current best `b` under a leftmost kind?
fn lm_better_ex(kind: MatchKind, c: (usize, usize, usize), b: (usize, usize, usize)) -> (r: bool)
    ensures
        r == crate::matching::lm_better(kind, triple_view(c), triple_view(b)),
{
    c.1 < b.1 || (c.1 == b.1 && match kind {
        MatchKind::LeftmostFirst => c.0 < b.0,
        MatchKind::LeftmostLongest => c.2 > b.2 || (c.2 == b.2 && c.0 < b.0),
        MatchKind::Standard => false,
    })
}

/// The best leftmost match whose range lies within `hay[p..]`, or `None`.
fn next_lm(repr: &Repr, pat_lens: &Vec<usize>, hay: &[u8], kind: MatchKind, p: usize) -> (r:
    Option<(usize, usize, usize)>)
    requires
        repr.wf(),
        lens_ok(pat_lens@, repr.src().pats@),
        p <= hay@.len(),
    ensures
        opt_view(r) == lm_search(
            repr.src().pats@,
            hay@,
            kind,
            p as int,
            p as int + 1,
            None::<(int, int, int)>,
        ),
{
    let ghost m = repr.src();
    let ghost pats = m.pats@;
    let mut best: Option<(usize, usize, usize)> = None;
    let mut st: usize = 0;
    let mut i: usize = p;
    proof {
        assert(hay@.subrange(p as int, p as int) =~= Seq::<u8>::empty());
        assert(lsuf(m.dom(), Seq::<u8>::empty()) == Seq::<u8>::empty());
    }
    while i < hay.len()
        invariant
            p <= i <= hay@.len(),
            repr.wf(),
            m == repr.src(),
            pats == m.pats@,
            lens_ok(pat_lens@, pats),
            st < m.n(),
            m.strs@[st as int] == lsuf(m.dom(), hay@.subrange(p as int, i as int)),
            lm_search(pats, hay@, kind, p as int, i as int + 1, opt_view(best)) == lm_search(
                pats,
                hay@,
                kind,
                p as int,
                p as int + 1,
                None::<(int, int, int)>,
            ),
        decreases hay@.len() - i,
    {
        let ghost w2 = hay@.subrange(p as int, i as int + 1);
        let b = hay[i];
        let st2 = repr.next(st, b);
        proof {
            lemma_lsuf_push(m.dom(), hay@.subrange(p as int, i as int), b);
            assert(hay@.subrange(p as int, i as int).push(b) =~= w2);
            assert(m.strs@[st2 as int] == lsuf(m.dom(), w2));
        }
        let mut ids: Vec<usize> = Vec::new();
        repr.push_ids(st2, &mut ids);
        proof {
            lemma_pats_in_dom(m);
            lemma_suffix_ids_lsuf(pats, m.dom(), w2);
            assert(ids_view(ids@) =~= suffix_ids(pats, w2));
            lemma_suffix_ids_props(pats, w2);
        }
        let e_ex: usize = i + 1;
        let ghost e = i as int + 1;
        let ghost cands = matches_in_window(pats, hay@, p as int, e);
        let ghost best0 = opt_view(best);
        proof {
            assert(cands.len() == ids@.len());
            assert(cands.skip(0) =~= cands);
        }
        let mut j: usize = 0;
        while j < ids.len()
            invariant
                j <= ids@.len(),
                p <= i < hay@.len(),
                e == i as int + 1,
                e_ex as int == e,
                pats == m.pats@,
                lens_ok(pat_lens@, pats),
                w2 == hay@.subrange(p as int, e),
                ids_view(ids@) == suffix_ids(pats, w2),
                forall|t: int|
                    0 <= t < suffix_ids(pats, w2).len() ==> 0 <= #[trigger] suffix_ids(
                        pats,
                        w2,
                    )[t] < pats.len() && pats[suffix_ids(pats, w2)[t]].is_suffix_of(w2),
                cands == matches_in_window(pats, hay@, p as int, e),
                cands.len() == ids@.len(),
                lm_fold(kind, opt_view(best), cands.skip(j as int)) == lm_fold(kind, best0, cands),
            decreases ids@.len() - j,
        {
            let pid = ids[j];
            proof {
                assert(ids_view(ids@)[j as int] == suffix_ids(pats, w2)[j as int]);
                assert(pats[pid as int].len() <= w2.len());
                assert(w2.len() <= e);
            }
            let plen = pat_lens[pid];
            proof {
                assert(plen == pats[pid as int].len());
                assert(w2.len() == e - p);
                assert(plen as int <= e_ex as int);
            }
            let cand = (pid, e_ex - plen, e_ex);
            proof {
                assert(cands[j as int] == (
                    suffix_ids(pats, w2)[j as int],
                    e - pats[suffix_ids(pats, w2)[j as int]].len(),
                    e,
                ));
                assert(triple_view(cand) == cands[j as int]);
                assert(cands.skip(j as int)[0] == cands[j as int]);
                assert(cands.skip(j as int).drop_first() =~= cands.skip(j as int + 1));
            }
            let take_it = match best {
                None => true,
                Some(bst) => lm_better_ex(kind, cand, bst),
            };
            if take_it {
                best = Some(cand);
            }
            j = j + 1;
        }
        proof {
            assert(cands.skip(ids@.len() as int) =~= Seq::<(int, int, int)>::empty());
            assert(lm_fold(kind, opt_view(best), Seq::<(int, int, int)>::empty()) == opt_view(
                best,
            ));
            assert(lm_search(pats, hay@, kind, p as int, e, best0) == lm_search(
                pats,
                hay@,
                kind,
                p as int,
                e + 1,
                lm_fold(kind, best0, cands),
            ));
        }
        st = st2;
        i = i + 1;
    }
    best
}

/// Leftmost scan: repeatedly report the best match at or after the current
/// position per the kind's tie-breaking, resuming past its end.
pub fn scan_leftmost(repr: &Repr, pat_lens: &Vec<usize>, hay: &[u8], kind: MatchKind) -> (r: Vec<
    (usize, usize, usize),
>)
    requires
        repr.wf(),
        lens_ok(pat_lens@, repr.src().pats@),
    ensures
        triples_view(r@) == leftmost_matches(repr.src().pats@, hay@, kind),
{
    let ghost m = repr.src();
    let ghost pats = m.pats@;
    let mut out: Vec<(usize, usize, usize)> = Vec::new();
    let mut p: usize = 0;
    while p < hay.len()
        invariant
            p <= hay@.len(),
            repr.wf(),
            m == repr.src(),
            pats == m.pats@,
            lens_ok(pat_lens@, pats),
            triples_view(out@) + lm_from(pats, hay@, kind, p as int) == lm_from(
                pats,
                hay@,
                kind,
                0,
            ),
        decreases hay@.len() - p,
    {
        let r = next_lm(repr, pat_lens, hay, kind, p);
        match r {
            None => {
                proof {
                    assert(lm_from(pats, hay@, kind, p as int) =~= Seq::<(int, int, int)>::empty());
                    assert(triples_view(out@) =~= lm_from(pats, hay@, kind, 0));
                }
                return out;
            },
            Some(mt) => {
                let ghost out0 = out@;
                proof {
                    lemma_lm_search_bounds(
                        pats,
                        hay@,
                        kind,
                        p as int,
                        p as int + 1,
                        None::<(int, int, int)>,
                    );
                }
                out.push(mt);
                proof {
                    assert(lm_from(pats, hay@, kind, p as int) == seq![triple_view(mt)] + lm_from(
                        pats,
                        hay@,
                        kind,
                        mt.2 as int,
                    ));
                    assert(triples_view(out@) =~= triples_view(out0) + seq![triple_view(mt)]);
                    assert(triples_view(out@) + lm_from(pats, hay@, kind, mt.2 as int) =~= lm_from(
                        pats,
                        hay@,
                        kind,
                        0,
                    ));
                }
                p = mt.2;
            },
        }
    }
    proof {
        assert(lm_from(pats, hay@, kind, p as int) =~= Seq::<(int, int, int)>::empty());
        assert(triples_view(out@) =~= lm_from(pats, hay@, kind, 0));
    }
    out
}

} // verus!
