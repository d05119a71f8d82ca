//! The mathematical semantics of multi-pattern matching.
//!
//! Everything here is specification: what it means for a pattern to occur in
//! a haystack, and which sequence of matches each scan mode must produce.
//! The definitions are brute-force (they quantify over substrings directly)
//! and never mention the automaton; the executable code elsewhere in the
//! crate is proved to compute exactly these sequences.

use vstd::prelude::*;

verus! {

/// Which of several candidate matches wins when patterns overlap.
#[derive(Clone, Copy, Debug, PartialEq, Eq, Structural)]
pub enum MatchKind {
    /// Report every match as soon as its end position is reached.
    Standard,
    /// Among matches at the leftmost start, the earliest-registered wins.
    LeftmostFirst,
    /// Among matches at the leftmost start, the longest wins.
    LeftmostLongest,
}

/// A match in specification form: pattern id, start offset, exclusive end.
pub type SpecMatch = (int, int, int);

/// The view of an executable match triple.
pub open spec fn triple_view(t: (usize, usize, usize)) -> SpecMatch {
    (t.0 as int, t.1 as int, t.2 as int)
}

/// The view of a vector of executable match triples.
pub open spec fn triples_view(s: Seq<(usize, usize, usize)>) -> Seq<SpecMatch> {
    s.map_values(|t: (usize, usize, usize)| triple_view(t))
}

/// Pattern `pid` occurs in `hay` over the byte range `[start, end)`.
pub open spec fn occurs_at(pats: Seq<Seq<u8>>, hay: Seq<u8>, m: SpecMatch) -> bool {
    &&& 0 <= m.0 < pats.len()
    &&& 0 <= m.1 <= m.2 <= hay.len()
    &&& m.2 - m.1 == pats[m.0].len()
    &&& hay.subrange(m.1, m.2) == pats[m.0]
}

/// Ids below `q` of the patterns exactly equal to `s`, in ascending order.
pub open spec fn ids_upto(pats: Seq<Seq<u8>>, s: Seq<u8>, q: int) -> Seq<int>
    decreases q,
{
    if q <= 0 {
        Seq::empty()
    } else {
        ids_upto(pats, s, q - 1) + if pats[q - 1] == s {
            seq![q - 1]
        } else {
            Seq::empty()
        }
    }
}

/// Ids of the patterns exactly equal to `s`, in ascending order.
pub open spec fn ids_at(pats: Seq<Seq<u8>>, s: Seq<u8>) -> Seq<int> {
    ids_upto(pats, s, pats.len() as int)
}

/// Ids of the patterns that are suffixes of `s`: longest first, and in
/// ascending id order among patterns of equal length.
pub open spec fn suffix_ids(pats: Seq<Seq<u8>>, s: Seq<u8>) -> Seq<int>
    decreases s.len(),
{
    if s.len() == 0 {
        ids_at(pats, s)
    } else {
        ids_at(pats, s) + suffix_ids(pats, s.drop_first())
    }
}

/// The matches that end exactly at offset `e` of `hay`, in emission order.
pub open spec fn matches_ending_at(pats: Seq<Seq<u8>>, hay: Seq<u8>, e: int) -> Seq<SpecMatch> {
    suffix_ids(pats, hay.take(e)).map_values(|p: int| (p, e - pats[p].len(), e))
}

/// Overlapping scan from end offset `e` on: every pattern occurrence is
/// reported, grouped by ascending end offset.
pub open spec fn ov_from(pats: Seq<Seq<u8>>, hay: Seq<u8>, e: int) -> Seq<SpecMatch>
    decreases hay.len() - e,
{
    if e >= hay.len() {
        Seq::empty()
    } else {
        matches_ending_at(pats, hay, e + 1) + ov_from(pats, hay, e + 1)
    }
}

/// The full overlapping match sequence (standard kind only).
pub open spec fn overlapping_matches(pats: Seq<Seq<u8>>, hay: Seq<u8>) -> Seq<SpecMatch> {
    ov_from(pats, hay, 0)
}

/// Standard non-overlapping scan: starting the search at offset `p`, find the
/// earliest-ending match within `hay[p..]`, report the longest pattern at
/// that end (ties to the smallest id), and resume the search at its end.
/// `e` is the candidate end offset currently under examination.
pub open spec fn std_from(pats: Seq<Seq<u8>>, hay: Seq<u8>, p: int, e: int) -> Seq<SpecMatch>
    decreases hay.len() + 1 - e,
{
    if e > hay.len() || e <= p {
        Seq::empty()
    } else {
        let ids = suffix_ids(pats, hay.subrange(p, e));
        if ids.len() == 0 {
            std_from(pats, hay, p, e + 1)
        } else {
            seq![(ids[0], e - pats[ids[0]].len(), e)] + std_from(pats, hay, e, e + 1)
        }
    }
}

/// The full standard non-overlapping match sequence.
pub open spec fn standard_matches(pats: Seq<Seq<u8>>, hay: Seq<u8>) -> Seq<SpecMatch> {
    std_from(pats, hay, 0, 1)
}

/// True when `cand` beats `cur` under a leftmost match kind: the smaller
/// start wins; at equal starts, leftmost-first prefers the earlier-registered
/// pattern and leftmost-longest the longer match (ids break its ties).
pub open spec fn lm_better(kind: MatchKind, cand: SpecMatch, cur: SpecMatch) -> bool {
    ||| cand.1 < cur.1
    ||| (cand.1 == cur.1 && match kind {
        MatchKind::LeftmostFirst => cand.0 < cur.0,
        MatchKind::LeftmostLongest => cand.2 > cur.2 || (cand.2 == cur.2 && cand.0 < cur.0),
        MatchKind::Standard => false,
    })
}

/// Fold a batch of candidates into the best match seen so far.
pub open spec fn lm_fold(kind: MatchKind, cur: Option<SpecMatch>, cands: Seq<SpecMatch>) -> Option<
    SpecMatch,
>
    decreases cands.len(),
{
    if cands.len() == 0 {
        cur
    } else {
        let nxt = match cur {
            None => Some(cands[0]),
            Some(b) => if lm_better(kind, cands[0], b) {
                Some(cands[0])
            } else {
                Some(b)
            },
        };
        lm_fold(kind, nxt, cands.drop_first())
    }
}

/// The matches that lie within the window `hay[p..e]` and end exactly at
/// `e`, in emission order (longest first, then ascending id).
pub open spec fn matches_in_window(pats: Seq<Seq<u8>>, hay: Seq<u8>, p: int, e: int) -> Seq<
    SpecMatch,
> {
    suffix_ids(pats, hay.subrange(p, e)).map_values(|pid: int| (pid, e - pats[pid].len(), e))
}

/// The best leftmost match whose range lies within `hay[p..]`, examining end
/// offsets `e, e+1, ..., hay.len()` in turn.
pub open spec fn lm_search(
    pats: Seq<Seq<u8>>,
    hay: Seq<u8>,
    kind: MatchKind,
    p: int,
    e: int,
    best: Option<SpecMatch>,
) -> Option<SpecMatch>
    decreases hay.len() + 1 - e,
{
    if e > hay.len() || e <= p {
        best
    } else {
        lm_search(pats, hay, kind, p, e + 1, lm_fold(kind, best, matches_in_window(pats, hay, p, e)))
    }
}

/// Leftmost scan (first or longest kind): repeatedly report the best match
/// starting at or after `p`, resuming past its end.
pub open spec fn lm_from(pats: Seq<Seq<u8>>, hay: Seq<u8>, kind: MatchKind, p: int) -> Seq<
    SpecMatch,
>
    decreases hay.len() - p,
{
    if p >= hay.len() {
        Seq::empty()
    } else {
        match lm_search(pats, hay, kind, p, p + 1, None) {
            None => Seq::empty(),
            Some(m) => if p < m.2 <= hay.len() {
                seq![m] + lm_from(pats, hay, kind, m.2)
            } else {
                seq![m]
            },
        }
    }
}

/// The full leftmost match sequence for the given kind.
pub open spec fn leftmost_matches(pats: Seq<Seq<u8>>, hay: Seq<u8>, kind: MatchKind) -> Seq<
    SpecMatch,
> {
    lm_from(pats, hay, kind, 0)
}

/// The match sequence that a non-overlapping scan must produce for `kind`.
pub open spec fn kind_matches(pats: Seq<Seq<u8>>, hay: Seq<u8>, kind: MatchKind) -> Seq<SpecMatch> {
    match kind {
        MatchKind::Standard => standard_matches(pats, hay),
        MatchKind::LeftmostFirst => leftmost_matches(pats, hay, kind),
        MatchKind::LeftmostLongest => leftmost_matches(pats, hay, kind),
    }
}

/// Every prefix of every pattern, the empty string included: the strings the
/// trie will hold one node for.
pub open spec fn prefix_set(pats: Seq<Seq<u8>>) -> Set<Seq<u8>> {
    Set::new(
        |s: Seq<u8>|
            s.len() == 0 || exists|p: int, k: int|
                0 <= p < pats.len() && 0 < k <= pats[p].len() && s == #[trigger] pats[p].take(k),
    )
}

/// The longest suffix of `s` (including `s` itself) that lies in `dom`; the
/// empty sequence when none does.
pub open spec fn lsuf(dom: Set<Seq<u8>>, s: Seq<u8>) -> Seq<u8>
    decreases s.len(),
{
    if dom.contains(s) || s.len() == 0 {
        s
    } else {
        lsuf(dom, s.drop_first())
    }
}

/// `dom` is closed under dropping the last element, and holds the empty
/// string: the shape of any set of trie-node strings.
pub open spec fn suffix_closed_dom(dom: Set<Seq<u8>>) -> bool {
    &&& dom.contains(Seq::<u8>::empty())
    &&& forall|u: Seq<u8>| dom.contains(u) && u.len() > 0 ==> dom.contains(#[trigger] u.drop_last())
}

/// Every id below `q` in `ids_upto` names a pattern equal to `s`, the ids are
/// strictly ascending, and every matching id is present.
pub proof fn lemma_ids_upto_props(pats: Seq<Seq<u8>>, s: Seq<u8>, q: int)
    ensures
        forall|j: int|
            0 <= j < ids_upto(pats, s, q).len() ==> 0 <= #[trigger] ids_upto(pats, s, q)[j] < q
                && pats[ids_upto(pats, s, q)[j]] == s,
        forall|j1: int, j2: int|
            0 <= j1 < j2 < ids_upto(pats, s, q).len() ==> ids_upto(pats, s, q)[j1] < ids_upto(
                pats,
                s,
                q,
            )[j2],
        forall|p: int| 0 <= p < q && pats[p] == s ==> ids_upto(pats, s, q).contains(p),
    decreases q,
{
    if q > 0 {
        lemma_ids_upto_props(pats, s, q - 1);
        let prev = ids_upto(pats, s, q - 1);
        let cur = ids_upto(pats, s, q);
        assert forall|p: int| 0 <= p < q && pats[p] == s implies cur.contains(p) by {
            if p < q - 1 {
                let j = choose|j: int| 0 <= j < prev.len() && prev[j] == p;
                assert(cur[j] == p);
            } else {
                assert(cur[cur.len() - 1] == p);
            }
        }
    }
}

/// A suffix of a suffix is a suffix.
pub proof fn lemma_suffix_trans(a: Seq<u8>, b: Seq<u8>, c: Seq<u8>)
    requires
        a.is_suffix_of(b),
        b.is_suffix_of(c),
    ensures
        a.is_suffix_of(c),
{
    assert(a =~= c.subrange(c.len() - a.len(), c.len() as int));
}

/// A proper suffix of `s` is a suffix of `s.drop_first()`.
pub proof fn lemma_proper_suffix(a: Seq<u8>, s: Seq<u8>)
    requires
        a.is_suffix_of(s),
        a.len() < s.len(),
    ensures
        a.is_suffix_of(s.drop_first()),
{
    assert(a =~= s.drop_first().subrange(s.drop_first().len() - a.len(), s.drop_first().len() as int));
}

/// `lsuf` returns a suffix of `s` that lies in `dom`, and no longer suffix of
/// `s` does.
pub proof fn lemma_lsuf_props(dom: Set<Seq<u8>>, s: Seq<u8>)
    requires
        dom.contains(Seq::<u8>::empty()),
    ensures
        lsuf(dom, s).is_suffix_of(s),
        dom.contains(lsuf(dom, s)),
        forall|t: Seq<u8>|
            dom.contains(t) && #[trigger] t.is_suffix_of(s) ==> t.len() <= lsuf(dom, s).len(),
    decreases s.len(),
{
    if dom.contains(s) {
        assert(s.is_suffix_of(s)) by {
            assert(s =~= s.subrange(0, s.len() as int));
        }
    } else if s.len() == 0 {
        assert(s =~= Seq::<u8>::empty());
    } else {
        lemma_lsuf_props(dom, s.drop_first());
        lemma_suffix_trans(lsuf(dom, s.drop_first()), s.drop_first(), s);
        assert(s.drop_first().is_suffix_of(s)) by {
            assert(s.drop_first() =~= s.subrange(1, s.len() as int));
        }
        assert forall|t: Seq<u8>|
            dom.contains(t) && #[trigger] t.is_suffix_of(s) implies t.len() <= lsuf(
            dom,
            s,
        ).len() by {
            if t.len() < s.len() {
                lemma_proper_suffix(t, s);
            } else {
                assert(t =~= s);
            }
        }
    }
}

/// Extending the text by one byte: the longest `dom`-suffix of `t + [b]` can
/// be computed from the longest `dom`-suffix of `t` alone.
pub proof fn lemma_lsuf_push(dom: Set<Seq<u8>>, t: Seq<u8>, b: u8)
    requires
        suffix_closed_dom(dom),
    ensures
        lsuf(dom, t.push(b)) == lsuf(dom, lsuf(dom, t).push(b)),
    decreases t.len(),
{
    if dom.contains(t) || t.len() == 0 {
        // lsuf(dom, t) == t
    } else {
        if dom.contains(t.push(b)) {
            assert(t.push(b).drop_last() =~= t);
            assert(false);
        }
        assert(t.push(b).drop_first() =~= t.drop_first().push(b));
        lemma_lsuf_push(dom, t.drop_first(), b);
    }
}

/// Every id in `suffix_ids` names a pattern that is a suffix of `s`, and
/// every pattern that is a suffix of `s` appears.
pub proof fn lemma_suffix_ids_props(pats: Seq<Seq<u8>>, s: Seq<u8>)
    ensures
        forall|j: int|
            0 <= j < suffix_ids(pats, s).len() ==> 0 <= #[trigger] suffix_ids(pats, s)[j]
                < pats.len() && pats[suffix_ids(pats, s)[j]].is_suffix_of(s),
        forall|p: int|
            0 <= p < pats.len() && #[trigger] pats[p].is_suffix_of(s) ==> suffix_ids(
                pats,
                s,
            ).contains(p),
    decreases s.len(),
{
    lemma_ids_upto_props(pats, s, pats.len() as int);
    assert forall|j: int| 0 <= j < ids_at(pats, s).len() implies pats[ids_at(pats, s)[j]].is_suffix_of(
        s,
    ) by {
        assert(pats[ids_at(pats, s)[j]] =~= s.subrange(0, s.len() as int));
    }
    if s.len() == 0 {
        assert forall|p: int|
            0 <= p < pats.len() && #[trigger] pats[p].is_suffix_of(s) implies suffix_ids(
            pats,
            s,
        ).contains(p) by {
            assert(pats[p] =~= s);
            let j = choose|j: int| 0 <= j < ids_at(pats, s).len() && ids_at(pats, s)[j] == p;
            assert(suffix_ids(pats, s)[j] == p);
        }
    }
    if s.len() > 0 {
        lemma_suffix_ids_props(pats, s.drop_first());
        assert(s.drop_first().is_suffix_of(s)) by {
            assert(s.drop_first() =~= s.subrange(1, s.len() as int));
        }
        assert forall|j: int| 0 <= j < suffix_ids(pats, s).len() implies 0 <= #[trigger] suffix_ids(
            pats,
            s,
        )[j] < pats.len() && pats[suffix_ids(pats, s)[j]].is_suffix_of(s) by {
            let own = ids_at(pats, s);
            if j >= own.len() {
                let rest = suffix_ids(pats, s.drop_first());
                assert(suffix_ids(pats, s)[j] == rest[j - own.len()]);
                lemma_suffix_trans(pats[rest[j - own.len()]], s.drop_first(), s);
            }
        }
        assert forall|p: int|
            0 <= p < pats.len() && #[trigger] pats[p].is_suffix_of(s) implies suffix_ids(
            pats,
            s,
        ).contains(p) by {
            if pats[p].len() == s.len() {
                assert(pats[p] =~= s);
                let j = choose|j: int| 0 <= j < ids_at(pats, s).len() && ids_at(pats, s)[j] == p;
                assert(suffix_ids(pats, s)[j] == p);
            } else {
                lemma_proper_suffix(pats[p], s);
                let rest = suffix_ids(pats, s.drop_first());
                let j = choose|j: int| 0 <= j < rest.len() && rest[j] == p;
                assert(suffix_ids(pats, s)[ids_at(pats, s).len() + j] == p);
            }
        }
    }
}

/// A pattern that is a suffix of a window of `hay` occurs in `hay` at the
/// offsets the scan reports for it.
pub proof fn lemma_window_occurs(pats: Seq<Seq<u8>>, hay: Seq<u8>, p: int, e: int, j: int)
    requires
        0 <= p <= e <= hay.len(),
        0 <= j < suffix_ids(pats, hay.subrange(p, e)).len(),
    ensures
        occurs_at(pats, hay, matches_in_window(pats, hay, p, e)[j]),
{
    let w = hay.subrange(p, e);
    lemma_suffix_ids_props(pats, w);
    let pid = suffix_ids(pats, w)[j];
    assert(pats[pid].is_suffix_of(w));
    assert(hay.subrange(e - pats[pid].len(), e) =~= pats[pid]);
}

/// Every match in the overlapping tail is a real occurrence.
pub proof fn lemma_ov_from_occurs(pats: Seq<Seq<u8>>, hay: Seq<u8>, i: int, j: int)
    requires
        0 <= i,
        0 <= j < ov_from(pats, hay, i).len(),
    ensures
        occurs_at(pats, hay, ov_from(pats, hay, i)[j]),
    decreases hay.len() - i,
{
    if i < hay.len() {
        let me_ = matches_ending_at(pats, hay, i + 1);
        assert(hay.take(i + 1) =~= hay.subrange(0, i + 1));
        if j < me_.len() {
            lemma_window_occurs(pats, hay, 0, i + 1, j);
            assert(matches_in_window(pats, hay, 0, i + 1)[j] == me_[j]);
        } else {
            lemma_ov_from_occurs(pats, hay, i + 1, j - me_.len());
        }
    }
}

/// Every occurrence appears in the overlapping tail that starts early
/// enough.
pub proof fn lemma_occurs_in_ov_from(pats: Seq<Seq<u8>>, hay: Seq<u8>, i: int, m: SpecMatch)
    requires
        occurs_at(pats, hay, m),
        0 <= i < m.2,
    ensures
        ov_from(pats, hay, i).contains(m),
    decreases hay.len() - i,
{
    if i + 1 == m.2 {
        let e = m.2;
        let w = hay.take(e);
        assert(w =~= hay.subrange(0, e));
        lemma_suffix_ids_props(pats, w);
        assert(pats[m.0].is_suffix_of(w)) by {
            assert(pats[m.0] =~= w.subrange(w.len() - pats[m.0].len(), w.len() as int));
        }
        let j = choose|j: int|
            0 <= j < suffix_ids(pats, w).len() && suffix_ids(pats, w)[j] == m.0;
        assert(matches_ending_at(pats, hay, e)[j] == m);
        assert(ov_from(pats, hay, i)[j] == m);
    } else {
        lemma_occurs_in_ov_from(pats, hay, i + 1, m);
        let rest = ov_from(pats, hay, i + 1);
        let j = choose|j: int| 0 <= j < rest.len() && rest[j] == m;
        assert(ov_from(pats, hay, i)[matches_ending_at(pats, hay, i + 1).len() + j] == m);
    }
}

/// Every match of the standard non-overlapping scan is a real occurrence
/// starting at or after the scan position.
pub proof fn lemma_std_from_occurs(pats: Seq<Seq<u8>>, hay: Seq<u8>, p: int, e: int, j: int)
    requires
        0 <= p < e,
        0 <= j < std_from(pats, hay, p, e).len(),
    ensures
        occurs_at(pats, hay, std_from(pats, hay, p, e)[j]),
        p <= std_from(pats, hay, p, e)[j].1,
        e <= std_from(pats, hay, p, e)[j].2,
    decreases hay.len() + 1 - e,
{
    if e <= hay.len() {
        let ids = suffix_ids(pats, hay.subrange(p, e));
        if ids.len() == 0 {
            lemma_std_from_occurs(pats, hay, p, e + 1, j);
        } else {
            if j == 0 {
                lemma_window_occurs(pats, hay, p, e, 0);
                assert(matches_in_window(pats, hay, p, e)[0] == std_from(pats, hay, p, e)[0]);
                lemma_suffix_ids_props(pats, hay.subrange(p, e));
            } else {
                lemma_std_from_occurs(pats, hay, e, e + 1, j - 1);
            }
        }
    }
}

/// The best match of a leftmost search is one of the window candidates, or
/// the best carried in.
pub proof fn lemma_lm_fold_occurs(
    pats: Seq<Seq<u8>>,
    hay: Seq<u8>,
    kind: MatchKind,
    cur: Option<SpecMatch>,
    cands: Seq<SpecMatch>,
)
    requires
        match cur {
            None => true,
            Some(m) => occurs_at(pats, hay, m),
        },
        forall|j: int| 0 <= j < cands.len() ==> occurs_at(pats, hay, #[trigger] cands[j]),
    ensures
        match lm_fold(kind, cur, cands) {
            None => true,
            Some(m) => occurs_at(pats, hay, m),
        },
    decreases cands.len(),
{
    if cands.len() > 0 {
        let nxt = match cur {
            None => Some(cands[0]),
            Some(b) => if lm_better(kind, cands[0], b) {
                Some(cands[0])
            } else {
                Some(b)
            },
        };
        lemma_lm_fold_occurs(pats, hay, kind, nxt, cands.drop_first());
    }
}

/// The best match a leftmost search reports is a real occurrence.
pub proof fn lemma_lm_search_occurs(
    pats: Seq<Seq<u8>>,
    hay: Seq<u8>,
    kind: MatchKind,
    p: int,
    e: int,
    best: Option<SpecMatch>,
)
    requires
        0 <= p,
        match best {
            None => true,
            Some(m) => occurs_at(pats, hay, m),
        },
    ensures
        match lm_search(pats, hay, kind, p, e, best) {
            None => true,
            Some(m) => occurs_at(pats, hay, m),
        },
    decreases hay.len() + 1 - e,
{
    if e > hay.len() || e <= p {
    } else {
        let cands = matches_in_window(pats, hay, p, e);
        assert forall|j: int| 0 <= j < cands.len() implies occurs_at(
            pats,
            hay,
            #[trigger] cands[j],
        ) by {
            lemma_window_occurs(pats, hay, p, e, j);
        }
        lemma_lm_fold_occurs(pats, hay, kind, best, cands);
        lemma_lm_search_occurs(pats, hay, kind, p, e + 1, lm_fold(kind, best, cands));
    }
}

/// Every match of a leftmost scan is a real occurrence.
pub proof fn lemma_lm_from_occurs(
    pats: Seq<Seq<u8>>,
    hay: Seq<u8>,
    kind: MatchKind,
    p: int,
    j: int,
)
    requires
        0 <= p,
        0 <= j < lm_from(pats, hay, kind, p).len(),
    ensures
        occurs_at(pats, hay, lm_from(pats, hay, kind, p)[j]),
    decreases hay.len() - p,
{
    if p < hay.len() {
        match lm_search(pats, hay, kind, p, p + 1, None) {
            None => {},
            Some(m) => {
                lemma_lm_search_occurs(pats, hay, kind, p, p + 1, None);
                if j > 0 {
                    lemma_lm_from_occurs(pats, hay, kind, m.2, j - 1);
                }
            },
        }
    }
}

/// Every match that any scan mode reports is a real occurrence.
pub proof fn lemma_matches_occur(pats: Seq<Seq<u8>>, hay: Seq<u8>, kind: MatchKind, j: int)
    requires
        0 <= j < kind_matches(pats, hay, kind).len(),
    ensures
        occurs_at(pats, hay, kind_matches(pats, hay, kind)[j]),
{
    match kind {
        MatchKind::Standard => lemma_std_from_occurs(pats, hay, 0, 1, j),
        MatchKind::LeftmostFirst => lemma_lm_from_occurs(pats, hay, kind, 0, j),
        MatchKind::LeftmostLongest => lemma_lm_from_occurs(pats, hay, kind, 0, j),
    }
}

/// The view of an executable best-match candidate.
pub open spec fn opt_view(o: Option<(usize, usize, usize)>) -> Option<SpecMatch> {
    match o {
        None => None,
        Some(t) => Some(triple_view(t)),
    }
}

/// Folding candidates that all end within bounds keeps the best in bounds.
pub proof fn lemma_lm_fold_bounds(
    kind: MatchKind,
    cur: Option<SpecMatch>,
    cands: Seq<SpecMatch>,
    p: int,
    n: int,
)
    requires
        match cur {
            None => true,
            Some(m) => p <= m.1 && p < m.2 <= n,
        },
        forall|j: int|
            0 <= j < cands.len() ==> p <= (#[trigger] cands[j]).1 && p < cands[j].2 <= n,
    ensures
        match lm_fold(kind, cur, cands) {
            None => true,
            Some(m) => p <= m.1 && p < m.2 <= n,
        },
    decreases cands.len(),
{
    if cands.len() > 0 {
        let nxt = match cur {
            None => Some(cands[0]),
            Some(b) => if lm_better(kind, cands[0], b) {
                Some(cands[0])
            } else {
                Some(b)
            },
        };
        lemma_lm_fold_bounds(kind, nxt, cands.drop_first(), p, n);
    }
}

/// A best match reported by the search starts at or after `p` and ends
/// strictly inside `(p, hay.len()]`.
pub proof fn lemma_lm_search_bounds(
    pats: Seq<Seq<u8>>,
    hay: Seq<u8>,
    kind: MatchKind,
    p: int,
    e: int,
    best: Option<SpecMatch>,
)
    requires
        0 <= p,
        match best {
            None => true,
            Some(m) => p <= m.1 && p < m.2 <= hay.len(),
        },
    ensures
        match lm_search(pats, hay, kind, p, e, best) {
            None => true,
            Some(m) => p <= m.1 && p < m.2 <= hay.len(),
        },
    decreases hay.len() + 1 - e,
{
    if e > hay.len() || e <= p {
    } else {
        let w = hay.subrange(p, e);
        let cands = matches_in_window(pats, hay, p, e);
        lemma_suffix_ids_props(pats, w);
        assert forall|j: int|
            0 <= j < cands.len() implies p <= (#[trigger] cands[j]).1 && p < cands[j].2
            <= hay.len() by {
            assert(cands[j].2 == e);
            assert(cands[j].0 == suffix_ids(pats, w)[j]);
            assert(pats[suffix_ids(pats, w)[j]].len() <= w.len());
        }
        lemma_lm_fold_bounds(kind, best, cands, p, hay.len() as int);
        lemma_lm_search_bounds(pats, hay, kind, p, e + 1, lm_fold(kind, best, cands));
    }
}

/// The prefix set of no patterns holds exactly the empty string.
pub proof fn lemma_prefix_set_empty()
    ensures
        prefix_set(Seq::<Seq<u8>>::empty()) == Set::<Seq<u8>>::empty().insert(Seq::<u8>::empty()),
{
    let l = prefix_set(Seq::<Seq<u8>>::empty());
    let r = Set::<Seq<u8>>::empty().insert(Seq::<u8>::empty());
    assert forall|s: Seq<u8>| l.contains(s) implies r.contains(s) by {
        assert(s =~= Seq::<u8>::empty());
    }
    assert forall|s: Seq<u8>| r.contains(s) implies l.contains(s) by {
        assert(s.len() == 0);
    }
    assert(l =~= r);
}

/// Appending a pattern truncated to nothing adds no prefixes.
pub proof fn lemma_prefix_set_take0(a: Seq<Seq<u8>>, x: Seq<u8>)
    ensures
        prefix_set(a.push(x.take(0))) == prefix_set(a),
{
    let l = prefix_set(a.push(x.take(0)));
    let r = prefix_set(a);
    assert forall|s: Seq<u8>| l.contains(s) && s.len() > 0 implies r.contains(s) by {
        let (p, j): (int, int) = choose|p: int, j: int|
            0 <= p < a.push(x.take(0)).len() && 0 < j <= a.push(x.take(0))[p].len() && s
                == a.push(x.take(0))[p].take(j);
        assert(p < a.len());
        assert(s == a[p].take(j));
    }
    assert forall|s: Seq<u8>| r.contains(s) && s.len() > 0 implies l.contains(s) by {
        let (p, j): (int, int) = choose|p: int, j: int|
            0 <= p < a.len() && 0 < j <= a[p].len() && s == a[p].take(j);
        assert(s == a.push(x.take(0))[p].take(j));
    }
    assert(l =~= r);
}

/// Extending the last (partially inserted) pattern by one byte adds exactly
/// that one new prefix.
pub proof fn lemma_prefix_set_snoc(a: Seq<Seq<u8>>, x: Seq<u8>, k: int)
    requires
        0 <= k < x.len(),
    ensures
        prefix_set(a.push(x.take(k + 1))) == prefix_set(a.push(x.take(k))).insert(x.take(k + 1)),
{
    let t0 = x.take(k);
    let t1 = x.take(k + 1);
    let l = prefix_set(a.push(t1));
    let r = prefix_set(a.push(t0)).insert(t1);
    assert forall|s: Seq<u8>| l.contains(s) implies r.contains(s) by {
        if s.len() == 0 {
            assert(prefix_set(a.push(t0)).contains(s));
        } else {
            let (p, j): (int, int) = choose|p: int, j: int|
                0 <= p < a.push(t1).len() && 0 < j <= a.push(t1)[p].len() && s == a.push(t1)[p].take(
                    j,
                );
            if p < a.len() {
                assert(s == a.push(t0)[p].take(j));
                assert(prefix_set(a.push(t0)).contains(s));
            } else {
                if j == k + 1 {
                    assert(s =~= t1);
                } else {
                    assert(t1.take(j) =~= x.take(j));
                    assert(t0.take(j) =~= x.take(j));
                    assert(s == a.push(t0)[a.len() as int].take(j));
                    assert(prefix_set(a.push(t0)).contains(s));
                }
            }
        }
    }
    assert forall|s: Seq<u8>| r.contains(s) implies l.contains(s) by {
        if s == t1 {
            assert(t1.take(k + 1) =~= t1);
            assert(s == a.push(t1)[a.len() as int].take(k + 1));
            assert(l.contains(s));
        } else {
            if s.len() > 0 {
                let (p, j): (int, int) = choose|p: int, j: int|
                    0 <= p < a.push(t0).len() && 0 < j <= a.push(t0)[p].len() && s == a.push(
                        t0,
                    )[p].take(j);
                if p < a.len() {
                    assert(s == a.push(t1)[p].take(j));
                    assert(l.contains(s));
                } else {
                    assert(t0.take(j) =~= x.take(j));
                    assert(t1.take(j) =~= x.take(j));
                    assert(s == a.push(t1)[a.len() as int].take(j));
                    assert(l.contains(s));
                }
            }
        }
    }
    assert(l =~= r);
}

/// Suffixes of `s` outside `dom` carry no pattern ids, so the id collection
/// may start at the longest `dom`-suffix.
pub proof fn lemma_suffix_ids_lsuf(pats: Seq<Seq<u8>>, dom: Set<Seq<u8>>, s: Seq<u8>)
    requires
        forall|p: int| 0 <= p < pats.len() ==> dom.contains(#[trigger] pats[p]),
    ensures
        suffix_ids(pats, s) == suffix_ids(pats, lsuf(dom, s)),
    decreases s.len(),
{
    if dom.contains(s) || s.len() == 0 {
        // lsuf(dom, s) == s
    } else {
        lemma_ids_upto_props(pats, s, pats.len() as int);
        if ids_at(pats, s).len() > 0 {
            assert(dom.contains(pats[ids_at(pats, s)[0]]));
            assert(false);
        }
        lemma_suffix_ids_lsuf(pats, dom, s.drop_first());
        assert(suffix_ids(pats, s) =~= suffix_ids(pats, s.drop_first()));
    }
}

} // verus!
