//! The library's laws: properties of the match semantics that hold for every
//! pattern set and haystack, stated over the brute-force definitions in
//! [`crate::matching`] that all scan contracts are phrased in.

use crate::matching::{
    kind_matches, lemma_matches_occur, lemma_occurs_in_ov_from, lemma_ov_from_occurs,
    lemma_suffix_ids_props, occurs_at, overlapping_matches, std_from, standard_matches,
    suffix_ids, triples_view, MatchKind, SpecMatch,
};
use vstd::prelude::*;

verus! {

/// A match record is in the overlapping scan's result exactly when its
/// pattern occurs at its offsets: the overlapping scan reports every
/// occurrence, and each of its records is independently verifiable by direct
/// substring comparison.
pub proof fn lemma_overlapping_iff_occurs(pats: Seq<Seq<u8>>, hay: Seq<u8>, m: SpecMatch)
    ensures
        overlapping_matches(pats, hay).contains(m) <==> (occurs_at(pats, hay, m) && m.2 > 0),
{
    if overlapping_matches(pats, hay).contains(m) {
        let j = choose|j: int|
            0 <= j < overlapping_matches(pats, hay).len() && overlapping_matches(pats, hay)[j]
                == m;
        lemma_ov_from_occurs(pats, hay, 0, j);
        assert(m.2 > 0) by {
            lemma_ov_ends_positive(pats, hay, 0, j);
        }
    }
    if occurs_at(pats, hay, m) && m.2 > 0 {
        lemma_occurs_in_ov_from(pats, hay, 0, m);
    }
}

/// Every match in the overlapping tail ends past the scan position.
proof fn lemma_ov_ends_positive(pats: Seq<Seq<u8>>, hay: Seq<u8>, i: int, j: int)
    requires
        0 <= i,
        0 <= j < crate::matching::ov_from(pats, hay, i).len(),
    ensures
        crate::matching::ov_from(pats, hay, i)[j].2 > i,
    decreases hay.len() - i,
{
    if i < hay.len() {
        let me_ = crate::matching::matches_ending_at(pats, hay, i + 1);
        if j >= me_.len() {
            lemma_ov_ends_positive(pats, hay, i + 1, j - me_.len());
        }
    }
}

/// Every match of any non-overlapping scan mode is also reported by the
/// overlapping scan: the overlapping result is a superset.
pub proof fn lemma_overlapping_superset(
    pats: Seq<Seq<u8>>,
    hay: Seq<u8>,
    kind: MatchKind,
    j: int,
)
    requires
        0 <= j < kind_matches(pats, hay, kind).len(),
    ensures
        overlapping_matches(pats, hay).contains(kind_matches(pats, hay, kind)[j]),
        occurs_at(pats, hay, kind_matches(pats, hay, kind)[j]),
{
    lemma_matches_occur(pats, hay, kind, j);
    let m = kind_matches(pats, hay, kind)[j];
    lemma_kind_matches_end_positive(pats, hay, kind, j);
    lemma_occurs_in_ov_from(pats, hay, 0, m);
}

/// Every reported match ends past offset 0: the scan only ever emits a
/// record after consuming at least one byte.
proof fn lemma_kind_matches_end_positive(
    pats: Seq<Seq<u8>>,
    hay: Seq<u8>,
    kind: MatchKind,
    j: int,
)
    requires
        0 <= j < kind_matches(pats, hay, kind).len(),
    ensures
        kind_matches(pats, hay, kind)[j].2 > 0,
{
    match kind {
        MatchKind::Standard => lemma_std_ends_after(pats, hay, 0, 1, j),
        MatchKind::LeftmostFirst => lemma_lm_ends_after(pats, hay, kind, 0, j),
        MatchKind::LeftmostLongest => lemma_lm_ends_after(pats, hay, kind, 0, j),
    }
}

/// Standard-scan matches end at or after the end offset under examination.
proof fn lemma_std_ends_after(pats: Seq<Seq<u8>>, hay: Seq<u8>, p: int, e: int, j: int)
    requires
        0 <= p < e,
        0 <= j < std_from(pats, hay, p, e).len(),
    ensures
        std_from(pats, hay, p, e)[j].2 >= e,
    decreases hay.len() + 1 - e,
{
    if e <= hay.len() {
        let ids = suffix_ids(pats, hay.subrange(p, e));
        if ids.len() == 0 {
            lemma_std_ends_after(pats, hay, p, e + 1, j);
        } else {
            if j > 0 {
                lemma_std_ends_after(pats, hay, e, e + 1, j - 1);
            }
        }
    }
}

/// Leftmost-scan matches end past the scan position.
proof fn lemma_lm_ends_after(pats: Seq<Seq<u8>>, hay: Seq<u8>, kind: MatchKind, p: int, j: int)
    requires
        0 <= p,
        0 <= j < crate::matching::lm_from(pats, hay, kind, p).len(),
    ensures
        crate::matching::lm_from(pats, hay, kind, p)[j].2 > p,
    decreases hay.len() - p,
{
    if p < hay.len() {
        match crate::matching::lm_search(pats, hay, kind, p, p + 1, None) {
            None => {},
            Some(m) => {
                crate::matching::lemma_lm_search_bounds(
                    pats,
                    hay,
                    kind,
                    p,
                    p + 1,
                    None::<(int, int, int)>,
                );
                if j > 0 {
                    lemma_lm_ends_after(pats, hay, kind, m.2, j - 1);
                }
            },
        }
    }
}

/// Matches of the standard non-overlapping scan are mutually disjoint, in
/// left-to-right order: each one ends at or before the next begins.
pub proof fn lemma_standard_disjoint(pats: Seq<Seq<u8>>, hay: Seq<u8>, j1: int, j2: int)
    requires
        0 <= j1 < j2 < standard_matches(pats, hay).len(),
    ensures
        standard_matches(pats, hay)[j1].2 <= standard_matches(pats, hay)[j2].1,
{
    lemma_std_from_disjoint(pats, hay, 0, 1, j1, j2);
}

/// Disjointness over the standard scan's tail.
proof fn lemma_std_from_disjoint(
    pats: Seq<Seq<u8>>,
    hay: Seq<u8>,
    p: int,
    e: int,
    j1: int,
    j2: int,
)
    requires
        0 <= p < e,
        0 <= j1 < j2 < std_from(pats, hay, p, e).len(),
    ensures
        std_from(pats, hay, p, e)[j1].2 <= std_from(pats, hay, p, e)[j2].1,
    decreases hay.len() + 1 - e,
{
    if e <= hay.len() {
        let ids = suffix_ids(pats, hay.subrange(p, e));
        if ids.len() == 0 {
            lemma_std_from_disjoint(pats, hay, p, e + 1, j1, j2);
        } else {
            if j1 == 0 {
                crate::matching::lemma_std_from_occurs(pats, hay, e, e + 1, j2 - 1);
            } else {
                lemma_std_from_disjoint(pats, hay, e, e + 1, j1 - 1, j2 - 1);
            }
        }
    }
}

/// The standard scan is greedy-complete: no occurrence is skipped outright.
/// Every occurrence of a (non-empty) pattern overlaps, at its end side, some
/// reported match — exactly what a naive left-to-right scan that emits
/// whatever does not overlap an earlier emission would guarantee.
pub proof fn lemma_standard_greedy(pats: Seq<Seq<u8>>, hay: Seq<u8>, o: SpecMatch)
    requires
        occurs_at(pats, hay, o),
        pats[o.0].len() > 0,
    ensures
        exists|j: int|
            0 <= j < standard_matches(pats, hay).len() && o.1 < (#[trigger] standard_matches(
                pats,
                hay,
            )[j]).2 <= o.2,
{
    lemma_std_from_covers(pats, hay, 0, 1, o);
    let j = choose|j: int|
        0 <= j < std_from(pats, hay, 0, 1).len() && o.1 < (#[trigger] std_from(
            pats,
            hay,
            0,
            1,
        )[j]).2 <= o.2;
    assert(standard_matches(pats, hay)[j] == std_from(pats, hay, 0, 1)[j]);
}

/// Greedy completeness over the standard scan's tail.
proof fn lemma_std_from_covers(pats: Seq<Seq<u8>>, hay: Seq<u8>, p: int, e: int, o: SpecMatch)
    requires
        occurs_at(pats, hay, o),
        pats[o.0].len() > 0,
        0 <= p <= o.1,
        p < e <= o.2,
    ensures
        exists|j: int|
            0 <= j < std_from(pats, hay, p, e).len() && o.1 < (#[trigger] std_from(
                pats,
                hay,
                p,
                e,
            )[j]).2 <= o.2,
    decreases o.2 - e,
{
    let w = hay.subrange(p, e);
    let ids = suffix_ids(pats, w);
    lemma_suffix_ids_props(pats, w);
    if ids.len() == 0 {
        if e == o.2 {
            assert(pats[o.0].is_suffix_of(w)) by {
                assert(pats[o.0] =~= w.subrange(w.len() - pats[o.0].len(), w.len() as int));
            }
            assert(suffix_ids(pats, w).contains(o.0));
            assert(false);
        } else {
            lemma_std_from_covers(pats, hay, p, e + 1, o);
            let j = choose|j: int|
                0 <= j < std_from(pats, hay, p, e + 1).len() && o.1 < (#[trigger] std_from(
                    pats,
                    hay,
                    p,
                    e + 1,
                )[j]).2 <= o.2;
            assert(std_from(pats, hay, p, e)[j] == std_from(pats, hay, p, e + 1)[j]);
        }
    } else {
        let m0 = std_from(pats, hay, p, e)[0];
        if e > o.1 {
            assert(m0.2 == e);
            assert(0 <= 0 < std_from(pats, hay, p, e).len() && o.1 < std_from(
                pats,
                hay,
                p,
                e,
            )[0].2 <= o.2);
        } else {
            lemma_std_from_covers(pats, hay, e, e + 1, o);
            let j = choose|j: int|
                0 <= j < std_from(pats, hay, e, e + 1).len() && o.1 < (#[trigger] std_from(
                    pats,
                    hay,
                    e,
                    e + 1,
                )[j]).2 <= o.2;
            assert(std_from(pats, hay, p, e).len() == 1 + std_from(pats, hay, e, e + 1).len());
            assert(std_from(pats, hay, p, e)[j + 1] == std_from(pats, hay, e, e + 1)[j]);
            assert(o.1 < std_from(pats, hay, p, e)[j + 1].2 <= o.2);
        }
    }
}

/// Matches of a leftmost scan are mutually disjoint, in left-to-right order:
/// each one ends at or before the next begins.
pub proof fn lemma_leftmost_disjoint(
    pats: Seq<Seq<u8>>,
    hay: Seq<u8>,
    kind: MatchKind,
    j1: int,
    j2: int,
)
    requires
        0 <= j1 < j2 < crate::matching::leftmost_matches(pats, hay, kind).len(),
    ensures
        crate::matching::leftmost_matches(pats, hay, kind)[j1].2
            <= crate::matching::leftmost_matches(pats, hay, kind)[j2].1,
{
    lemma_lm_from_disjoint(pats, hay, kind, 0, j1, j2);
}

/// Disjointness over the leftmost scan's tail.
proof fn lemma_lm_from_disjoint(
    pats: Seq<Seq<u8>>,
    hay: Seq<u8>,
    kind: MatchKind,
    p: int,
    j1: int,
    j2: int,
)
    requires
        0 <= p,
        0 <= j1 < j2 < crate::matching::lm_from(pats, hay, kind, p).len(),
    ensures
        crate::matching::lm_from(pats, hay, kind, p)[j1].2 <= crate::matching::lm_from(
            pats,
            hay,
            kind,
            p,
        )[j2].1,
    decreases hay.len() - p,
{
    if p < hay.len() {
        match crate::matching::lm_search(pats, hay, kind, p, p + 1, None) {
            None => {},
            Some(m) => {
                crate::matching::lemma_lm_search_bounds(
                    pats,
                    hay,
                    kind,
                    p,
                    p + 1,
                    None::<(int, int, int)>,
                );
                if j1 == 0 {
                    lemma_lm_from_starts_after(pats, hay, kind, m.2, j2 - 1);
                } else {
                    lemma_lm_from_disjoint(pats, hay, kind, m.2, j1 - 1, j2 - 1);
                }
            },
        }
    }
}

/// Leftmost-scan matches start at or after the scan position.
proof fn lemma_lm_from_starts_after(
    pats: Seq<Seq<u8>>,
    hay: Seq<u8>,
    kind: MatchKind,
    p: int,
    j: int,
)
    requires
        0 <= p,
        0 <= j < crate::matching::lm_from(pats, hay, kind, p).len(),
    ensures
        crate::matching::lm_from(pats, hay, kind, p)[j].1 >= p,
    decreases hay.len() - p,
{
    if p < hay.len() {
        match crate::matching::lm_search(pats, hay, kind, p, p + 1, None) {
            None => {},
            Some(m) => {
                crate::matching::lemma_lm_search_bounds(
                    pats,
                    hay,
                    kind,
                    p,
                    p + 1,
                    None::<(int, int, int)>,
                );
                if j > 0 {
                    lemma_lm_from_starts_after(pats, hay, kind, m.2, j - 1);
                }
            },
        }
    }
}

/// The overlapping scan reports matches in ascending end-offset order.
pub proof fn lemma_overlapping_sorted_by_end(pats: Seq<Seq<u8>>, hay: Seq<u8>, j1: int, j2: int)
    requires
        0 <= j1 <= j2 < overlapping_matches(pats, hay).len(),
    ensures
        overlapping_matches(pats, hay)[j1].2 <= overlapping_matches(pats, hay)[j2].2,
{
    lemma_ov_from_sorted(pats, hay, 0, j1, j2);
}

/// End-offset order over the overlapping scan's tail.
proof fn lemma_ov_from_sorted(pats: Seq<Seq<u8>>, hay: Seq<u8>, i: int, j1: int, j2: int)
    requires
        0 <= i,
        0 <= j1 <= j2 < crate::matching::ov_from(pats, hay, i).len(),
    ensures
        crate::matching::ov_from(pats, hay, i)[j1].2 <= crate::matching::ov_from(
            pats,
            hay,
            i,
        )[j2].2,
    decreases hay.len() - i,
{
    if i < hay.len() {
        let me_ = crate::matching::matches_ending_at(pats, hay, i + 1);
        if j1 < me_.len() {
            assert(crate::matching::ov_from(pats, hay, i)[j1].2 == i + 1);
            if j2 >= me_.len() {
                lemma_ov_ends_positive(pats, hay, i + 1, j2 - me_.len());
            } else {
                assert(crate::matching::ov_from(pats, hay, i)[j2].2 == i + 1);
            }
        } else {
            lemma_ov_from_sorted(pats, hay, i + 1, j1 - me_.len(), j2 - me_.len());
        }
    }
}

/// The view of executable match triples is injective: two scans whose
/// contracts pin the same specification sequence returned identical vectors.
pub proof fn lemma_triples_view_injective(a: Seq<(usize, usize, usize)>, b: Seq<
    (usize, usize, usize),
>)
    requires
        triples_view(a) == triples_view(b),
    ensures
        a == b,
{
    assert(triples_view(a).len() == a.len());
    assert(triples_view(b).len() == b.len());
    assert(a.len() == b.len());
    assert forall|j: int| 0 <= j < a.len() implies a[j] == b[j] by {
        assert(triples_view(a)[j] == crate::matching::triple_view(a[j]));
        assert(triples_view(b)[j] == crate::matching::triple_view(b[j]));
        assert(a[j].0 == b[j].0 && a[j].1 == b[j].1 && a[j].2 == b[j].2);
    }
    assert(a =~= b);
}

/// Representation independence: the match sequence that any scan must return
/// is a function of the patterns, the match kind, the mode flag and the
/// haystack alone, so automata built from the same pattern list under
/// different representation kinds return byte-for-byte identical results.
pub proof fn lemma_representation_independent(
    pats: Seq<Seq<u8>>,
    hay: Seq<u8>,
    kind: MatchKind,
    overlapping: bool,
    v1: Seq<(usize, usize, usize)>,
    v2: Seq<(usize, usize, usize)>,
)
    requires
        triples_view(v1) == if overlapping {
            overlapping_matches(pats, hay)
        } else {
            kind_matches(pats, hay, kind)
        },
        triples_view(v2) == if overlapping {
            overlapping_matches(pats, hay)
        } else {
            kind_matches(pats, hay, kind)
        },
    ensures
        v1 == v2,
{
    lemma_triples_view_injective(v1, v2);
}

} // verus!
