//! The three transition representations of a built automaton.
//!
//! All three answer the same two queries — next state on a byte, and the
//! pattern ids ending at a state — with identical contracts over the source
//! trie, so a scan's result provably does not depend on the representation:
//! - sparse: the trie itself, per-node transition lists, failure links
//!   followed at scan time;
//! - contiguous: the same data flattened into single arrays for locality;
//! - dense: a full (state x byte) table with failure links folded in, and
//!   per-state precomputed terminal-id lists.

use crate::matching::{lemma_lsuf_props, lemma_lsuf_push, lsuf, suffix_ids};
use crate::trie::{ids_view, lemma_chain_step, Nfa};
use vstd::prelude::*;

verus! {

/// A trie node's data flattened into shared arrays.
pub struct Contig {
    /// All transition rows, concatenated in node order.
    pub edges: Vec<(u8, usize)>,
    /// Start of each node's row in `edges`.
    pub lo: Vec<usize>,
    /// End (exclusive) of each node's row in `edges`.
    pub hi: Vec<usize>,
    /// Failure link of each node.
    pub fail: Vec<usize>,
    /// All terminal-id lists, concatenated in node order.
    pub tids: Vec<usize>,
    /// Start of each node's terminal ids in `tids`.
    pub tlo: Vec<usize>,
    /// End (exclusive) of each node's terminal ids in `tids`.
    pub thi: Vec<usize>,
    /// The trie this is a flattening of.
    pub src: Ghost<Nfa>,
}

impl Contig {
    /// The flattened arrays hold exactly the source trie's rows.
    pub open spec fn wf(self) -> bool {
        let m = self.src@;
        &&& m.wf()
        &&& self.lo@.len() == m.n()
        &&& self.hi@.len() == m.n()
        &&& self.fail@.len() == m.n()
        &&& self.tlo@.len() == m.n()
        &&& self.thi@.len() == m.n()
        &&& self.fail@ == m.fail@
        &&& forall|i: int|
            0 <= i < m.n() ==> #[trigger] self.lo@[i] <= self.hi@[i] <= self.edges@.len()
                && self.edges@.subrange(self.lo@[i] as int, self.hi@[i] as int) == m.trans@[i]@
        &&& forall|i: int|
            0 <= i < m.n() ==> #[trigger] self.tlo@[i] <= self.thi@[i] <= self.tids@.len()
                && self.tids@.subrange(self.tlo@[i] as int, self.thi@[i] as int) == m.terms@[i]@
    }
}

impl Contig {
    /// Find the child reached on byte `b` from node `s` in the flat row.
    fn flat_find(&self, s: usize, b: u8) -> (r: Option<usize>)
        requires
            self.wf(),
            s < self.src@.n(),
        ensures
            match r {
                Some(c) => exists|k: int|
                    0 <= k < self.src@.trans@[s as int]@.len() && self.src@.trans@[s as int]@[k]
                        == (b, c),
                None => forall|k: int|
                    0 <= k < self.src@.trans@[s as int]@.len() ==> (
                    #[trigger] self.src@.trans@[s as int]@[k]).0 != b,
            },
    {
        let l = self.lo[s];
        let h = self.hi[s];
        let ghost mrow = self.src@.trans@[s as int]@;
        proof {
            assert(mrow == self.edges@.subrange(l as int, h as int));
        }
        let mut k: usize = l;
        while k < h
            invariant
                l <= k <= h,
                h <= self.edges@.len(),
                mrow == self.src@.trans@[s as int]@,
                mrow == self.edges@.subrange(l as int, h as int),
                forall|j: int| 0 <= j < k - l ==> (#[trigger] mrow[j]).0 != b,
            decreases h - k,
        {
            let e = self.edges[k];
            proof {
                assert(mrow[k - l] == self.edges@[k as int]);
            }
            if e.0 == b {
                proof {
                    assert(self.src@.trans@[s as int]@[k - l] == e);
                    assert(e == (b, e.1));
                }
                return Some(e.1);
            }
            k = k + 1;
        }
        None
    }

    /// The state after reading byte `b` in state `s`, found by walking the
    /// failure chain in the flat arrays.
    pub fn next(&self, s: usize, b: u8) -> (r: usize)
        requires
            self.wf(),
            s < self.src@.n(),
        ensures
            r < self.src@.n(),
            self.src@.strs@[r as int] == lsuf(
                self.src@.dom(),
                self.src@.strs@[s as int].push(b),
            ),
    {
        let ghost m = self.src@;
        let mut cur: usize = s;
        loop
            invariant
                self.wf(),
                m == self.src@,
                s < m.n(),
                cur < m.n(),
                lsuf(m.dom(), m.strs@[s as int].push(b)) == lsuf(
                    m.dom(),
                    m.strs@[cur as int].push(b),
                ),
            decreases m.strs@[cur as int].len(),
        {
            let ghost cs = m.strs@[cur as int];
            let r = self.flat_find(cur, b);
            match r {
                Some(c) => {
                    proof {
                        let kk = choose|kk: int|
                            0 <= kk < m.trans@[cur as int]@.len() && m.trans@[cur as int]@[kk]
                                == (b, c);
                        assert(m.idx@.contains_key(cs.push(b)));
                        assert(m.strs@[c as int] == cs.push(b));
                        assert(m.dom().contains(cs.push(b)));
                        assert(lsuf(m.dom(), cs.push(b)) == cs.push(b));
                    }
                    return c;
                },
                None => {
                    proof {
                        if m.idx@.contains_key(cs.push(b)) {
                            let kk = choose|kk: int|
                                0 <= kk < m.trans@[cur as int]@.len() && (
                                #[trigger] m.trans@[cur as int]@[kk]).0 == b;
                            assert(false);
                        }
                    }
                    if cur == 0 {
                        proof {
                            assert(!m.dom().contains(cs.push(b)));
                            assert(cs.push(b).drop_first() =~= Seq::<u8>::empty());
                            assert(m.dom().contains(Seq::<u8>::empty()));
                            assert(lsuf(m.dom(), Seq::<u8>::empty()) == Seq::<u8>::empty());
                            assert(lsuf(m.dom(), cs.push(b)) == Seq::<u8>::empty());
                        }
                        return 0;
                    }
                    let nxt = self.fail[cur];
                    proof {
                        assert(cs.len() > 0) by {
                            if cs.len() == 0 {
                                assert(cs =~= Seq::<u8>::empty());
                                assert(m.idx@[cs] == cur as int);
                                assert(m.idx@[m.strs@[0]] == 0);
                            }
                        }
                        assert(!m.dom().contains(cs.push(b)));
                        assert(m.fail@[cur as int] == nxt);
                        assert(m.strs@[nxt as int] == lsuf(m.dom(), cs.drop_first()));
                        lemma_lsuf_props(m.dom(), cs.drop_first());
                        assert(cs.push(b).drop_first() =~= cs.drop_first().push(b));
                        lemma_lsuf_push(m.dom(), cs.drop_first(), b);
                    }
                    cur = nxt;
                },
            }
        }
    }

    /// Append the ids of every pattern that is a suffix of state `s`'s
    /// string, by walking the failure chain in the flat arrays.
    pub fn push_ids(&self, s: usize, out: &mut Vec<usize>)
        requires
            self.wf(),
            s < self.src@.n(),
        ensures
            ids_view(final(out)@) == ids_view(old(out)@) + suffix_ids(
                self.src@.pats@,
                self.src@.strs@[s as int],
            ),
    {
        let ghost m = self.src@;
        let mut cur: usize = s;
        loop
            invariant
                self.wf(),
                m == self.src@,
                cur < m.n(),
                ids_view(out@) + suffix_ids(m.pats@, m.strs@[cur as int]) == ids_view(old(out)@)
                    + suffix_ids(m.pats@, m.strs@[s as int]),
            decreases m.strs@[cur as int].len(),
        {
            let ghost before = out@;
            let l = self.tlo[cur];
            let h = self.thi[cur];
            let ghost mrow = m.terms@[cur as int]@;
            proof {
                assert(mrow == self.tids@.subrange(l as int, h as int));
            }
            let mut t: usize = l;
            while t < h
                invariant
                    l <= t <= h,
                    h <= self.tids@.len(),
                    mrow == self.tids@.subrange(l as int, h as int),
                    out@ == before + mrow.take(t - l),
                decreases h - t,
            {
                let v = self.tids[t];
                proof {
                    assert(mrow[t - l] == self.tids@[t as int]);
                }
                out.push(v);
                proof {
                    assert(out@ =~= before + mrow.take(t - l + 1));
                }
                t = t + 1;
            }
            proof {
                assert(mrow.take(mrow.len() as int) =~= mrow);
                assert(ids_view(out@) =~= ids_view(before) + ids_view(mrow));
            }
            if cur == 0 {
                proof {
                    assert(suffix_ids(m.pats@, m.strs@[0]) == crate::matching::ids_at(
                        m.pats@,
                        m.strs@[0],
                    ));
                }
                return ;
            }
            let nxt = self.fail[cur];
            proof {
                lemma_chain_step(m, cur as int);
                assert(m.fail@[cur as int] == nxt);
                assert(m.fail_ok(cur as int));
                assert(m.strs@[cur as int].len() > 0) by {
                    if m.strs@[cur as int].len() == 0 {
                        assert(m.strs@[cur as int] =~= Seq::<u8>::empty());
                        assert(m.idx@[m.strs@[cur as int]] == cur as int);
                        assert(m.idx@[m.strs@[0]] == 0);
                    }
                }
                lemma_lsuf_props(m.dom(), m.strs@[cur as int].drop_first());
                assert(m.strs@[nxt as int].len() < m.strs@[cur as int].len());
                assert(ids_view(out@) + suffix_ids(m.pats@, m.strs@[nxt as int]) =~= ids_view(
                    old(out)@,
                ) + suffix_ids(m.pats@, m.strs@[s as int]));
            }
            cur = nxt;
        }
    }
}

/// Lay the trie's per-node rows out contiguously.
pub fn compile_contig(nfa: &Nfa) -> (r: Contig)
    requires
        nfa.wf(),
    ensures
        r.wf(),
        r.src@ == *nfa,
{
    let n = nfa.trans.len();
    let mut edges: Vec<(u8, usize)> = Vec::new();
    let mut lo: Vec<usize> = Vec::new();
    let mut hi: Vec<usize> = Vec::new();
    let mut fail: Vec<usize> = Vec::new();
    let mut tids: Vec<usize> = Vec::new();
    let mut tlo: Vec<usize> = Vec::new();
    let mut thi: Vec<usize> = Vec::new();
    let mut i: usize = 0;
    while i < n
        invariant
            i <= n,
            n == nfa.n(),
            nfa.wf(),
            lo@.len() == i,
            hi@.len() == i,
            fail@.len() == i,
            tlo@.len() == i,
            thi@.len() == i,
            fail@ == nfa.fail@.take(i as int),
            forall|j: int|
                0 <= j < i ==> #[trigger] lo@[j] <= hi@[j] <= edges@.len() && edges@.subrange(
                    lo@[j] as int,
                    hi@[j] as int,
                ) == nfa.trans@[j]@,
            forall|j: int|
                0 <= j < i ==> #[trigger] tlo@[j] <= thi@[j] <= tids@.len() && tids@.subrange(
                    tlo@[j] as int,
                    thi@[j] as int,
                ) == nfa.terms@[j]@,
        decreases n - i,
    {
        let ghost e0 = edges@;
        let ghost t0 = tids@;
        lo.push(edges.len());
        let row = &nfa.trans[i];
        let mut k: usize = 0;
        while k < row.len()
            invariant
                k <= row@.len(),
                row == &nfa.trans@[i as int],
                edges@ == e0 + row@.take(k as int),
            decreases row@.len() - k,
        {
            let e = row[k];
            edges.push(e);
            proof {
                assert(edges@ =~= e0 + row@.take(k as int + 1));
            }
            k = k + 1;
        }
        hi.push(edges.len());
        let trow = &nfa.terms[i];
        tlo.push(tids.len());
        let mut k2: usize = 0;
        while k2 < trow.len()
            invariant
                k2 <= trow@.len(),
                trow == &nfa.terms@[i as int],
                tids@ == t0 + trow@.take(k2 as int),
            decreases trow@.len() - k2,
        {
            let e = trow[k2];
            tids.push(e);
            proof {
                assert(tids@ =~= t0 + trow@.take(k2 as int + 1));
            }
            k2 = k2 + 1;
        }
        thi.push(tids.len());
        let f = nfa.fail[i];
        fail.push(f);
        proof {
            assert(fail@ =~= nfa.fail@.take(i as int + 1));
            assert(row@.take(row@.len() as int) =~= row@);
            assert(trow@.take(trow@.len() as int) =~= trow@);
            assert forall|j: int| 0 <= j < i + 1 implies #[trigger] lo@[j] <= hi@[j]
                <= edges@.len() && edges@.subrange(lo@[j] as int, hi@[j] as int)
                == nfa.trans@[j]@ by {
                if j < i {
                    assert(edges@.subrange(lo@[j] as int, hi@[j] as int) =~= e0.subrange(
                        lo@[j] as int,
                        hi@[j] as int,
                    ));
                } else {
                    assert(edges@.subrange(lo@[j] as int, hi@[j] as int) =~= nfa.trans@[j]@);
                }
            }
            assert forall|j: int| 0 <= j < i + 1 implies #[trigger] tlo@[j] <= thi@[j]
                <= tids@.len() && tids@.subrange(tlo@[j] as int, thi@[j] as int)
                == nfa.terms@[j]@ by {
                if j < i {
                    assert(tids@.subrange(tlo@[j] as int, thi@[j] as int) =~= t0.subrange(
                        tlo@[j] as int,
                        thi@[j] as int,
                    ));
                } else {
                    assert(tids@.subrange(tlo@[j] as int, thi@[j] as int) =~= nfa.terms@[j]@);
                }
            }
        }
        i = i + 1;
    }
    proof {
        assert(nfa.fail@.take(n as int) =~= nfa.fail@);
    }
    Contig { edges, lo, hi, fail, tids, tlo, thi, src: Ghost(*nfa) }
}

/// The dense representation: a full transition table with failure links
/// folded in, and precomputed folded terminal-id lists.
pub struct Dfa {
    /// `table[s * 256 + b]`: the state after reading byte `b` in state `s`.
    pub table: Vec<usize>,
    /// Ids of all patterns that are suffixes of each state's string.
    pub out: Vec<Vec<usize>>,
    /// Number of states.
    pub n_states: usize,
    /// The trie this was compiled from.
    pub src: Ghost<Nfa>,
}

impl Dfa {
    /// The table folds the failure chain into every (state, byte) entry.
    pub open spec fn wf(self) -> bool {
        let m = self.src@;
        &&& m.wf()
        &&& self.n_states as int == m.n()
        &&& self.table@.len() == m.n() * 256
        &&& self.out@.len() == m.n()
        &&& forall|s: int, b: int|
            0 <= s < m.n() && 0 <= b < 256 ==> (#[trigger] self.table@[s * 256 + b]) < m.n()
                && m.strs@[self.table@[s * 256 + b] as int] == lsuf(
                m.dom(),
                m.strs@[s].push(b as u8),
            )
        &&& forall|s: int|
            0 <= s < m.n() ==> ids_view(#[trigger] self.out@[s]@) == suffix_ids(
                m.pats@,
                m.strs@[s],
            )
    }
}

/// Precompute every (state, byte) transition and every folded terminal list.
pub fn compile_dfa(nfa: &Nfa) -> (r: Dfa)
    requires
        nfa.wf(),
    ensures
        r.wf(),
        r.src@ == *nfa,
{
    let n = nfa.trans.len();
    let mut table: Vec<usize> = Vec::new();
    let mut out: Vec<Vec<usize>> = Vec::new();
    let mut s: usize = 0;
    while s < n
        invariant
            s <= n,
            n == nfa.n(),
            nfa.wf(),
            table@.len() == s * 256,
            out@.len() == s,
            forall|s2: int, b: int|
                0 <= s2 < s && 0 <= b < 256 ==> (#[trigger] table@[s2 * 256 + b]) < nfa.n()
                    && nfa.strs@[table@[s2 * 256 + b] as int] == lsuf(
                    nfa.dom(),
                    nfa.strs@[s2].push(b as u8),
                ),
            forall|s2: int|
                0 <= s2 < s ==> ids_view(#[trigger] out@[s2]@) == suffix_ids(
                    nfa.pats@,
                    nfa.strs@[s2],
                ),
        decreases n - s,
    {
        let mut b: usize = 0;
        while b < 256
            invariant
                b <= 256,
                s < n,
                n == nfa.n(),
                nfa.wf(),
                table@.len() == s * 256 + b,
                forall|s2: int, b2: int|
                    0 <= s2 < s && 0 <= b2 < 256 ==> (#[trigger] table@[s2 * 256 + b2]) < nfa.n()
                        && nfa.strs@[table@[s2 * 256 + b2] as int] == lsuf(
                        nfa.dom(),
                        nfa.strs@[s2].push(b2 as u8),
                    ),
                forall|b2: int|
                    0 <= b2 < b ==> (#[trigger] table@[s as int * 256 + b2]) < nfa.n()
                        && nfa.strs@[table@[s as int * 256 + b2] as int] == lsuf(
                        nfa.dom(),
                        nfa.strs@[s as int].push(b2 as u8),
                    ),
            decreases 256 - b,
        {
            proof {
                assert(nfa.fails_done_below(nfa.strs@[s as int].len() as int + 1)) by {
                    assert forall|ii: int|
                        1 <= ii < nfa.n() && (#[trigger] nfa.strs@[ii]).len() < nfa.strs@[s as int].len()
                            + 1 implies nfa.fail_ok(ii) by {
                        assert(nfa.fail@[ii] < nfa.n());
                    }
                }
            }
            let t = nfa.delta_build(s, b as u8);
            table.push(t);
            b = b + 1;
        }
        let mut ids: Vec<usize> = Vec::new();
        nfa.collect_ids(s, &mut ids);
        proof {
            assert(ids_view(ids@) =~= suffix_ids(nfa.pats@, nfa.strs@[s as int]));
        }
        out.push(ids);
        s = s + 1;
    }
    Dfa { table, out, n_states: n, src: Ghost(*nfa) }
}

/// A built automaton in whichever representation was requested.
pub enum Repr {
    /// The trie itself, with per-node sparse rows.
    Sparse(Nfa),
    /// The flattened trie.
    Contiguous(Contig),
    /// The dense table.
    Dense(Dfa),
}

impl Repr {
    /// The underlying trie all queries are specified against.
    pub open spec fn src(self) -> Nfa {
        match self {
            Repr::Sparse(m) => m,
            Repr::Contiguous(c) => c.src@,
            Repr::Dense(d) => d.src@,
        }
    }

    /// Representation-specific well-formedness.
    pub open spec fn wf(self) -> bool {
        match self {
            Repr::Sparse(m) => m.wf(),
            Repr::Contiguous(c) => c.wf(),
            Repr::Dense(d) => d.wf(),
        }
    }

    /// The state after reading byte `b` in state `s`: the node of the longest
    /// suffix of `strs[s] + [b]` that the trie holds.
    pub fn next(&self, s: usize, b: u8) -> (r: usize)
        requires
            self.wf(),
            s < self.src().n(),
        ensures
            r < self.src().n(),
            self.src().strs@[r as int] == lsuf(
                self.src().dom(),
                self.src().strs@[s as int].push(b),
            ),
    {
        match self {
            Repr::Sparse(m) => {
                proof {
                    assert forall|ii: int|
                        1 <= ii < m.n() && (#[trigger] m.strs@[ii]).len() < m.strs@[s as int].len()
                            + 1 implies m.fail_ok(ii) by {
                        assert(m.fail@[ii] < m.n());
                    }
                }
                m.delta_build(s, b)
            },
            Repr::Contiguous(c) => c.next(s, b),
            Repr::Dense(d) => {
                let tl = d.table.len();
                proof {
                    let bound = (d.src@.n()) * 256;
                    assert((s as int) * 256 + (b as int) < bound);
                    assert(bound == tl as int);
                }
                d.table[s * 256 + b as usize]
            },
        }
    }

    /// Append the ids of every pattern that is a suffix of state `s`'s
    /// string, longest first, then ascending id within a length.
    pub fn push_ids(&self, s: usize, out: &mut Vec<usize>)
        requires
            self.wf(),
            s < self.src().n(),
        ensures
            ids_view(final(out)@) == ids_view(old(out)@) + suffix_ids(
                self.src().pats@,
                self.src().strs@[s as int],
            ),
    {
        match self {
            Repr::Sparse(m) => m.collect_ids(s, out),
            Repr::Contiguous(c) => c.push_ids(s, out),
            Repr::Dense(d) => {
                let row = &d.out[s];
                let ghost before = out@;
                let mut t: usize = 0;
                while t < row.len()
                    invariant
                        t <= row@.len(),
                        row == &d.out@[s as int],
                        out@ == before + row@.take(t as int),
                    decreases row@.len() - t,
                {
                    let v = row[t];
                    out.push(v);
                    proof {
                        assert(out@ =~= before + row@.take(t as int + 1));
                    }
                    t = t + 1;
                }
                proof {
                    assert(row@.take(row@.len() as int) =~= row@);
                    assert(ids_view(out@) =~= ids_view(before) + ids_view(row@));
                }
            },
        }
    }
}

} // verus!
