//! The noncontiguous automaton: a trie over all pattern prefixes with
//! failure links, stored as parallel arrays indexed by node id (root is 0).
//!
//! Each node carries a ghost copy of the prefix it stands for (`strs`), and a
//! ghost map `idx` from prefix to node id; well-formedness ties the
//! executable arrays to those, so that every transition, failure link and
//! terminal-id list provably means what the specification says.

use crate::matching::{
    ids_at, ids_upto, lemma_ids_upto_props, lemma_lsuf_props, lemma_lsuf_push,
    lemma_prefix_set_empty, lemma_prefix_set_snoc, lemma_prefix_set_take0, lemma_suffix_ids_lsuf,
    lsuf, prefix_set, suffix_closed_dom, suffix_ids,
};
use vstd::prelude::*;

verus! {

/// The view of a list of byte vectors as a sequence of byte sequences.
pub open spec fn pats_view(ps: Seq<Vec<u8>>) -> Seq<Seq<u8>> {
    ps.map_values(|v: Vec<u8>| v@)
}

/// The view of a list of pattern ids as a sequence of mathematical integers.
pub open spec fn ids_view(s: Seq<usize>) -> Seq<int> {
    s.map_values(|u: usize| u as int)
}

/// A trie node's sparse transition list: `(byte, child id)` pairs.
pub type Row = Vec<(u8, usize)>;

/// The trie-plus-failure-links automaton over a fixed pattern list.
pub struct Nfa {
    /// Sparse transitions of each node.
    pub trans: Vec<Row>,
    /// Failure link of each node (root: 0).
    pub fail: Vec<usize>,
    /// Ids of the patterns that end exactly at each node, ascending.
    pub terms: Vec<Vec<usize>>,
    /// Distance of each node from the root.
    pub depth: Vec<usize>,
    /// The node each node was created from.
    pub parent: Vec<usize>,
    /// The byte on the edge from the parent.
    pub pbyte: Vec<u8>,
    /// Byte length of each pattern.
    pub pat_lens: Vec<usize>,
    /// The patterns the automaton was built from.
    pub pats: Ghost<Seq<Seq<u8>>>,
    /// The prefix each node stands for.
    pub strs: Ghost<Seq<Seq<u8>>>,
    /// Node id of each prefix held by the trie.
    pub idx: Ghost<Map<Seq<u8>, int>>,
}

impl Nfa {
    /// Number of nodes.
    pub open spec fn n(self) -> int {
        self.trans@.len() as int
    }

    /// The set of prefixes the trie holds a node for.
    pub open spec fn dom(self) -> Set<Seq<u8>> {
        self.idx@.dom()
    }

    /// The parallel arrays all have one entry per node, and the pattern data
    /// is consistent: patterns are non-empty and `pat_lens` records their
    /// lengths.
    pub open spec fn wf_counts(self) -> bool {
        &&& 1 <= self.n()
        &&& self.fail@.len() == self.n()
        &&& self.terms@.len() == self.n()
        &&& self.depth@.len() == self.n()
        &&& self.parent@.len() == self.n()
        &&& self.pbyte@.len() == self.n()
        &&& self.strs@.len() == self.n()
        &&& self.pat_lens@.len() == self.pats@.len()
        &&& forall|p: int|
            0 <= p < self.pats@.len() ==> self.pat_lens@[p] == #[trigger] self.pats@[p].len()
                && self.pats@[p].len() >= 1
    }

    /// `idx` is a bijection between the node strings and the node ids, the
    /// root stands for the empty string, and the string set is closed under
    /// dropping the last byte.
    pub open spec fn wf_map(self) -> bool {
        &&& self.strs@[0] == Seq::<u8>::empty()
        &&& forall|i: int|
            0 <= i < self.n() ==> self.idx@.contains_key(#[trigger] self.strs@[i])
                && self.idx@[self.strs@[i]] == i
        &&& forall|s: Seq<u8>|
            self.idx@.contains_key(s) ==> 0 <= #[trigger] self.idx@[s] < self.n()
                && self.strs@[self.idx@[s]] == s
        &&& suffix_closed_dom(self.dom())
        &&& self.dom().finite()
        &&& self.dom().len() == self.n()
    }

    /// Depths equal string lengths, terminal ids (below `q`) are exactly the
    /// patterns equal to the node string, and each non-root node extends its
    /// parent by one byte.
    pub open spec fn wf_nodes(self, q: int) -> bool {
        &&& forall|i: int| 0 <= i < self.n() ==> #[trigger] self.depth@[i] == self.strs@[i].len()
        &&& forall|i: int|
            0 <= i < self.n() ==> ids_view(#[trigger] self.terms@[i]@) == ids_upto(
                self.pats@,
                self.strs@[i],
                q,
            )
        &&& forall|i: int|
            1 <= i < self.n() ==> #[trigger] self.parent@[i] < self.n() && self.strs@[i]
                == self.strs@[self.parent@[i] as int].push(self.pbyte@[i])
    }

    /// Transition rows agree with the ghost map: every listed edge goes to
    /// the node of the extended string, and every extended string held by the
    /// trie is listed.
    pub open spec fn wf_trans(self) -> bool {
        &&& forall|i: int, k: int|
            0 <= i < self.n() && 0 <= k < self.trans@[i]@.len() ==> self.idx@.contains_key(
                self.strs@[i].push((#[trigger] self.trans@[i]@[k]).0),
            ) && self.trans@[i]@[k].1 == self.idx@[self.strs@[i].push(self.trans@[i]@[k].0)]
        &&& forall|i: int, b: u8|
            0 <= i < self.n() && self.idx@.contains_key(#[trigger] self.strs@[i].push(b))
                ==> exists|k: int| 0 <= k < self.trans@[i]@.len() && (#[trigger] self.trans@[i]@[k]).0 == b
    }

    /// Every failure link points to the node of the longest proper suffix of
    /// the node's string that the trie holds.
    pub open spec fn wf_fails(self) -> bool {
        &&& self.fail@[0] == 0
        &&& forall|i: int|
            1 <= i < self.n() ==> #[trigger] self.fail@[i] < self.n()
                && self.strs@[self.fail@[i] as int] == lsuf(self.dom(), self.strs@[i].drop_first())
    }

    /// Everything except the failure links, with terminal ids complete up to
    /// pattern `q`: the state during construction.
    pub open spec fn wf_partial(self, q: int) -> bool {
        &&& self.wf_counts()
        &&& self.wf_map()
        &&& self.wf_nodes(q)
        &&& self.wf_trans()
    }

    /// The full well-formedness of a built automaton.
    pub open spec fn wf(self) -> bool {
        &&& self.wf_partial(self.pats@.len() as int)
        &&& self.wf_fails()
        &&& self.dom() == prefix_set(self.pats@)
    }

    /// Node `i`'s failure link is correct.
    pub open spec fn fail_ok(self, i: int) -> bool {
        &&& self.fail@[i] < self.n()
        &&& self.strs@[self.fail@[i] as int] == lsuf(self.dom(), self.strs@[i].drop_first())
    }

    /// Every non-root node whose string is shorter than `d` has a correct
    /// failure link.
    pub open spec fn fails_done_below(self, d: int) -> bool {
        forall|i: int|
            1 <= i < self.n() && (#[trigger] self.strs@[i]).len() < d ==> self.fail_ok(i)
    }

    /// Everything but the failure links agrees with `other`.
    pub open spec fn same_shape(self, other: Nfa) -> bool {
        &&& self.trans@ == other.trans@
        &&& self.terms@ == other.terms@
        &&& self.depth@ == other.depth@
        &&& self.parent@ == other.parent@
        &&& self.pbyte@ == other.pbyte@
        &&& self.pat_lens@ == other.pat_lens@
        &&& self.pats@ == other.pats@
        &&& self.strs@ == other.strs@
        &&& self.idx@ == other.idx@
        &&& self.fail@.len() == other.fail@.len()
    }

    /// Walk the (already computed) failure links from `s` until a node with a
    /// transition on `b` is found: the longest suffix of `strs[s] + [b]` held
    /// by the trie.  Usable during construction, where only the links of
    /// nodes no deeper than `s` are known to be correct.
    pub fn delta_build(&self, s: usize, b: u8) -> (r: usize)
        requires
            self.wf_partial(self.pats@.len() as int),
            s < self.n(),
            self.fails_done_below(self.strs@[s as int].len() as int + 1),
        ensures
            r < self.n(),
            self.strs@[r as int] == lsuf(self.dom(), self.strs@[s as int].push(b)),
    {
        let mut cur: usize = s;
        loop
            invariant
                self.wf_partial(self.pats@.len() as int),
                s < self.n(),
                cur < self.n(),
                self.strs@[cur as int].len() <= self.strs@[s as int].len(),
                self.fails_done_below(self.strs@[s as int].len() as int + 1),
                lsuf(self.dom(), self.strs@[s as int].push(b)) == lsuf(
                    self.dom(),
                    self.strs@[cur as int].push(b),
                ),
            decreases self.strs@[cur as int].len(),
        {
            let ghost cs = self.strs@[cur as int];
            let r = row_find(&self.trans[cur], b);
            match r {
                Some(c) => {
                    proof {
                        let kk = choose|kk: int|
                            0 <= kk < self.trans@[cur as int]@.len() && self.trans@[cur as int]@[kk]
                                == (b, c);
                        assert(self.idx@.contains_key(cs.push(b)));
                        assert(self.strs@[c as int] == cs.push(b));
                        assert(self.dom().contains(cs.push(b)));
                        assert(lsuf(self.dom(), cs.push(b)) == cs.push(b));
                    }
                    return c;
                }
                None => {
                    proof {
                        if self.idx@.contains_key(cs.push(b)) {
                            let kk = choose|kk: int|
                                0 <= kk < self.trans@[cur as int]@.len() && (
                                #[trigger] self.trans@[cur as int]@[kk]).0 == b;
                            assert(false);
                        }
                    }
                    if cur == 0 {
                        proof {
                            assert(!self.dom().contains(cs.push(b)));
                            assert(cs.push(b).drop_first() =~= Seq::<u8>::empty());
                            assert(self.dom().contains(Seq::<u8>::empty()));
                            assert(lsuf(self.dom(), Seq::<u8>::empty()) == Seq::<u8>::empty());
                            assert(lsuf(self.dom(), cs.push(b)) == Seq::<u8>::empty());
                        }
                        return 0;
                    }
                    let nxt = self.fail[cur];
                    proof {
                        assert(cs.len() > 0) by {
                            if cs.len() == 0 {
                                assert(cs =~= Seq::<u8>::empty());
                                assert(self.idx@[cs] == cur as int);
                                assert(self.idx@[self.strs@[0]] == 0);
                            }
                        }
                        assert(!self.dom().contains(cs.push(b)));
                        assert(self.fail_ok(cur as int));
                        lemma_lsuf_props(self.dom(), cs.drop_first());
                        assert(cs.push(b).drop_first() =~= cs.drop_first().push(b));
                        lemma_lsuf_push(self.dom(), cs.drop_first(), b);
                    }
                    cur = nxt;
                }
            }
        }
    }
}

/// Every pattern has a node: patterns are their own final prefixes.
pub proof fn lemma_pats_in_dom(m: Nfa)
    requires
        m.wf(),
    ensures
        forall|p: int| 0 <= p < m.pats@.len() ==> m.dom().contains(#[trigger] m.pats@[p]),
{
    assert forall|p: int| 0 <= p < m.pats@.len() implies m.dom().contains(
        #[trigger] m.pats@[p],
    ) by {
        assert(m.pats@[p].take(m.pats@[p].len() as int) =~= m.pats@[p]);
        assert(prefix_set(m.pats@).contains(m.pats@[p]));
    }
}

/// One step along a failure chain: the node's own terminal ids followed by
/// the suffix ids of its failure target give the suffix ids of its string.
pub proof fn lemma_chain_step(m: Nfa, i: int)
    requires
        m.wf(),
        1 <= i < m.n(),
    ensures
        suffix_ids(m.pats@, m.strs@[i]) == ids_at(m.pats@, m.strs@[i]) + suffix_ids(
            m.pats@,
            m.strs@[m.fail@[i] as int],
        ),
{
    lemma_pats_in_dom(m);
    assert(m.strs@[i].len() > 0) by {
        if m.strs@[i].len() == 0 {
            assert(m.strs@[i] =~= Seq::<u8>::empty());
            assert(m.idx@[m.strs@[i]] == i);
            assert(m.idx@[m.strs@[0]] == 0);
        }
    }
    lemma_suffix_ids_lsuf(m.pats@, m.dom(), m.strs@[i].drop_first());
}

impl Nfa {
    /// Append the ids of every pattern that is a suffix of node `s`'s string,
    /// longest first, by walking the failure chain and copying each node's
    /// own terminal ids.
    pub fn collect_ids(&self, s: usize, out: &mut Vec<usize>)
        requires
            self.wf(),
            s < self.n(),
        ensures
            ids_view(final(out)@) == ids_view(old(out)@) + suffix_ids(
                self.pats@,
                self.strs@[s as int],
            ),
    {
        let mut cur: usize = s;
        loop
            invariant
                self.wf(),
                cur < self.n(),
                ids_view(out@) + suffix_ids(self.pats@, self.strs@[cur as int]) == ids_view(
                    old(out)@,
                ) + suffix_ids(self.pats@, self.strs@[s as int]),
            decreases self.strs@[cur as int].len(),
        {
            let ghost before = out@;
            let row = &self.terms[cur];
            let mut t: usize = 0;
            while t < row.len()
                invariant
                    t <= row@.len(),
                    row == &self.terms@[cur as int],
                    out@ == before + row@.take(t as int),
                decreases row@.len() - t,
            {
                let v = row[t];
                out.push(v);
                proof {
                    assert(out@ =~= before + row@.take(t as int + 1));
                }
                t = t + 1;
            }
            proof {
                assert(row@.take(row@.len() as int) =~= row@);
                assert(ids_view(out@) =~= ids_view(before) + ids_view(
                    self.terms@[cur as int]@,
                ));
            }
            if cur == 0 {
                proof {
                    assert(suffix_ids(self.pats@, self.strs@[0]) == ids_at(
                        self.pats@,
                        self.strs@[0],
                    ));
                }
                return ;
            }
            let nxt = self.fail[cur];
            proof {
                lemma_chain_step(*self, cur as int);
                assert(self.fail_ok(cur as int));
                assert(self.strs@[cur as int].len() > 0) by {
                    if self.strs@[cur as int].len() == 0 {
                        assert(self.strs@[cur as int] =~= Seq::<u8>::empty());
                        assert(self.idx@[self.strs@[cur as int]] == cur as int);
                        assert(self.idx@[self.strs@[0]] == 0);
                    }
                }
                lemma_lsuf_props(self.dom(), self.strs@[cur as int].drop_first());
                assert(self.strs@[nxt as int].len() < self.strs@[cur as int].len());
                assert(ids_view(out@) + suffix_ids(self.pats@, self.strs@[nxt as int]) =~= ids_view(
                    old(out)@,
                ) + suffix_ids(self.pats@, self.strs@[s as int]));
            }
            cur = nxt;
        }
    }
}

/// Fill in the failure links of a freshly built trie, working outward from
/// the root one depth at a time: a node's link is found by walking its
/// parent's (already correct) link chain.
pub fn compute_fails(nfa: &mut Nfa)
    requires
        old(nfa).wf_partial(old(nfa).pats@.len() as int),
        old(nfa).dom() == prefix_set(old(nfa).pats@),
        old(nfa).fail@[0] == 0,
    ensures
        final(nfa).wf(),
        final(nfa).same_shape(*old(nfa)),
{
    let n = nfa.trans.len();
    let mut buckets: Vec<Vec<usize>> = Vec::new();
    let empty_bucket: Vec<usize> = Vec::new();
    buckets.push(empty_bucket);
    let mut i: usize = 1;
    while i < n
        invariant
            1 <= i <= n,
            n == nfa.n(),
            *nfa == *old(nfa),
            nfa.wf_partial(nfa.pats@.len() as int),
            1 <= buckets@.len(),
            forall|d: int, j: int|
                0 <= d < buckets@.len() && 0 <= j < buckets@[d]@.len() ==> 1 <= (
                #[trigger] buckets@[d]@[j]) < i && nfa.depth@[buckets@[d]@[j] as int] == d,
            forall|c: int|
                1 <= c < i ==> nfa.depth@[c] < buckets@.len() && buckets@[nfa.depth@[c] as int]@.contains(
                    c as usize,
                ),
        decreases n - i,
    {
        let d = nfa.depth[i];
        while buckets.len() <= d
            invariant
                1 <= buckets@.len(),
                n == nfa.n(),
                *nfa == *old(nfa),
                nfa.wf_partial(nfa.pats@.len() as int),
                1 <= i < n,
                d == nfa.depth@[i as int],
                forall|dd: int, j: int|
                    0 <= dd < buckets@.len() && 0 <= j < buckets@[dd]@.len() ==> 1 <= (
                    #[trigger] buckets@[dd]@[j]) < i && nfa.depth@[buckets@[dd]@[j] as int] == dd,
                forall|c: int|
                    1 <= c < i ==> nfa.depth@[c] < buckets@.len() && buckets@[nfa.depth@[c] as int]@.contains(
                        c as usize,
                    ),
            decreases d + 1 - buckets@.len(),
        {
            let fresh: Vec<usize> = Vec::new();
            buckets.push(fresh);
        }
        let ghost old_buckets = buckets@;
        buckets[d].push(i);
        proof {
            assert(buckets@[d as int]@ == old_buckets[d as int]@.push(i));
            assert forall|c: int|
                1 <= c < i + 1 implies nfa.depth@[c] < buckets@.len() && buckets@[nfa.depth@[c] as int]@.contains(
                c as usize,
            ) by {
                if c < i {
                    let dd = nfa.depth@[c] as int;
                    if dd == d as int {
                        let j = choose|j: int|
                            0 <= j < old_buckets[dd]@.len() && old_buckets[dd]@[j] == c as usize;
                        assert(buckets@[dd]@[j] == c as usize);
                    } else {
                        assert(buckets@[dd] == old_buckets[dd]);
                    }
                } else {
                    assert(buckets@[d as int]@[old_buckets[d as int]@.len() as int] == i);
                }
            }
        }
        i = i + 1;
    }

    let ghost bks = buckets@;
    proof {
        assert forall|ii: int|
            1 <= ii < nfa.n() && (#[trigger] nfa.strs@[ii]).len() < 1 implies nfa.fail_ok(ii) by {
            assert(nfa.strs@[ii] =~= Seq::<u8>::empty());
            assert(nfa.idx@[nfa.strs@[ii]] == ii);
            assert(nfa.idx@[nfa.strs@[0]] == 0);
        }
    }
    let mut d: usize = 1;
    while d < buckets.len()
        invariant
            1 <= d,
            n == nfa.n(),
            buckets@ == bks,
            nfa.same_shape(*old(nfa)),
            nfa.wf_partial(nfa.pats@.len() as int),
            nfa.dom() == prefix_set(nfa.pats@),
            nfa.fail@[0] == 0,
            nfa.fails_done_below(d as int),
            forall|dd: int, j: int|
                0 <= dd < bks.len() && 0 <= j < bks[dd]@.len() ==> 1 <= (#[trigger] bks[dd]@[j]) < n
                    && nfa.depth@[bks[dd]@[j] as int] == dd,
            forall|c: int|
                1 <= c < n ==> nfa.depth@[c] < bks.len() && bks[nfa.depth@[c] as int]@.contains(
                    c as usize,
                ),
        decreases bks.len() - d,
    {
        let blen = buckets[d].len();
        let mut j: usize = 0;
        while j < blen
            invariant
                1 <= d < bks.len(),
                blen == bks[d as int]@.len(),
                n == nfa.n(),
                buckets@ == bks,
                nfa.same_shape(*old(nfa)),
                nfa.wf_partial(nfa.pats@.len() as int),
                nfa.dom() == prefix_set(nfa.pats@),
                nfa.fail@[0] == 0,
                nfa.fails_done_below(d as int),
                forall|jj: int| 0 <= jj < j ==> nfa.fail_ok(bks[d as int]@[jj] as int),
                forall|dd: int, jj: int|
                    0 <= dd < bks.len() && 0 <= jj < bks[dd]@.len() ==> 1 <= (
                    #[trigger] bks[dd]@[jj]) < n && nfa.depth@[bks[dd]@[jj] as int] == dd,
                forall|c: int|
                    1 <= c < n ==> nfa.depth@[c] < bks.len() && bks[nfa.depth@[c] as int]@.contains(
                        c as usize,
                    ),
            decreases blen - j,
        {
            let c = buckets[d][j];
            let ghost prev = *nfa;
            let ghost cs = nfa.strs@[c as int];
            if d == 1 {
                nfa.fail[c] = 0;
                proof {
                    assert(cs.drop_first() =~= Seq::<u8>::empty());
                    assert(nfa.fail_ok(c as int));
                }
            } else {
                let par = nfa.parent[c];
                let pb = nfa.pbyte[c];
                proof {
                    assert(cs == nfa.strs@[par as int].push(pb));
                    assert(nfa.strs@[par as int].len() == d - 1);
                    assert(par != 0);
                    assert(nfa.fail_ok(par as int)) by {
                        assert(nfa.strs@[par as int].len() < d);
                    }
                    lemma_lsuf_props(nfa.dom(), nfa.strs@[par as int].drop_first());
                }
                let pf = nfa.fail[par];
                proof {
                    assert(nfa.strs@[pf as int].len() + 1 <= d as int);
                    assert forall|ii: int|
                        1 <= ii < nfa.n() && (#[trigger] nfa.strs@[ii]).len() < nfa.strs@[pf as int].len()
                            + 1 implies nfa.fail_ok(ii) by {
                        assert(nfa.strs@[ii].len() < d);
                    }
                }
                let f = nfa.delta_build(pf, pb);
                nfa.fail[c] = f;
                proof {
                    assert(nfa.strs@[f as int] == lsuf(
                        nfa.dom(),
                        nfa.strs@[pf as int].push(pb),
                    ));
                    assert(cs.drop_first() =~= nfa.strs@[par as int].drop_first().push(pb));
                    lemma_lsuf_push(nfa.dom(), nfa.strs@[par as int].drop_first(), pb);
                    assert(nfa.fail_ok(c as int));
                }
            }
            proof {
                assert(nfa.fail@ == prev.fail@.update(c as int, nfa.fail@[c as int]));
                assert forall|jj: int| 0 <= jj < j + 1 implies nfa.fail_ok(
                    bks[d as int]@[jj] as int,
                ) by {
                    if jj < j {
                        let e = bks[d as int]@[jj] as int;
                        if e != c as int {
                            assert(prev.fail_ok(e));
                            assert(nfa.fail@[e] == prev.fail@[e]);
                        }
                    }
                }
                assert(nfa.fails_done_below(d as int)) by {
                    assert forall|ii: int|
                        1 <= ii < nfa.n() && (#[trigger] nfa.strs@[ii]).len() < d implies nfa.fail_ok(
                        ii,
                    ) by {
                        assert(ii != c as int);
                        assert(prev.fail_ok(ii));
                    }
                }
            }
            j = j + 1;
        }
        proof {
            assert forall|ii: int|
                1 <= ii < nfa.n() && (#[trigger] nfa.strs@[ii]).len() < d + 1 implies nfa.fail_ok(
                ii,
            ) by {
                if nfa.strs@[ii].len() == d as int {
                    assert(nfa.depth@[ii] == d);
                    assert(bks[d as int]@.contains(ii as usize));
                    let jj = choose|jj: int|
                        0 <= jj < bks[d as int]@.len() && bks[d as int]@[jj] == ii as usize;
                    assert(nfa.fail_ok(bks[d as int]@[jj] as int));
                }
            }
        }
        d = d + 1;
    }
    proof {
        assert forall|i: int| 1 <= i < nfa.n() implies #[trigger] nfa.fail@[i] < nfa.n()
            && nfa.strs@[nfa.fail@[i] as int] == lsuf(nfa.dom(), nfa.strs@[i].drop_first()) by {
            assert(nfa.depth@[i] < bks.len());
            assert(nfa.strs@[i].len() < d as int);
            assert(nfa.fail_ok(i));
        }
        assert(nfa.wf_fails());
    }
}

/// Find the child reached on byte `b` in a sparse transition row.
pub fn row_find(row: &Row, b: u8) -> (r: Option<usize>)
    ensures
        match r {
            Some(c) => exists|k: int| 0 <= k < row@.len() && row@[k] == (b, c),
            None => forall|k: int| 0 <= k < row@.len() ==> (#[trigger] row@[k]).0 != b,
        },
{
    let mut i: usize = 0;
    while i < row.len()
        invariant
            0 <= i <= row@.len(),
            forall|k: int| 0 <= k < i ==> (#[trigger] row@[k]).0 != b,
        decreases row@.len() - i,
    {
        let (eb, ec) = row[i];
        if eb == b {
            return Some(ec);
        }
        i = i + 1;
    }
    None
}

/// Build the trie over all pattern prefixes: one node per distinct prefix,
/// terminal ids registered at each pattern's node.  Failure links are left
/// for [`compute_fails`]; the root's stays 0.
pub fn build_trie(patterns: &Vec<Vec<u8>>) -> (r: Nfa)
    requires
        forall|p: int| 0 <= p < patterns@.len() ==> (#[trigger] patterns@[p])@.len() >= 1,
    ensures
        r.wf_partial(r.pats@.len() as int),
        r.pats@ == pats_view(patterns@),
        r.dom() == prefix_set(r.pats@),
        r.fail@ =~= Seq::new(r.trans@.len() as nat, |i: int| 0usize),
{
    let ghost pview = pats_view(patterns@);
    let mut pat_lens: Vec<usize> = Vec::new();
    let mut t: usize = 0;
    while t < patterns.len()
        invariant
            t <= patterns@.len(),
            pat_lens@.len() == t,
            pview == pats_view(patterns@),
            forall|p: int| 0 <= p < t ==> pat_lens@[p] == #[trigger] pview[p].len(),
        decreases patterns@.len() - t,
    {
        let l = patterns[t].len();
        pat_lens.push(l);
        t = t + 1;
    }

    let root_row: Row = Vec::new();
    let root_terms: Vec<usize> = Vec::new();
    let ghost strs0: Seq<Seq<u8>> = seq![Seq::<u8>::empty()];
    let ghost idx0: Map<Seq<u8>, int> = Map::<Seq<u8>, int>::empty().insert(
        Seq::<u8>::empty(),
        0,
    );
    let mut nfa = Nfa {
        trans: vec![root_row],
        fail: vec![0],
        terms: vec![root_terms],
        depth: vec![0],
        parent: vec![0],
        pbyte: vec![0],
        pat_lens,
        pats: Ghost(pview),
        strs: Ghost(strs0),
        idx: Ghost(idx0),
    };
    proof {
        lemma_prefix_set_empty();
        assert(pview.take(0) =~= Seq::<Seq<u8>>::empty());
        assert(nfa.dom() =~= prefix_set(pview.take(0)));
        assert forall|i: int| 0 <= i < nfa.n() implies ids_view(#[trigger] nfa.terms@[i]@)
            == ids_upto(nfa.pats@, nfa.strs@[i], 0) by {
            assert(ids_view(nfa.terms@[i]@) =~= Seq::<int>::empty());
        }
    }

    let mut q: usize = 0;
    while q < patterns.len()
        invariant
            q <= patterns@.len(),
            pview == pats_view(patterns@),
            forall|p: int| 0 <= p < patterns@.len() ==> (#[trigger] patterns@[p])@.len() >= 1,
            nfa.pats@ == pview,
            nfa.wf_partial(q as int),
            nfa.dom() == prefix_set(pview.take(q as int)),
            nfa.fail@ =~= Seq::new(nfa.trans@.len() as nat, |i: int| 0usize),
        decreases patterns@.len() - q,
    {
        let pat = &patterns[q];
        let ghost ps = pview[q as int];
        proof {
            assert(ps == pat@);
        }
        let mut cur: usize = 0;
        let mut k: usize = 0;
        proof {
            lemma_prefix_set_take0(pview.take(q as int), ps);
            assert(ps.take(0) =~= Seq::<u8>::empty());
        }
        while k < pat.len()
            invariant
                k <= pat@.len(),
                q < patterns@.len(),
                pview == pats_view(patterns@),
                ps == pat@,
                pat == &patterns[q as int],
                nfa.pats@ == pview,
                nfa.wf_partial(q as int),
                nfa.dom() == prefix_set(pview.take(q as int).push(ps.take(k as int))),
                cur < nfa.n(),
                nfa.strs@[cur as int] == ps.take(k as int),
                nfa.fail@ =~= Seq::new(nfa.trans@.len() as nat, |i: int| 0usize),
            decreases pat@.len() - k,
        {
            let b = pat[k];
            let ghost newstr = ps.take(k as int + 1);
            proof {
                assert(newstr =~= nfa.strs@[cur as int].push(b));
                lemma_prefix_set_snoc(pview.take(q as int), ps, k as int);
            }
            let r = row_find(&nfa.trans[cur], b);
            match r {
                Some(c) => {
                    proof {
                        let kk = choose|kk: int|
                            0 <= kk < nfa.trans@[cur as int]@.len() && nfa.trans@[cur as int]@[kk]
                                == (b, c);
                        assert(nfa.idx@.contains_key(newstr));
                        assert(nfa.strs@[c as int] == newstr);
                        assert(nfa.dom().insert(newstr) =~= nfa.dom());
                    }
                    cur = c;
                }
                None => {
                    let nid = nfa.trans.len();
                    proof {
                        if nfa.idx@.contains_key(newstr) {
                            let kk = choose|kk: int|
                                0 <= kk < nfa.trans@[cur as int]@.len() && (
                                #[trigger] nfa.trans@[cur as int]@[kk]).0 == b;
                            assert(false);
                        }
                    }
                    let ghost old_nfa = nfa;
                    let new_row: Row = Vec::new();
                    let new_terms: Vec<usize> = Vec::new();
                    nfa.trans.push(new_row);
                    nfa.fail.push(0);
                    nfa.terms.push(new_terms);
                    nfa.depth.push(k + 1);
                    nfa.parent.push(cur);
                    nfa.pbyte.push(b);
                    nfa.strs = Ghost(nfa.strs@.push(newstr));
                    nfa.idx = Ghost(nfa.idx@.insert(newstr, nid as int));
                    nfa.trans[cur].push((b, nid));
                    proof {
                        let n1 = old_nfa.n();
                        let n2 = nfa.n();
                        assert(n2 == n1 + 1);
                        assert(forall|i: int|
                            0 <= i < n1 && i != cur ==> nfa.trans@[i] == old_nfa.trans@[i]);
                        assert(nfa.trans@[cur as int]@ == old_nfa.trans@[cur as int]@.push(
                            (b, nid),
                        ));
                        assert(forall|i: int| 0 <= i < n1 ==> nfa.strs@[i] == old_nfa.strs@[i]);
                        assert(nfa.strs@[n1] == newstr);
                        // the new string is one byte longer than anything it could clash with
                        assert forall|u: Seq<u8>, a: u8| #[trigger] u.push(a) == newstr implies u
                            == old_nfa.strs@[cur as int] && a == b by {
                            assert(u =~= u.push(a).drop_last());
                            assert(old_nfa.strs@[cur as int] =~= newstr.drop_last());
                            assert(a == u.push(a)[u.len() as int]);
                        }
                        // the map stays a bijection
                        assert forall|i: int| 0 <= i < n2 implies nfa.idx@.contains_key(
                            #[trigger] nfa.strs@[i],
                        ) && nfa.idx@[nfa.strs@[i]] == i by {
                            if i < n1 {
                                assert(old_nfa.idx@.contains_key(old_nfa.strs@[i]));
                            }
                        }
                        // the string set stays closed under dropping the last byte
                        assert forall|u: Seq<u8>| nfa.dom().contains(u) && u.len() > 0 implies nfa.dom(
                        ).contains(#[trigger] u.drop_last()) by {
                            if u == newstr {
                                assert(newstr.drop_last() =~= ps.take(k as int));
                            } else {
                                assert(old_nfa.dom().contains(u));
                            }
                        }
                        assert(nfa.dom() =~= old_nfa.dom().insert(newstr));
                        assert(nfa.dom().len() == n2);
                        // depths, terminal ids and parent edges of the new node
                        assert(newstr.len() == k + 1);
                        lemma_ids_upto_props(nfa.pats@, newstr, q as int);
                        if ids_upto(nfa.pats@, newstr, q as int).len() > 0 {
                            let p = ids_upto(nfa.pats@, newstr, q as int)[0];
                            assert(pview[p] == newstr);
                            let a = pview.take(q as int);
                            let a2 = a.push(ps.take(k as int));
                            assert(a2[p].take(newstr.len() as int) =~= newstr);
                            assert(prefix_set(a2).contains(newstr));
                            assert(false);
                        }
                        assert(ids_view(nfa.terms@[n1]@) =~= Seq::<int>::empty());
                        assert(ids_upto(nfa.pats@, newstr, q as int) =~= Seq::<int>::empty());
                        assert forall|i: int| 0 <= i < n2 implies ids_view(#[trigger] nfa.terms@[i]@)
                            == ids_upto(nfa.pats@, nfa.strs@[i], q as int) by {
                            if i < n1 {
                                assert(nfa.terms@[i] == old_nfa.terms@[i]);
                            }
                        }
                        // transition rows still mean what the map says
                        assert forall|i: int, kk: int|
                            0 <= i < n2 && 0 <= kk < nfa.trans@[i]@.len() implies nfa.idx@.contains_key(
                            nfa.strs@[i].push((#[trigger] nfa.trans@[i]@[kk]).0),
                        ) && nfa.trans@[i]@[kk].1 == nfa.idx@[nfa.strs@[i].push(
                            nfa.trans@[i]@[kk].0,
                        )] by {
                            if i == cur as int && kk == nfa.trans@[i]@.len() - 1 {
                                assert(nfa.strs@[i].push(b) == newstr);
                            } else if i < n1 {
                                let e = nfa.trans@[i]@[kk];
                                assert(old_nfa.trans@[i]@[kk] == e);
                                assert(old_nfa.idx@.contains_key(old_nfa.strs@[i].push(e.0)));
                                if nfa.strs@[i].push(e.0) == newstr {
                                    assert(false);
                                }
                            }
                        }
                        assert forall|i: int, bb: u8|
                            0 <= i < n2 && nfa.idx@.contains_key(#[trigger] nfa.strs@[i].push(bb))
                                implies exists|kk: int|
                            0 <= kk < nfa.trans@[i]@.len() && (#[trigger] nfa.trans@[i]@[kk]).0
                                == bb by {
                            if nfa.strs@[i].push(bb) == newstr {
                                assert(i == cur as int && bb == b);
                                let last = nfa.trans@[i]@.len() - 1;
                                assert((nfa.trans@[i]@[last]).0 == bb);
                            } else if i < n1 {
                                assert(old_nfa.idx@.contains_key(old_nfa.strs@[i].push(bb)));
                                let kk = choose|kk: int|
                                    0 <= kk < old_nfa.trans@[i]@.len() && (
                                    #[trigger] old_nfa.trans@[i]@[kk]).0 == bb;
                                assert((nfa.trans@[i]@[kk]).0 == bb);
                            } else {
                                // a key one byte past the new leaf would make the new
                                // string an old one by closure
                                assert(nfa.dom().contains(newstr.push(bb)));
                                assert(newstr.push(bb) != newstr);
                                assert(old_nfa.dom().contains(newstr.push(bb)));
                                assert(old_nfa.dom().contains(newstr.push(bb).drop_last()));
                                assert(newstr.push(bb).drop_last() =~= newstr);
                                assert(false);
                            }
                        }
                        assert(nfa.wf_partial(q as int));
                        assert(nfa.fail@ =~= Seq::new(nfa.trans@.len() as nat, |i: int| 0usize));
                    }
                    cur = nid;
                }
            }
            k = k + 1;
        }
        proof {
            assert(nfa.strs@[cur as int] == ps) by {
                assert(ps.take(k as int) =~= ps);
            }
        }
        let ghost before = nfa;
        nfa.terms[cur].push(q);
        proof {
            assert(nfa.terms@[cur as int]@ == before.terms@[cur as int]@.push(q));
            assert forall|i: int| 0 <= i < nfa.n() implies ids_view(#[trigger] nfa.terms@[i]@)
                == ids_upto(nfa.pats@, nfa.strs@[i], q as int + 1) by {
                if i == cur as int {
                    assert(pview[q as int] == nfa.strs@[i]);
                    assert(ids_view(nfa.terms@[i]@) =~= ids_view(before.terms@[i]@).push(q as int));
                    assert(ids_upto(nfa.pats@, nfa.strs@[i], q as int + 1) =~= ids_upto(
                        nfa.pats@,
                        nfa.strs@[i],
                        q as int,
                    ).push(q as int));
                } else {
                    assert(nfa.terms@[i] == before.terms@[i]);
                    assert(pview[q as int] != nfa.strs@[i]) by {
                        assert(nfa.idx@[nfa.strs@[cur as int]] == cur as int);
                        assert(nfa.idx@[nfa.strs@[i]] == i);
                    }
                    assert(ids_upto(nfa.pats@, nfa.strs@[i], q as int + 1) =~= ids_upto(
                        nfa.pats@,
                        nfa.strs@[i],
                        q as int,
                    ));
                }
            }
            assert(nfa.wf_partial(q as int + 1));
            assert(ps.take(k as int) =~= ps);
            assert(pview.take(q as int).push(ps) =~= pview.take(q as int + 1));
            assert(nfa.dom() == prefix_set(pview.take(q as int + 1)));
        }
        q = q + 1;
    }
    proof {
        assert(pview.take(patterns@.len() as int) =~= pview);
    }
    nfa
}

} // verus!
