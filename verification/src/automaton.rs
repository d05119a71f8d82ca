//! The byte-mode public surface: build an automaton over byte patterns and
//! scan byte haystacks.

use crate::matching::{
    kind_matches, overlapping_matches, prefix_set, triples_view, MatchKind,
};
use crate::repr::{compile_contig, compile_dfa, Repr};
use crate::scan::{lens_ok, scan_leftmost, scan_overlapping, scan_standard};
use crate::trie::{build_trie, compute_fails, pats_view};
use vstd::prelude::*;

verus! {

/// Why a call failed.
#[derive(Clone, Copy, Debug, PartialEq, Eq, Structural)]
pub enum AcError {
    /// A zero-length pattern was supplied; no automaton is built.
    EmptyPattern,
    /// The requested representation's size limit was exceeded.
    Build,
    /// Overlapping enumeration was requested under a match kind that cannot
    /// support it.
    UnsupportedOperation,
}

impl AcError {
    /// A human-readable description of the error.
    pub fn message(&self) -> (r: &'static str)
    {
        match self {
            AcError::EmptyPattern => "patterns must not be empty",
            AcError::Build => "automaton construction exceeded a size limit",
            AcError::UnsupportedOperation => "overlapping matches require standard match kind",
        }
    }
}

/// Which internal transition encoding to build.
#[derive(Clone, Copy, Debug, PartialEq, Eq, Structural)]
pub enum Implementation {
    /// Sparse per-node transition lists: lowest memory, slowest lookup.
    NoncontiguousNFA,
    /// Transitions laid out contiguously: cache-friendlier lookup.
    ContiguousNFA,
    /// Full dense transition table: fastest scanning, most memory.
    DFA,
}

/// States above this bound refuse the dense representation, whose table
/// grows by 256 entries per state.
pub const DFA_STATE_LIMIT: usize = 65536;

/// A built, immutable multi-pattern matcher over byte patterns.
pub struct BytesAhoCorasick {
    /// The transition structure, in the representation requested at build
    /// time.
    pub repr: Repr,
    /// Byte length of each pattern, by id.
    pub pat_lens: Vec<usize>,
    /// The match-kind policy fixed at build time.
    pub kind: MatchKind,
}

impl BytesAhoCorasick {
    /// The patterns the automaton was built from, in registration order.
    pub open spec fn pats(self) -> Seq<Seq<u8>> {
        self.repr.src().pats@
    }

    /// The match kind fixed at build time.
    pub open spec fn match_kind(self) -> MatchKind {
        self.kind
    }

    /// A validly built automaton.
    pub open spec fn wf(self) -> bool {
        &&& self.repr.wf()
        &&& lens_ok(self.pat_lens@, self.pats())
    }

    /// Build an automaton for `patterns` with the given match kind and
    /// representation.  Fails with `EmptyPattern` exactly when some pattern
    /// is empty, and with `Build` exactly when the dense representation is
    /// requested and the trie exceeds [`DFA_STATE_LIMIT`] states.
    pub fn new(patterns: &Vec<Vec<u8>>, kind: MatchKind, implementation: Implementation) -> (r:
        Result<Self, AcError>)
        ensures
            match r {
                Ok(a) => {
                    &&& a.wf()
                    &&& a.pats() == pats_view(patterns@)
                    &&& a.match_kind() == kind
                    &&& forall|p: int|
                        0 <= p < patterns@.len() ==> (#[trigger] patterns@[p])@.len() >= 1
                    &&& (implementation == Implementation::DFA ==> prefix_set(
                        pats_view(patterns@),
                    ).len() <= DFA_STATE_LIMIT)
                },
                Err(e) => match e {
                    AcError::EmptyPattern => exists|p: int|
                        0 <= p < patterns@.len() && (#[trigger] patterns@[p])@.len() == 0,
                    AcError::Build => {
                        &&& forall|p: int|
                            0 <= p < patterns@.len() ==> (#[trigger] patterns@[p])@.len() >= 1
                        &&& implementation == Implementation::DFA
                        &&& prefix_set(pats_view(patterns@)).len() > DFA_STATE_LIMIT
                    },
                    AcError::UnsupportedOperation => false,
                },
            },
    {
        let mut q: usize = 0;
        while q < patterns.len()
            invariant
                q <= patterns@.len(),
                forall|p: int| 0 <= p < q ==> (#[trigger] patterns@[p])@.len() >= 1,
            decreases patterns@.len() - q,
        {
            if patterns[q].len() == 0 {
                return Err(AcError::EmptyPattern);
            }
            q = q + 1;
        }
        let mut nfa = build_trie(patterns);
        compute_fails(&mut nfa);
        let mut pat_lens: Vec<usize> = Vec::new();
        let mut t: usize = 0;
        while t < nfa.pat_lens.len()
            invariant
                t <= nfa.pat_lens@.len(),
                pat_lens@ == nfa.pat_lens@.take(t as int),
            decreases nfa.pat_lens@.len() - t,
        {
            let l = nfa.pat_lens[t];
            pat_lens.push(l);
            proof {
                assert(pat_lens@ =~= nfa.pat_lens@.take(t as int + 1));
            }
            t = t + 1;
        }
        proof {
            assert(nfa.pat_lens@.take(nfa.pat_lens@.len() as int) =~= nfa.pat_lens@);
        }
        let repr = match implementation {
            Implementation::NoncontiguousNFA => Repr::Sparse(nfa),
            Implementation::ContiguousNFA => {
                let c = compile_contig(&nfa);
                Repr::Contiguous(c)
            },
            Implementation::DFA => {
                if nfa.trans.len() > DFA_STATE_LIMIT {
                    return Err(AcError::Build);
                }
                let d = compile_dfa(&nfa);
                Repr::Dense(d)
            },
        };
        Ok(BytesAhoCorasick { repr, pat_lens, kind })
    }

    /// The matches in `haystack` as `(pattern id, start, end)` byte-offset
    /// triples.  With `overlapping` set, every occurrence is reported
    /// (standard kind only: other kinds fail with `UnsupportedOperation`);
    /// otherwise the kind's non-overlapping selection is reported.
    pub fn find_matches_as_indexes(&self, haystack: &[u8], overlapping: bool) -> (r: Result<
        Vec<(usize, usize, usize)>,
        AcError,
    >)
        requires
            self.wf(),
        ensures
            match r {
                Ok(v) => {
                    &&& !(overlapping && self.match_kind() != MatchKind::Standard)
                    &&& overlapping ==> triples_view(v@) == overlapping_matches(
                        self.pats(),
                        haystack@,
                    )
                    &&& !overlapping ==> triples_view(v@) == kind_matches(
                        self.pats(),
                        haystack@,
                        self.match_kind(),
                    )
                },
                Err(e) => {
                    &&& e == AcError::UnsupportedOperation
                    &&& overlapping && self.match_kind() != MatchKind::Standard
                },
            },
    {
        if overlapping {
            match self.kind {
                MatchKind::Standard => Ok(scan_overlapping(&self.repr, &self.pat_lens, haystack)),
                _ => Err(AcError::UnsupportedOperation),
            }
        } else {
            match self.kind {
                MatchKind::Standard => Ok(scan_standard(&self.repr, &self.pat_lens, haystack)),
                _ => Ok(scan_leftmost(&self.repr, &self.pat_lens, haystack, self.kind)),
            }
        }
    }
}

} // verus!
