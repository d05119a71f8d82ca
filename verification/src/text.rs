//! The text-mode surface: UTF-8 haystacks and patterns, with match offsets
//! reported in codepoints rather than bytes, and matched text recoverable as
//! strings.

use crate::automaton::{AcError, BytesAhoCorasick, Implementation, DFA_STATE_LIMIT};
use crate::matching::{
    kind_matches, lemma_matches_occur, lemma_ov_from_occurs, occurs_at, overlapping_matches,
    prefix_set, triples_view, MatchKind, SpecMatch,
};
use crate::trie::pats_view;
use vstd::prelude::*;
use vstd::string::{StrSliceExecFns, StringSliceAdditionalSpecFns};
use vstd::utf8::{
    decode_utf8, encode_utf8, encode_utf8_valid_utf8, is_char_boundary, is_char_boundary_iff_not_is_continuation_byte,
    is_char_boundary_start_end_of_seq, is_continuation_byte, length_of_first_scalar,
    pop_first_scalar, valid_first_scalar, valid_utf8, valid_utf8_split,
};

verus! {

/// The number of codepoints that begin strictly before byte offset `i`: the
/// count of non-continuation bytes among the first `i`.
pub open spec fn cp_count(bytes: Seq<u8>, i: int) -> int
    decreases i,
{
    if i <= 0 {
        0
    } else {
        cp_count(bytes, i - 1) + if is_continuation_byte(bytes[i - 1]) {
            0int
        } else {
            1int
        }
    }
}

/// The codepoint count over a prefix never exceeds its byte count.
pub proof fn lemma_cp_count_bound(bytes: Seq<u8>, i: int)
    ensures
        0 <= cp_count(bytes, i),
        i >= 0 ==> cp_count(bytes, i) <= i,
    decreases i,
{
    if i > 0 {
        lemma_cp_count_bound(bytes, i - 1);
    }
}

/// Only the bytes below `i` matter to the count.
proof fn lemma_cp_count_agree(a: Seq<u8>, b: Seq<u8>, i: int)
    requires
        forall|k: int| 0 <= k < i ==> a[k] == b[k],
    ensures
        cp_count(a, i) == cp_count(b, i),
    decreases i,
{
    if i > 0 {
        lemma_cp_count_agree(a, b, i - 1);
    }
}

/// Counting from an offset on is counting over the remainder.
proof fn lemma_cp_count_skip(bytes: Seq<u8>, l: int, i: int)
    requires
        0 <= l <= i <= bytes.len(),
    ensures
        cp_count(bytes, i) == cp_count(bytes, l) + cp_count(bytes.skip(l), i - l),
    decreases i - l,
{
    if i > l {
        lemma_cp_count_skip(bytes, l, i - 1);
        assert(bytes.skip(l)[i - l - 1] == bytes[i - 1]);
    }
}

/// A single scalar's encoding counts as exactly one codepoint: its leading
/// byte is no continuation byte, and the rest are.
proof fn lemma_cp_count_first_scalar(bytes: Seq<u8>)
    requires
        valid_first_scalar(bytes),
    ensures
        1 <= length_of_first_scalar(bytes) <= bytes.len(),
        cp_count(bytes, length_of_first_scalar(bytes)) == 1,
{
    let l = length_of_first_scalar(bytes);
    assert(cp_count(bytes, 0) == 0);
    assert(cp_count(bytes, 1) == 1);
    if l >= 2 {
        assert(cp_count(bytes, 2) == 1);
    }
    if l >= 3 {
        assert(cp_count(bytes, 3) == 1);
    }
    if l >= 4 {
        assert(cp_count(bytes, 4) == 1);
    }
}

/// Over a whole valid encoding, the count of non-continuation bytes is the
/// number of encoded characters.
pub proof fn lemma_cp_count_is_char_count(bytes: Seq<u8>)
    requires
        valid_utf8(bytes),
    ensures
        cp_count(bytes, bytes.len() as int) == decode_utf8(bytes).len(),
    decreases bytes.len(),
{
    if bytes.len() > 0 {
        let l = length_of_first_scalar(bytes);
        lemma_cp_count_first_scalar(bytes);
        lemma_cp_count_skip(bytes, l, bytes.len() as int);
        assert(pop_first_scalar(bytes) =~= bytes.skip(l));
        lemma_cp_count_is_char_count(pop_first_scalar(bytes));
    }
}

/// At a character boundary, the count of non-continuation bytes before the
/// boundary is the index, in characters, of the text that starts there.
pub proof fn lemma_cp_count_is_char_index(bytes: Seq<u8>, k: int)
    requires
        valid_utf8(bytes),
        is_char_boundary(bytes, k),
        0 <= k <= bytes.len(),
    ensures
        cp_count(bytes, k) == decode_utf8(bytes.take(k)).len(),
{
    valid_utf8_split(bytes, k);
    lemma_cp_count_is_char_count(bytes.take(k));
    lemma_cp_count_agree(bytes, bytes.take(k), k);
}

/// Map every byte offset of `haystack` (the one-past-the-end offset
/// included) to the index of the codepoint starting there.  Offsets interior
/// to a multi-byte codepoint — which never appear as match boundaries — get
/// `usize::MAX` as a sentinel, as does offset 0 of an empty haystack.
pub fn get_byte_to_code_point(haystack: &str) -> (r: Vec<usize>)
    ensures
        r@.len() == haystack.spec_bytes().len() + 1,
        forall|b: int|
            0 <= b < haystack.spec_bytes().len() ==> #[trigger] r@[b] == if is_continuation_byte(
                haystack.spec_bytes()[b],
            ) {
                usize::MAX as usize
            } else {
                cp_count(haystack.spec_bytes(), b) as usize
            },
        haystack.spec_bytes().len() > 0 ==> r@[haystack.spec_bytes().len() as int] as int
            == cp_count(haystack.spec_bytes(), haystack.spec_bytes().len() as int),
        haystack.spec_bytes().len() == 0 ==> r@[0] == usize::MAX,
{
    let bs = haystack.as_bytes();
    let n = bs.len();
    let ghost bv = haystack.spec_bytes();
    let mut out: Vec<usize> = Vec::new();
    let mut count: usize = 0;
    let mut i: usize = 0;
    while i < n
        invariant
            i <= n,
            n == bv.len(),
            bs@ == bv,
            out@.len() == i,
            count as int == cp_count(bv, i as int),
            count <= i,
            forall|b: int|
                0 <= b < i ==> #[trigger] out@[b] == if is_continuation_byte(bv[b]) {
                    usize::MAX as usize
                } else {
                    cp_count(bv, b) as usize
                },
        decreases n - i,
    {
        let b = bs[i];
        if 0x80 <= b && b <= 0xbf {
            out.push(usize::MAX);
        } else {
            out.push(count);
            count = count + 1;
        }
        i = i + 1;
    }
    if n == 0 {
        out.push(usize::MAX);
    } else {
        out.push(count);
    }
    out
}

/// A byte-level occurrence of one encoded text inside another is a
/// character-level occurrence: the haystack's characters between the
/// translated offsets are exactly the pattern's.
pub proof fn lemma_byte_match_is_char_match(h: Seq<char>, p: Seq<char>, s: int, e: int)
    requires
        p.len() > 0,
        0 <= s <= e <= encode_utf8(h).len(),
        encode_utf8(h).subrange(s, e) == encode_utf8(p),
    ensures
        ({
            let cs = cp_count(encode_utf8(h), s);
            let ce = cp_count(encode_utf8(h), e);
            &&& 0 <= cs <= ce <= h.len()
            &&& ce - cs == p.len()
            &&& h.subrange(cs, ce) == p
        }),
{
    broadcast use is_char_boundary_iff_not_is_continuation_byte;
    broadcast use is_char_boundary_start_end_of_seq;

    let hb = encode_utf8(h);
    let pb = encode_utf8(p);
    encode_utf8_valid_utf8(h);
    encode_utf8_valid_utf8(p);
    lemma_encode_empty(p);
    lemma_match_boundaries(hb, pb, s);
    let cs = cp_count(hb, s);
    let ce = cp_count(hb, e);
    lemma_cp_count_bound(hb, s);
    // the count over the match's bytes is the pattern's character count
    lemma_cp_count_skip(hb, s, e);
    lemma_cp_count_agree(hb.skip(s), pb, e - s);
    lemma_cp_count_is_char_count(pb);
    vstd::utf8::encode_utf8_decode_utf8(p);
    assert(ce == cs + p.len());
    // decompose the decoded haystack around the match
    vstd::utf8::decode_utf8_split(hb, s);
    vstd::utf8::encode_utf8_decode_utf8(h);
    lemma_cp_count_is_char_index(hb, s);
    valid_utf8_split(hb, s);
    let hb2 = hb.subrange(s, hb.len() as int);
    assert(hb2 =~= hb.skip(s));
    assert(is_char_boundary(hb2, e - s)) by {
        if e < hb.len() {
            assert(hb2[e - s] == hb[e]);
            assert(!is_continuation_byte(hb[e]));
        } else {
            assert(e - s == hb2.len());
        }
    }
    vstd::utf8::decode_utf8_split(hb2, e - s);
    assert(hb2.subrange(0, e - s) =~= pb);
    vstd::utf8::encode_utf8_decode_utf8(p);
    // h == (chars before) + p + (chars after)
    let before = decode_utf8(hb.subrange(0, s));
    let after = decode_utf8(hb2.subrange(e - s, hb2.len() as int));
    assert(hb.subrange(0, s) =~= hb.take(s));
    assert(h == before + (p + after));
    assert(before.len() == cs);
    assert(h.subrange(cs, ce) =~= p);
}

/// The byte encodings of a list of pattern strings.
pub open spec fn str_pats_view(ps: Seq<String>) -> Seq<Seq<u8>> {
    ps.map_values(|s: String| encode_utf8(s@))
}

/// A UTF-8 encoding is empty exactly when the encoded text is.
pub proof fn lemma_encode_empty(chars: Seq<char>)
    ensures
        encode_utf8(chars).len() == 0 <==> chars.len() == 0,
{
    if chars.len() > 0 {
        vstd::utf8::char_is_scalar(chars[0]);
    }
}

/// Whether original pattern text is kept for string lookups.
#[derive(Clone, Copy, Debug, PartialEq, Eq, Structural)]
pub enum RetentionPolicy {
    /// Keep every pattern.
    Always,
    /// Keep none; matched text is sliced back out of the haystack.
    Never,
    /// Keep a prefix of the patterns until their total size passes a budget.
    Heuristic,
}

/// The byte budget at which the heuristic retention policy stops keeping
/// pattern text.
pub const RETENTION_BYTE_BUDGET: usize = 4096;

/// How many leading patterns the heuristic policy retains: each pattern is
/// kept and charged against the remaining budget; the first one to exceed it
/// is still kept, and everything after it is dropped.
pub open spec fn retained_count(pats: Seq<Seq<u8>>, budget: int) -> int
    decreases pats.len(),
{
    if pats.len() == 0 {
        0
    } else if pats[0].len() > budget {
        1
    } else {
        1 + retained_count(pats.drop_first(), budget - pats[0].len())
    }
}

/// A built, immutable multi-pattern matcher over text patterns, reporting
/// offsets in codepoints.
pub struct AhoCorasick {
    /// The byte-level automaton over the patterns' UTF-8 encodings.
    pub inner: BytesAhoCorasick,
    /// The retained pattern text: a prefix of the patterns, per policy.
    pub stored: Vec<String>,
    /// The patterns' text.
    pub pat_chars: Ghost<Seq<Seq<char>>>,
}

impl AhoCorasick {
    /// The UTF-8 encodings of the patterns, in registration order.
    pub open spec fn pats_bytes(self) -> Seq<Seq<u8>> {
        self.inner.pats()
    }

    /// The match kind fixed at build time.
    pub open spec fn match_kind(self) -> MatchKind {
        self.inner.kind
    }

    /// The byte-offset match sequence that a scan must translate.
    pub open spec fn byte_matches(self, hb: Seq<u8>, overlapping: bool) -> Seq<SpecMatch> {
        if overlapping {
            overlapping_matches(self.pats_bytes(), hb)
        } else {
            kind_matches(self.pats_bytes(), hb, self.match_kind())
        }
    }

    /// A validly built text matcher: the byte automaton runs over the
    /// patterns' encodings, and any stored text is the corresponding
    /// pattern's.
    pub open spec fn wf(self) -> bool {
        &&& self.inner.wf()
        &&& self.pat_chars@.len() == self.pats_bytes().len()
        &&& forall|p: int|
            0 <= p < self.pat_chars@.len() ==> self.pats_bytes()[p] == encode_utf8(
                #[trigger] self.pat_chars@[p],
            )
        &&& self.stored@.len() <= self.pat_chars@.len()
        &&& forall|j: int|
            0 <= j < self.stored@.len() ==> (#[trigger] self.stored@[j])@ == self.pat_chars@[j]
    }

    /// Build a text matcher.  Fails with `EmptyPattern` exactly when some
    /// pattern is the empty string, and with `Build` exactly when the dense
    /// representation is requested and the trie exceeds its state limit.
    pub fn new(
        patterns: &Vec<String>,
        kind: MatchKind,
        implementation: Implementation,
        policy: RetentionPolicy,
    ) -> (r: Result<Self, AcError>)
        ensures
            match r {
                Ok(a) => {
                    &&& a.wf()
                    &&& a.pats_bytes() == str_pats_view(patterns@)
                    &&& a.pat_chars@.len() == patterns@.len()
                    &&& forall|p: int|
                        0 <= p < patterns@.len() ==> a.pat_chars@[p] == (
                        #[trigger] patterns@[p])@
                    &&& a.match_kind() == kind
                    &&& forall|p: int| 0 <= p < patterns@.len() ==> (#[trigger] patterns@[p])@.len() >= 1
                    &&& (implementation == Implementation::DFA ==> prefix_set(
                        str_pats_view(patterns@),
                    ).len() <= DFA_STATE_LIMIT)
                    &&& a.stored@.len() == match policy {
                        RetentionPolicy::Always => patterns@.len() as int,
                        RetentionPolicy::Never => 0int,
                        RetentionPolicy::Heuristic => retained_count(
                            str_pats_view(patterns@),
                            RETENTION_BYTE_BUDGET as int,
                        ),
                    }
                },
                Err(e) => match e {
                    AcError::EmptyPattern => exists|p: int|
                        0 <= p < patterns@.len() && (#[trigger] patterns@[p])@.len() == 0,
                    AcError::Build => {
                        &&& implementation == Implementation::DFA
                        &&& prefix_set(str_pats_view(patterns@)).len() > DFA_STATE_LIMIT
                    },
                    AcError::UnsupportedOperation => false,
                },
            },
    {
        let ghost spv = str_pats_view(patterns@);
        let mut bpats: Vec<Vec<u8>> = Vec::new();
        let mut q: usize = 0;
        while q < patterns.len()
            invariant
                q <= patterns@.len(),
                bpats@.len() == q,
                spv == str_pats_view(patterns@),
                forall|j: int|
                    0 <= j < q ==> (#[trigger] bpats@[j])@ == encode_utf8(patterns@[j]@),
            decreases patterns@.len() - q,
        {
            let s = patterns[q].as_str();
            let bv = s.as_bytes_vec();
            bpats.push(bv);
            q = q + 1;
        }
        proof {
            assert(pats_view(bpats@) =~= spv);
        }
        let inner = match BytesAhoCorasick::new(&bpats, kind, implementation) {
            Err(e) => {
                proof {
                    if e == AcError::EmptyPattern {
                        let p = choose|p: int|
                            0 <= p < bpats@.len() && (#[trigger] bpats@[p])@.len() == 0;
                        lemma_encode_empty(patterns@[p]@);
                    }
                }
                return Err(e);
            },
            Ok(a) => a,
        };
        proof {
            assert forall|p: int| 0 <= p < patterns@.len() implies (
            #[trigger] patterns@[p])@.len() >= 1 by {
                assert(pats_view(bpats@)[p] == encode_utf8(patterns@[p]@));
                lemma_encode_empty(patterns@[p]@);
            }
        }
        let cnt: usize = match policy {
            RetentionPolicy::Always => patterns.len(),
            RetentionPolicy::Never => 0,
            RetentionPolicy::Heuristic => {
                let mut k: usize = 0;
                let mut budget: usize = RETENTION_BYTE_BUDGET;
                let mut crossed = false;
                proof {
                    assert(spv.skip(0) =~= spv);
                }
                while k < bpats.len() && !crossed
                    invariant
                        k <= patterns@.len(),
                        spv == str_pats_view(patterns@),
                        spv.len() == patterns@.len(),
                        bpats@.len() == patterns@.len(),
                        forall|j: int|
                            0 <= j < patterns@.len() ==> (#[trigger] bpats@[j])@ == encode_utf8(
                                patterns@[j]@,
                            ),
                        !crossed ==> retained_count(spv, RETENTION_BYTE_BUDGET as int) == k
                            + retained_count(spv.skip(k as int), budget as int),
                        crossed ==> retained_count(spv, RETENTION_BYTE_BUDGET as int) == k,
                        k <= patterns@.len(),
                    decreases patterns@.len() - k,
                {
                    let l = bpats[k].len();
                    proof {
                        assert(bpats@[k as int]@ == encode_utf8(patterns@[k as int]@));
                        assert(spv.skip(k as int)[0] == spv[k as int]);
                        assert(spv[k as int] == encode_utf8(patterns@[k as int]@));
                        assert(l == spv.skip(k as int)[0].len());
                        assert(spv.skip(k as int).drop_first() =~= spv.skip(k as int + 1));
                    }
                    k = k + 1;
                    if l > budget {
                        crossed = true;
                    } else {
                        budget = budget - l;
                    }
                }
                proof {
                    if !crossed {
                        assert(spv.skip(k as int) =~= Seq::<Seq<u8>>::empty());
                    }
                }
                k
            },
        };
        let mut stored: Vec<String> = Vec::new();
        let mut j: usize = 0;
        while j < cnt
            invariant
                j <= cnt,
                cnt <= patterns@.len(),
                stored@.len() == j,
                forall|t: int| 0 <= t < j ==> (#[trigger] stored@[t])@ == patterns@[t]@,
            decreases cnt - j,
        {
            let s = patterns[j].clone();
            stored.push(s);
            j = j + 1;
        }
        let ghost pat_chars = patterns@.map_values(|s: String| s@);
        proof {
            assert forall|p: int| 0 <= p < patterns@.len() implies inner.pats()[p] == encode_utf8(
                #[trigger] pat_chars[p],
            ) by {
                assert(pats_view(bpats@)[p] == encode_utf8(patterns@[p]@));
            }
        }
        Ok(AhoCorasick { inner, stored, pat_chars: Ghost(pat_chars) })
    }
}

impl AhoCorasick {
    /// The matches in `haystack` as `(pattern id, start, end)` triples whose
    /// offsets count codepoints, not bytes.  With `overlapping` set, every
    /// occurrence is reported (standard kind only); otherwise the kind's
    /// non-overlapping selection is reported.
    pub fn find_matches_as_indexes(&self, haystack: &str, overlapping: bool) -> (r: Result<
        Vec<(usize, usize, usize)>,
        AcError,
    >)
        requires
            self.wf(),
        ensures
            match r {
                Ok(v) => {
                    &&& !(overlapping && self.match_kind() != MatchKind::Standard)
                    &&& v@.len() == self.byte_matches(haystack.spec_bytes(), overlapping).len()
                    &&& forall|j: int|
                        0 <= j < v@.len() ==> {
                            let bm = self.byte_matches(haystack.spec_bytes(), overlapping)[j];
                            &&& (#[trigger] v@[j]).0 as int == bm.0
                            &&& v@[j].1 as int == cp_count(haystack.spec_bytes(), bm.1)
                            &&& v@[j].2 as int == cp_count(haystack.spec_bytes(), bm.2)
                            &&& v@[j].1 as int == decode_utf8(
                                haystack.spec_bytes().take(bm.1),
                            ).len()
                            &&& v@[j].2 as int == decode_utf8(
                                haystack.spec_bytes().take(bm.2),
                            ).len()
                            &&& v@[j].1 <= v@[j].2 <= haystack@.len()
                            &&& haystack@.subrange(v@[j].1 as int, v@[j].2 as int)
                                == self.pat_chars@[bm.0]
                        }
                },
                Err(e) => {
                    &&& e == AcError::UnsupportedOperation
                    &&& overlapping && self.match_kind() != MatchKind::Standard
                },
            },
    {
        let ghost hb = haystack.spec_bytes();
        let ghost pats = self.pats_bytes();
        let map = get_byte_to_code_point(haystack);
        let bs = haystack.as_bytes();
        let bres = match self.inner.find_matches_as_indexes(bs, overlapping) {
            Err(e) => {
                return Err(e);
            },
            Ok(v) => v,
        };
        let ghost bt = self.byte_matches(hb, overlapping);
        proof {
            assert(triples_view(bres@) == bt);
            encode_utf8_valid_utf8(haystack@);
        }
        let mut out: Vec<(usize, usize, usize)> = Vec::new();
        let mut j: usize = 0;
        while j < bres.len()
            invariant
                j <= bres@.len(),
                self.wf(),
                hb == haystack.spec_bytes(),
                pats == self.pats_bytes(),
                valid_utf8(hb),
                bt == self.byte_matches(hb, overlapping),
                triples_view(bres@) == bt,
                map@.len() == hb.len() + 1,
                forall|b: int|
                    0 <= b < hb.len() ==> #[trigger] map@[b] == if is_continuation_byte(hb[b]) {
                        usize::MAX as usize
                    } else {
                        cp_count(hb, b) as usize
                    },
                hb.len() > 0 ==> map@[hb.len() as int] as int == cp_count(hb, hb.len() as int),
                out@.len() == j,
                hb == encode_utf8(haystack@),
                forall|t: int|
                    0 <= t < j ==> {
                        let bm = bt[t];
                        &&& (#[trigger] out@[t]).0 as int == bm.0
                        &&& out@[t].1 as int == cp_count(hb, bm.1)
                        &&& out@[t].2 as int == cp_count(hb, bm.2)
                        &&& out@[t].1 as int == decode_utf8(hb.take(bm.1)).len()
                        &&& out@[t].2 as int == decode_utf8(hb.take(bm.2)).len()
                        &&& out@[t].1 <= out@[t].2 <= haystack@.len()
                        &&& haystack@.subrange(out@[t].1 as int, out@[t].2 as int)
                            == self.pat_chars@[bm.0]
                    },
            decreases bres@.len() - j,
        {
            let m = bres[j];
            proof {
                assert(triples_view(bres@)[j as int] == bt[j as int]);
                if overlapping {
                    lemma_ov_from_occurs(pats, hb, 0, j as int);
                } else {
                    lemma_matches_occur(pats, hb, self.match_kind(), j as int);
                }
                assert(occurs_at(pats, hb, bt[j as int]));
                let pid = bt[j as int].0;
                assert(pats[pid].len() >= 1);
                encode_utf8_valid_utf8(self.pat_chars@[pid]);
                assert(valid_utf8(pats[pid]));
                lemma_match_boundaries(hb, pats[pid], bt[j as int].1);
                broadcast use is_char_boundary_iff_not_is_continuation_byte;

                assert(bt[j as int].1 == m.1 as int && bt[j as int].2 == m.2 as int);
                assert(m.1 < hb.len());
                assert(is_char_boundary(hb, m.1 as int));
                assert(!is_continuation_byte(hb[m.1 as int]));
                lemma_cp_count_bound(hb, m.1 as int);
                lemma_cp_count_bound(hb, m.2 as int);
                assert(map@[m.1 as int] as int == cp_count(hb, m.1 as int));
                if m.2 < hb.len() {
                    assert(is_char_boundary(hb, m.2 as int));
                    assert(!is_continuation_byte(hb[m.2 as int]));
                    assert(map@[m.2 as int] as int == cp_count(hb, m.2 as int));
                } else {
                    assert(m.2 == hb.len());
                    assert(hb.len() > 0);
                    assert(map@[m.2 as int] as int == cp_count(hb, m.2 as int));
                }
                lemma_cp_count_is_char_index(hb, m.1 as int);
                lemma_cp_count_is_char_index(hb, m.2 as int);
                lemma_encode_empty(self.pat_chars@[pid]);
                lemma_byte_match_is_char_match(
                    haystack@,
                    self.pat_chars@[pid],
                    m.1 as int,
                    m.2 as int,
                );
            }
            let cs = map[m.1];
            let ce = map[m.2];
            out.push((m.0, cs, ce));
            j = j + 1;
        }
        Ok(out)
    }

    /// The original pattern text registered under `pattern_id`, when the
    /// retention policy kept it; `None` for ids past the retained prefix
    /// (matched text is then recovered by slicing the haystack) or out of
    /// range.
    pub fn get_pattern(&self, pattern_id: usize) -> (r: Option<String>)
        requires
            self.wf(),
        ensures
            match r {
                Some(s) => pattern_id < self.stored@.len() && s@ == self.pat_chars@[
                    pattern_id as int
                ],
                None => pattern_id >= self.stored@.len(),
            },
    {
        if pattern_id < self.stored.len() {
            Some(self.stored[pattern_id].clone())
        } else {
            None
        }
    }

    /// The matched text of each match, as fresh strings: cloned from the
    /// retained patterns where available, sliced back out of the haystack
    /// otherwise.  Either way each returned string is exactly the matched
    /// pattern's text.
    pub fn find_matches_as_strings(&self, haystack: &str, overlapping: bool) -> (r: Result<
        Vec<String>,
        AcError,
    >)
        requires
            self.wf(),
        ensures
            match r {
                Ok(v) => {
                    &&& !(overlapping && self.match_kind() != MatchKind::Standard)
                    &&& v@.len() == self.byte_matches(haystack.spec_bytes(), overlapping).len()
                    &&& forall|j: int|
                        0 <= j < v@.len() ==> (#[trigger] v@[j])@ == self.pat_chars@[self.byte_matches(
                            haystack.spec_bytes(),
                            overlapping,
                        )[j].0]
                },
                Err(e) => {
                    &&& e == AcError::UnsupportedOperation
                    &&& overlapping && self.match_kind() != MatchKind::Standard
                },
            },
    {
        let ghost hb = haystack.spec_bytes();
        let ghost pats = self.pats_bytes();
        let bs = haystack.as_bytes();
        let bres = match self.inner.find_matches_as_indexes(bs, overlapping) {
            Err(e) => {
                return Err(e);
            },
            Ok(v) => v,
        };
        let ghost bt = self.byte_matches(hb, overlapping);
        proof {
            assert(triples_view(bres@) == bt);
            encode_utf8_valid_utf8(haystack@);
        }
        let mut out: Vec<String> = Vec::new();
        let mut j: usize = 0;
        while j < bres.len()
            invariant
                j <= bres@.len(),
                self.wf(),
                hb == haystack.spec_bytes(),
                pats == self.pats_bytes(),
                valid_utf8(hb),
                bt == self.byte_matches(hb, overlapping),
                triples_view(bres@) == bt,
                out@.len() == j,
                forall|t: int| 0 <= t < j ==> (#[trigger] out@[t])@ == self.pat_chars@[bt[t].0],
            decreases bres@.len() - j,
        {
            let m = bres[j];
            proof {
                assert(triples_view(bres@)[j as int] == bt[j as int]);
                if overlapping {
                    lemma_ov_from_occurs(pats, hb, 0, j as int);
                } else {
                    lemma_matches_occur(pats, hb, self.match_kind(), j as int);
                }
                assert(occurs_at(pats, hb, bt[j as int]));
                assert(pats[m.0 as int].len() >= 1);
            }
            if m.0 < self.stored.len() {
                let s = self.stored[m.0].clone();
                out.push(s);
            } else {
                let ghost pid = m.0 as int;
                proof {
                    encode_utf8_valid_utf8(self.pat_chars@[pid]);
                    lemma_match_boundaries(hb, pats[pid], m.1 as int);
                }
                let parts = haystack.split_at(m.1);
                let rest = parts.1;
                proof {
                    assert(rest.spec_bytes() =~= hb.subrange(m.1 as int, hb.len() as int));
                    valid_utf8_split(hb, m.1 as int);
                    assert(valid_utf8(rest.spec_bytes()));
                    broadcast use is_char_boundary_iff_not_is_continuation_byte;
                    broadcast use is_char_boundary_start_end_of_seq;

                    let k = m.2 as int - m.1 as int;
                    if m.2 < hb.len() {
                        assert(rest.spec_bytes()[k] == hb[m.2 as int]);
                        assert(!is_continuation_byte(hb[m.2 as int]));
                        assert(is_char_boundary(rest.spec_bytes(), k));
                    } else {
                        assert(k == rest.spec_bytes().len());
                        assert(is_char_boundary(rest.spec_bytes(), k));
                    }
                }
                let parts2 = rest.split_at(m.2 - m.1);
                let mid = parts2.0;
                proof {
                    assert(mid.spec_bytes() =~= hb.subrange(m.1 as int, m.2 as int));
                    assert(mid.spec_bytes() == pats[pid]);
                    assert(encode_utf8(mid@) == encode_utf8(self.pat_chars@[pid]));
                    vstd::utf8::encode_utf8_decode_utf8(mid@);
                    vstd::utf8::encode_utf8_decode_utf8(self.pat_chars@[pid]);
                    assert(mid@ == self.pat_chars@[pid]);
                }
                let s = mid.to_owned();
                out.push(s);
            }
            j = j + 1;
        }
        Ok(out)
    }
}

/// A valid UTF-8 prefix of a valid UTF-8 sequence ends on a character
/// boundary.
proof fn lemma_prefix_boundary(h: Seq<u8>, p: Seq<u8>)
    requires
        valid_utf8(h),
        valid_utf8(p),
        p.len() <= h.len(),
        h.take(p.len() as int) == p,
    ensures
        is_char_boundary(h, p.len() as int),
    decreases p.len(),
{
    if p.len() == 0 {
    } else {
        assert(h.len() > 0);
        assert(h[0] == p[0]);
        assert(valid_first_scalar(h));
        assert(valid_first_scalar(p));
        let l = length_of_first_scalar(h);
        assert(length_of_first_scalar(p) == l);
        assert(1 <= l <= p.len());
        let h2 = pop_first_scalar(h);
        let p2 = pop_first_scalar(p);
        assert(valid_utf8(h2));
        assert(valid_utf8(p2));
        assert(p2.len() <= h2.len());
        assert(h2.take(p2.len() as int) =~= p2);
        lemma_prefix_boundary(h2, p2);
        assert(is_char_boundary(h, p.len() as int));
    }
}

/// The start and end of any occurrence of a non-empty valid UTF-8 pattern in
/// a valid UTF-8 haystack are character boundaries.
pub proof fn lemma_match_boundaries(h: Seq<u8>, p: Seq<u8>, s: int)
    requires
        valid_utf8(h),
        valid_utf8(p),
        0 < p.len(),
        0 <= s,
        s + p.len() <= h.len(),
        h.subrange(s, s + p.len()) == p,
    ensures
        is_char_boundary(h, s),
        is_char_boundary(h, s + p.len()),
{
    broadcast use is_char_boundary_iff_not_is_continuation_byte;
    broadcast use is_char_boundary_start_end_of_seq;

    assert(h[s] == p[0]);
    assert(valid_first_scalar(p));
    assert(!is_continuation_byte(p[0]));
    assert(is_char_boundary(h, s));
    valid_utf8_split(h, s);
    let h2 = h.subrange(s, h.len() as int);
    assert(h2.take(p.len() as int) =~= p);
    lemma_prefix_boundary(h2, p);
    if s + p.len() == h.len() {
        assert(is_char_boundary(h, s + p.len()));
    } else {
        assert(h2[p.len() as int] == h[s + p.len()]);
        assert(!is_continuation_byte(h2[p.len() as int]));
        assert(is_char_boundary(h, s + p.len()));
    }
}

} // verus!
