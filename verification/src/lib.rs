//! Multi-pattern substring search with Aho-Corasick automata.
//!
//! Given a set of non-empty patterns, the library builds an immutable
//! automaton (a trie over all pattern prefixes with failure transitions) and
//! scans haystacks for pattern occurrences in a single pass.  Three match
//! kinds (standard, leftmost-first, leftmost-longest), three transition
//! representations (sparse, contiguous, dense), overlapping and
//! non-overlapping scans, and byte-offset-to-codepoint translation for text
//! haystacks are supported.
//!
//! Every scan's contract pins its result to a brute-force specification of
//! the match semantics in [`matching`], so the choice of representation
//! provably never changes observable results, and the laws in [`laws`] hold
//! of every pattern set and haystack.

pub mod automaton;
pub mod laws;
pub mod matching;
pub mod repr;
pub mod scan;
pub mod text;
pub mod trie;

pub use automaton::{AcError, BytesAhoCorasick, Implementation, DFA_STATE_LIMIT};
pub use matching::MatchKind;
pub use text::{get_byte_to_code_point, AhoCorasick, RetentionPolicy, RETENTION_BYTE_BUDGET};
