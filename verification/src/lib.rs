//! Streaming multi-pattern search-and-replace over byte streams, built on
//! an Aho-Corasick automaton.
//!
//! The automaton is built once from an ordered list of `(pattern,
//! replacement)` pairs and is immutable afterwards; a movable cursor tracks
//! the current match state.  The replace engine consumes bytes one at a
//! time, keeps a buffer of bytes that may still become a match, and emits
//! resolved bytes.  Reader- and writer-side state machines drive the engine
//! and keep the bookkeeping needed to resume after a source or sink reports
//! "not ready"; the asynchronous I/O glue around an actual source or sink
//! stays outside this crate and drives these state machines.
use vstd::prelude::*;

pub mod automaton;
pub mod engine;
pub mod laws;
pub mod reader;
pub mod writer;

use automaton::AcAutomaton;
use automaton::contains_word;
use automaton::edges_unique;
use automaton::last_replacement;
use automaton::node_at;
use automaton::registered_prefix;

verus! {

/// The public entry point: owns a built automaton (trie plus cursor).
pub struct AhoCorasick {
    pub automaton: AcAutomaton,
}

impl AhoCorasick {
    /// Builds the automaton from an ordered list of `(word, replacement)`
    /// pairs.  A `None` replacement marks a protected word: it is matched
    /// (and resets the match state) but never substituted.  Empty words
    /// are skipped: they can never match.  When the same word is given
    /// twice, the last entry wins.
    pub fn new(replacements: Vec<(Vec<u8>, Option<Vec<u8>>)>) -> (r: Self)
        ensures
            r.automaton.wf(),
            r.automaton@.state == 0,
            edges_unique(r.automaton@.nodes),
            forall|w: Seq<u8>|
                (#[trigger] node_at(r.automaton@.nodes, 0, w)) is Some <==> registered_prefix(
                    replacements@,
                    w,
                ),
            forall|w: Seq<u8>|
                #[trigger] contains_word(replacements@, w) ==> {
                    let tgt = node_at(r.automaton@.nodes, 0, w);
                    &&& tgt is Some
                    &&& r.automaton@.nodes[tgt->0].is_word
                    &&& r.automaton@.nodes[tgt->0].replacement == last_replacement(
                        replacements@,
                        w,
                    )
                },
            forall|j: int|
                0 <= j < r.automaton@.nodes.len() && (#[trigger] r.automaton@.nodes[j]).is_word
                    ==> exists|w: Seq<u8>|
                    contains_word(replacements@, w) && node_at(r.automaton@.nodes, 0, w) == Some(
                        j,
                    ),
    {
        let ac = AcAutomaton::new(replacements);
        Self { automaton: ac }
    }
}

} // verus!
