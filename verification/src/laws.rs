//! The library's laws: how the engine behaves across chunking, source and
//! sink backpressure, and completed matches, proved once over the
//! mathematical model that every adapter contract refers to.
use vstd::prelude::*;

use crate::automaton::SpecNode;
use crate::automaton::spec_next;
use crate::automaton::wf_nodes;
use crate::engine::lemma_run_append;
use crate::engine::spec_output;
use crate::engine::spec_run;
use crate::engine::spec_step;

verus! {

/// The engine fed chunk by chunk: emitted bytes concatenated over the
/// chunks, with the final cursor and buffer.
pub open spec fn run_chunks(nodes: Seq<SpecNode>, st: int, buf: Seq<u8>, chunks: Seq<Seq<u8>>) -> (
    Seq<u8>,
    int,
    Seq<u8>,
)
    decreases chunks.len(),
{
    if chunks.len() == 0 {
        (Seq::<u8>::empty(), st, buf)
    } else {
        let first = spec_run(nodes, st, buf, chunks[0]);
        let rest = run_chunks(nodes, first.1, first.2, chunks.skip(1));
        (first.0 + rest.0, rest.1, rest.2)
    }
}

/// Everything a chunked stream yields from a fresh automaton, including
/// the end-of-stream flush of the unresolved tail.
pub open spec fn chunked_output(nodes: Seq<SpecNode>, chunks: Seq<Seq<u8>>) -> Seq<u8> {
    let r = run_chunks(nodes, 0, Seq::<u8>::empty(), chunks);
    r.0 + r.2
}

/// Feeding chunks one at a time is the same as feeding their
/// concatenation in one piece.
pub proof fn lemma_run_chunks_flatten(
    nodes: Seq<SpecNode>,
    st: int,
    buf: Seq<u8>,
    chunks: Seq<Seq<u8>>,
)
    ensures
        ({
            let c = run_chunks(nodes, st, buf, chunks);
            let w = spec_run(nodes, st, buf, chunks.flatten());
            &&& c.0 == w.0
            &&& c.1 == w.1
            &&& c.2 == w.2
        }),
    decreases chunks.len(),
{
    if chunks.len() == 0 {
        assert(chunks.flatten() =~= Seq::<u8>::empty());
    } else {
        let first = spec_run(nodes, st, buf, chunks[0]);
        lemma_run_chunks_flatten(nodes, first.1, first.2, chunks.skip(1));
        assert(chunks.flatten() == chunks[0] + chunks.skip(1).flatten());
        lemma_run_append(nodes, st, buf, chunks[0], chunks.skip(1).flatten());
    }
}

/// Law (buffer-size invariance): for a fixed automaton and input, the
/// final output — everything emitted plus the end-of-stream flush — is the
/// same no matter how the input was cut into chunks.
pub proof fn lemma_buffer_size_invariance(
    nodes: Seq<SpecNode>,
    chunks1: Seq<Seq<u8>>,
    chunks2: Seq<Seq<u8>>,
)
    requires
        chunks1.flatten() == chunks2.flatten(),
    ensures
        chunked_output(nodes, chunks1) == chunked_output(nodes, chunks2),
        chunked_output(nodes, chunks1) == spec_output(nodes, chunks1.flatten()),
{
    lemma_run_chunks_flatten(nodes, 0, Seq::<u8>::empty(), chunks1);
    lemma_run_chunks_flatten(nodes, 0, Seq::<u8>::empty(), chunks2);
}

/// One reader-side poll schedule: `Some(chunk)` is a poll on which the
/// source yielded bytes, `None` one on which it was not ready.
pub open spec fn source_chunks(events: Seq<Option<Seq<u8>>>) -> Seq<Seq<u8>>
    decreases events.len(),
{
    if events.len() == 0 {
        Seq::<Seq<u8>>::empty()
    } else {
        match events[0] {
            Some(c) => seq![c] + source_chunks(events.skip(1)),
            None => source_chunks(events.skip(1)),
        }
    }
}

/// The engine driven by a reader across a poll schedule: polls on which
/// the source is not ready contribute nothing and change nothing.
pub open spec fn reader_drive(
    nodes: Seq<SpecNode>,
    st: int,
    buf: Seq<u8>,
    events: Seq<Option<Seq<u8>>>,
) -> (Seq<u8>, int, Seq<u8>)
    decreases events.len(),
{
    if events.len() == 0 {
        (Seq::<u8>::empty(), st, buf)
    } else {
        match events[0] {
            Some(c) => {
                let first = spec_run(nodes, st, buf, c);
                let rest = reader_drive(nodes, first.1, first.2, events.skip(1));
                (first.0 + rest.0, rest.1, rest.2)
            },
            None => reader_drive(nodes, st, buf, events.skip(1)),
        }
    }
}

/// Driving the reader across a poll schedule is the same as feeding only
/// the yielded chunks: "not ready" polls are invisible in the output.
pub proof fn lemma_reader_drive_chunks(
    nodes: Seq<SpecNode>,
    st: int,
    buf: Seq<u8>,
    events: Seq<Option<Seq<u8>>>,
)
    ensures
        ({
            let d = reader_drive(nodes, st, buf, events);
            let c = run_chunks(nodes, st, buf, source_chunks(events));
            &&& d.0 == c.0
            &&& d.1 == c.1
            &&& d.2 == c.2
        }),
    decreases events.len(),
{
    if events.len() > 0 {
        match events[0] {
            Some(c) => {
                let first = spec_run(nodes, st, buf, c);
                lemma_reader_drive_chunks(nodes, first.1, first.2, events.skip(1));
                let sc = source_chunks(events);
                assert(sc[0] == c);
                assert(sc.skip(1) =~= source_chunks(events.skip(1)));
            },
            None => {
                lemma_reader_drive_chunks(nodes, st, buf, events.skip(1));
            },
        }
    }
}

/// Law (backpressure equivalence, source side): two poll schedules on
/// which the source yielded the same bytes — however often it reported
/// "not ready", and however the bytes were cut — produce the same final
/// output.
pub proof fn lemma_reader_backpressure(
    nodes: Seq<SpecNode>,
    events1: Seq<Option<Seq<u8>>>,
    events2: Seq<Option<Seq<u8>>>,
)
    requires
        source_chunks(events1).flatten() == source_chunks(events2).flatten(),
    ensures
        ({
            let d1 = reader_drive(nodes, 0, Seq::<u8>::empty(), events1);
            let d2 = reader_drive(nodes, 0, Seq::<u8>::empty(), events2);
            d1.0 + d1.2 == d2.0 + d2.2
        }),
        ({
            let d1 = reader_drive(nodes, 0, Seq::<u8>::empty(), events1);
            d1.0 + d1.2 == spec_output(nodes, source_chunks(events1).flatten())
        }),
{
    lemma_reader_drive_chunks(nodes, 0, Seq::<u8>::empty(), events1);
    lemma_reader_drive_chunks(nodes, 0, Seq::<u8>::empty(), events2);
    lemma_buffer_size_invariance(nodes, source_chunks(events1), source_chunks(events2));
}

/// One sink readiness oracle: what is left of it after the sink swallowed
/// one forwarded buffer, which takes any number of "not ready" retries and
/// then one grant.  `None` when the oracle runs out first.
pub open spec fn sink_grants(oracle: Seq<bool>) -> Option<Seq<bool>>
    decreases oracle.len(),
{
    if oracle.len() == 0 {
        None
    } else if oracle[0] {
        Some(oracle.skip(1))
    } else {
        sink_grants(oracle.skip(1))
    }
}

/// The engine driven by a writer across input chunks against a sink whose
/// readiness follows `oracle`.  Each chunk runs through the engine exactly
/// once; its output is forwarded until the sink grants it (no grant is
/// needed when there is no output).  `None` when the oracle runs out
/// before everything was accepted.
pub open spec fn writer_drive(
    nodes: Seq<SpecNode>,
    st: int,
    buf: Seq<u8>,
    chunks: Seq<Seq<u8>>,
    oracle: Seq<bool>,
) -> Option<(Seq<u8>, int, Seq<u8>)>
    decreases chunks.len(),
{
    if chunks.len() == 0 {
        Some((Seq::<u8>::empty(), st, buf))
    } else {
        let eng = spec_run(nodes, st, buf, chunks[0]);
        let after = if eng.0.len() == 0 {
            Some(oracle)
        } else {
            sink_grants(oracle)
        };
        match after {
            Some(rest) => match writer_drive(nodes, eng.1, eng.2, chunks.skip(1), rest) {
                Some(t) => Some((eng.0 + t.0, t.1, t.2)),
                None => None,
            },
            None => None,
        }
    }
}

/// When the writer gets its input through the sink, what reaches the sink
/// does not depend on the readiness oracle: it is exactly the chunked run.
pub proof fn lemma_writer_oracle_irrelevant(
    nodes: Seq<SpecNode>,
    st: int,
    buf: Seq<u8>,
    chunks: Seq<Seq<u8>>,
    oracle: Seq<bool>,
)
    requires
        writer_drive(nodes, st, buf, chunks, oracle) is Some,
    ensures
        ({
            let t = writer_drive(nodes, st, buf, chunks, oracle)->0;
            let c = run_chunks(nodes, st, buf, chunks);
            &&& t.0 == c.0
            &&& t.1 == c.1
            &&& t.2 == c.2
        }),
    decreases chunks.len(),
{
    if chunks.len() > 0 {
        let eng = spec_run(nodes, st, buf, chunks[0]);
        let after = if eng.0.len() == 0 {
            Some(oracle)
        } else {
            sink_grants(oracle)
        };
        let rest = after->0;
        lemma_writer_oracle_irrelevant(nodes, eng.1, eng.2, chunks.skip(1), rest);
    }
}

/// Law (backpressure equivalence, sink side): two sink readiness oracles
/// under which all input went through produce the same bytes at the sink —
/// forcing "not ready" at arbitrary points only changes how many polls the
/// transfer takes.
pub proof fn lemma_writer_backpressure(
    nodes: Seq<SpecNode>,
    chunks: Seq<Seq<u8>>,
    oracle1: Seq<bool>,
    oracle2: Seq<bool>,
)
    requires
        writer_drive(nodes, 0, Seq::<u8>::empty(), chunks, oracle1) is Some,
        writer_drive(nodes, 0, Seq::<u8>::empty(), chunks, oracle2) is Some,
    ensures
        writer_drive(nodes, 0, Seq::<u8>::empty(), chunks, oracle1)
            == writer_drive(nodes, 0, Seq::<u8>::empty(), chunks, oracle2),
        ({
            let t = writer_drive(nodes, 0, Seq::<u8>::empty(), chunks, oracle1)->0;
            t.0 + t.2 == spec_output(nodes, chunks.flatten())
        }),
{
    lemma_writer_oracle_irrelevant(nodes, 0, Seq::<u8>::empty(), chunks, oracle1);
    lemma_writer_oracle_irrelevant(nodes, 0, Seq::<u8>::empty(), chunks, oracle2);
    lemma_run_chunks_flatten(nodes, 0, Seq::<u8>::empty(), chunks);
}

/// Law (idempotent reset): whenever a step completes a match — replaced or
/// protected — the cursor stands at the root again and the potential
/// buffer is empty, so what follows is processed exactly as from a fresh
/// automaton.
pub proof fn lemma_match_resets_cursor(nodes: Seq<SpecNode>, st: int, buf: Seq<u8>, b: u8)
    requires
        wf_nodes(nodes),
        0 <= st < nodes.len(),
        ({
            let s2 = spec_next(nodes, st, b);
            s2 == 0 || nodes[s2].is_word
        }),
    ensures
        spec_step(nodes, st, buf, b).1 == 0,
        spec_next(nodes, st, b) != 0 ==> spec_step(nodes, st, buf, b).2 == Seq::<u8>::empty(),
{
}

} // verus!
