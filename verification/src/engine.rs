//! The streaming replace engine: the one algorithm both adapters drive.
//! For each input byte it advances the cursor, drains the part of the
//! potential-match buffer that a suffix-link jump invalidated, and resolves
//! completed words — substituting their replacement, or (for protected
//! words) emitting the matched bytes unchanged.
use std::collections::VecDeque;
use vstd::prelude::*;

use crate::automaton::AcAutomaton;
use crate::automaton::SpecNode;
use crate::automaton::lemma_spec_next;
use crate::automaton::node_ok;
use crate::automaton::spec_next;
use crate::automaton::wf_nodes;

verus! {

/// The engine's state invariant: the cursor is a valid node and the
/// potential-match buffer holds exactly as many bytes as the cursor is
/// deep.
pub open spec fn engine_inv(nodes: Seq<SpecNode>, st: int, buf: Seq<u8>) -> bool {
    &&& 0 <= st < nodes.len()
    &&& buf.len() == nodes[st].depth
}

/// One engine step on byte `b` from cursor `st` with potential buffer
/// `buf`: the triple of (bytes emitted, new cursor, new buffer).
///
/// Landing on the root resolves the whole buffer and the byte itself as
/// plain output.  Otherwise the byte joins the buffer and the buffer's
/// front is drained down to the new cursor depth; a completed word then
/// either emits its replacement in place of the buffer, or — protected —
/// emits the buffer unchanged, and in both cases the cursor returns to the
/// root.
pub open spec fn spec_step(nodes: Seq<SpecNode>, st: int, buf: Seq<u8>, b: u8) -> (
    Seq<u8>,
    int,
    Seq<u8>,
) {
    let s2 = spec_next(nodes, st, b);
    if s2 == 0 {
        (buf.push(b), 0int, Seq::<u8>::empty())
    } else {
        let d = nodes[s2].depth as int;
        let all = buf.push(b);
        let keep: int = if d <= all.len() {
            d
        } else {
            all.len() as int
        };
        let emit = all.take(all.len() - keep);
        let kept = all.skip(all.len() - keep);
        if nodes[s2].is_word {
            match nodes[s2].replacement {
                Some(rep) => (emit + rep, 0int, Seq::<u8>::empty()),
                None => (emit + kept, 0int, Seq::<u8>::empty()),
            }
        } else {
            (emit, s2, kept)
        }
    }
}

/// The engine folded over a whole input: emitted bytes concatenated, with
/// the final cursor and buffer.
pub open spec fn spec_run(nodes: Seq<SpecNode>, st: int, buf: Seq<u8>, input: Seq<u8>) -> (
    Seq<u8>,
    int,
    Seq<u8>,
)
    decreases input.len(),
{
    if input.len() == 0 {
        (Seq::<u8>::empty(), st, buf)
    } else {
        let first = spec_step(nodes, st, buf, input[0]);
        let rest = spec_run(nodes, first.1, first.2, input.skip(1));
        (first.0 + rest.0, rest.1, rest.2)
    }
}

/// Everything the stream yields for `input` processed from a fresh
/// automaton: the emitted bytes plus the end-of-stream flush of the
/// unresolved tail.
pub open spec fn spec_output(nodes: Seq<SpecNode>, input: Seq<u8>) -> Seq<u8> {
    let r = spec_run(nodes, 0, Seq::<u8>::empty(), input);
    r.0 + r.2
}

/// One step keeps the engine invariant.
pub proof fn lemma_step_inv(nodes: Seq<SpecNode>, st: int, buf: Seq<u8>, b: u8)
    requires
        wf_nodes(nodes),
        engine_inv(nodes, st, buf),
    ensures
        ({
            let r = spec_step(nodes, st, buf, b);
            engine_inv(nodes, r.1, r.2)
        }),
{
    lemma_spec_next(nodes, st, b);
    assert(node_ok(nodes, 0));
}

/// Runs compose over concatenated inputs: processing `x + y` is processing
/// `x`, then `y` from where `x` left the engine.
pub proof fn lemma_run_append(nodes: Seq<SpecNode>, st: int, buf: Seq<u8>, x: Seq<u8>, y: Seq<u8>)
    ensures
        ({
            let a = spec_run(nodes, st, buf, x);
            let b2 = spec_run(nodes, a.1, a.2, y);
            let w = spec_run(nodes, st, buf, x + y);
            &&& w.0 == a.0 + b2.0
            &&& w.1 == b2.1
            &&& w.2 == b2.2
        }),
    decreases x.len(),
{
    let a = spec_run(nodes, st, buf, x);
    let b2 = spec_run(nodes, a.1, a.2, y);
    if x.len() == 0 {
        assert(x + y =~= y);
        assert(a.0 + b2.0 =~= b2.0);
    } else {
        let s = spec_step(nodes, st, buf, x[0]);
        assert((x + y)[0] == x[0]);
        assert((x + y).skip(1) =~= x.skip(1) + y);
        lemma_run_append(nodes, s.1, s.2, x.skip(1), y);
        let ar = spec_run(nodes, s.1, s.2, x.skip(1));
        let w = spec_run(nodes, st, buf, x + y);
        assert(w.0 == s.0 + (ar.0 + b2.0));
        assert(s.0 + (ar.0 + b2.0) =~= (s.0 + ar.0) + b2.0);
    }
}

/// Extending the input by one byte extends the run by one step.
pub proof fn lemma_run_snoc(nodes: Seq<SpecNode>, st: int, buf: Seq<u8>, input: Seq<u8>, i: int)
    requires
        0 <= i < input.len(),
    ensures
        ({
            let a = spec_run(nodes, st, buf, input.take(i));
            let s = spec_step(nodes, a.1, a.2, input[i]);
            let w = spec_run(nodes, st, buf, input.take(i + 1));
            &&& w.0 == a.0 + s.0
            &&& w.1 == s.1
            &&& w.2 == s.2
        }),
{
    let a = spec_run(nodes, st, buf, input.take(i));
    let one = seq![input[i]];
    assert(input.take(i + 1) =~= input.take(i) + one);
    lemma_run_append(nodes, st, buf, input.take(i), one);
    let s = spec_step(nodes, a.1, a.2, input[i]);
    assert(one[0] == input[i]);
    assert(one.skip(1) =~= Seq::<u8>::empty());
    let rest = spec_run(nodes, s.1, s.2, one.skip(1));
    assert(rest.0 == Seq::<u8>::empty() && rest.1 == s.1 && rest.2 == s.2);
    let r1 = spec_run(nodes, a.1, a.2, one);
    assert(r1.0 == s.0 + rest.0 && r1.1 == rest.1 && r1.2 == rest.2);
    assert(r1.0 =~= s.0);
}

/// Feeds one byte through the engine, appending everything it resolves to
/// `out`.
pub fn process_byte(ac: &mut AcAutomaton, potential: &mut VecDeque<u8>, b: u8, out: &mut Vec<u8>)
    requires
        old(ac).wf(),
        engine_inv(old(ac)@.nodes, old(ac)@.state, old(potential)@),
    ensures
        final(ac).wf(),
        final(ac)@.nodes == old(ac)@.nodes,
        engine_inv(final(ac)@.nodes, final(ac)@.state, final(potential)@),
        ({
            let r = spec_step(old(ac)@.nodes, old(ac)@.state, old(potential)@, b);
            &&& final(out)@ == old(out)@ + r.0
            &&& final(ac)@.state == r.1
            &&& final(potential)@ == r.2
        }),
{
    let ghost nodes = ac@.nodes;
    let ghost st0 = ac@.state;
    let ghost buf0 = potential@;
    let ghost out0 = out@;
    proof {
        lemma_spec_next(nodes, st0, b);
        lemma_step_inv(nodes, st0, buf0, b);
    }
    ac.next_state(&b);
    let d = ac.state_depth();
    if ac.is_state_root() {
        while potential.len() > 0
            invariant
                out@ + potential@ == out0 + buf0,
            decreases potential@.len(),
        {
            let ghost opre = out@;
            let ghost ppre = potential@;
            let x = potential.pop_front().unwrap();
            out.push(x);
            proof {
                assert(out@ + potential@ =~= opre + ppre);
            }
        }
        out.push(b);
        proof {
            assert(out@ =~= out0 + buf0.push(b));
        }
    } else {
        potential.push_back(b);
        let ghost all = buf0.push(b);
        proof {
            assert(d as int >= 1);
            assert(all.len() >= d as int);
            assert(out@ =~= out0 + all.take(0));
            assert(potential@ =~= all.skip(0));
        }
        while potential.len() > d
            invariant
                d as int <= potential@.len(),
                potential@.len() <= all.len(),
                out@ == out0 + all.take(all.len() - potential@.len()),
                potential@ == all.skip(all.len() - potential@.len()),
            decreases potential@.len(),
        {
            let ghost opre = out@;
            let ghost ppre = potential@;
            let x = potential.pop_front().unwrap();
            out.push(x);
            proof {
                let gone = all.len() - ppre.len();
                assert(x == all[gone]);
                assert(out@ =~= out0 + all.take(gone + 1));
                assert(potential@ =~= all.skip(gone + 1));
            }
        }
        let ghost emit = all.take(all.len() - (d as int));
        let ghost kept = all.skip(all.len() - (d as int));
        proof {
            assert(potential@.len() == d as int);
            assert(out@ == out0 + emit);
            assert(potential@ == kept);
        }
        if ac.is_state_word() {
            match ac.state_replacement() {
                Some(rep) => {
                    potential.clear();
                    let ghost omid = out@;
                    let mut i: usize = 0;
                    while i < rep.len()
                        invariant
                            i <= rep@.len(),
                            out@ == omid + rep@.take(i as int),
                        decreases rep@.len() - i,
                    {
                        let ghost opre = out@;
                        out.push(rep[i]);
                        proof {
                            assert(out@ =~= omid + rep@.take(i + 1 as int));
                        }
                        i += 1;
                    }
                    proof {
                        assert(rep@.take(rep@.len() as int) =~= rep@);
                        assert(out@ =~= out0 + (emit + rep@));
                    }
                },
                None => {
                    let ghost omid = out@;
                    while potential.len() > 0
                        invariant
                            out@ + potential@ == omid + kept,
                        decreases potential@.len(),
                    {
                        let ghost opre = out@;
                        let ghost ppre = potential@;
                        let x = potential.pop_front().unwrap();
                        out.push(x);
                        proof {
                            assert(out@ + potential@ =~= opre + ppre);
                        }
                    }
                    proof {
                        assert(out@ =~= omid + kept);
                        assert(out@ =~= out0 + (emit + kept));
                    }
                },
            }
            ac.reset_state();
        }
    }
}

/// Feeds a whole chunk through the engine and returns everything it
/// resolved; the cursor and the potential buffer carry the unresolved tail
/// to the next chunk.
pub fn process_chunk(ac: &mut AcAutomaton, potential: &mut VecDeque<u8>, input: &[u8]) -> (out: Vec<
    u8,
>)
    requires
        old(ac).wf(),
        engine_inv(old(ac)@.nodes, old(ac)@.state, old(potential)@),
    ensures
        final(ac).wf(),
        final(ac)@.nodes == old(ac)@.nodes,
        engine_inv(final(ac)@.nodes, final(ac)@.state, final(potential)@),
        ({
            let r = spec_run(old(ac)@.nodes, old(ac)@.state, old(potential)@, input@);
            &&& out@ == r.0
            &&& final(ac)@.state == r.1
            &&& final(potential)@ == r.2
        }),
{
    let ghost nodes = ac@.nodes;
    let ghost st0 = ac@.state;
    let ghost buf0 = potential@;
    let mut out: Vec<u8> = Vec::new();
    let mut i: usize = 0;
    proof {
        assert(input@.take(0) =~= Seq::<u8>::empty());
    }
    while i < input.len()
        invariant
            ac.wf(),
            ac@.nodes == nodes,
            engine_inv(nodes, ac@.state, potential@),
            i <= input@.len(),
            ({
                let r = spec_run(nodes, st0, buf0, input@.take(i as int));
                &&& out@ == r.0
                &&& ac@.state == r.1
                &&& potential@ == r.2
            }),
        decreases input@.len() - i,
    {
        proof {
            lemma_run_snoc(nodes, st0, buf0, input@, i as int);
        }
        process_byte(ac, potential, input[i], &mut out);
        i += 1;
    }
    proof {
        assert(input@.take(input@.len() as int) =~= input@);
    }
    out
}

/// The end-of-stream flush: the unresolved tail is emitted verbatim — never
/// dropped — and the cursor returns to the root.
pub fn flush_engine(ac: &mut AcAutomaton, potential: &mut VecDeque<u8>) -> (out: Vec<u8>)
    requires
        old(ac).wf(),
    ensures
        final(ac).wf(),
        final(ac)@.nodes == old(ac)@.nodes,
        final(ac)@.state == 0,
        out@ == old(potential)@,
        final(potential)@ == Seq::<u8>::empty(),
        engine_inv(final(ac)@.nodes, final(ac)@.state, final(potential)@),
{
    let ghost buf0 = potential@;
    let mut out: Vec<u8> = Vec::new();
    while potential.len() > 0
        invariant
            out@ + potential@ == buf0,
        decreases potential@.len(),
    {
        let ghost opre = out@;
        let ghost ppre = potential@;
        let x = potential.pop_front().unwrap();
        out.push(x);
        proof {
            assert(out@ + potential@ =~= opre + ppre);
        }
    }
    proof {
        assert(out@ =~= buf0);
        assert(node_ok(ac@.nodes, 0));
    }
    ac.reset_state();
    out
}

} // verus!
