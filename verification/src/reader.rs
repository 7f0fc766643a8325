//! Reader-side state machine.  One poll first hands out output computed on
//! earlier polls, then reacts to what the upstream source yielded: a chunk
//! runs through the engine, end of stream flushes the unresolved tail, and
//! a source that is not ready changes nothing.  The asynchronous wrapper
//! around an actual source is a thin driver of these steps.
use std::collections::VecDeque;
use vstd::prelude::*;

use crate::AhoCorasick;
use crate::automaton::SpecNode;
use crate::automaton::node_ok;
use crate::engine::engine_inv;
use crate::engine::flush_engine;
use crate::engine::process_chunk;
use crate::engine::spec_run;

verus! {

/// What one poll of the upstream source yielded: a chunk of bytes, the end
/// of the stream, or "not ready yet".
pub enum SourceEvent {
    Data(Vec<u8>),
    Eof,
    NotReady,
}

/// What the adapter answers for one poll, after `already` bytes of pending
/// output were handed out: more bytes for the caller, a request to be
/// polled again at once (a chunk was absorbed whole into a tentative
/// match), or "not ready".
pub enum ReadPoll {
    Output(Vec<u8>),
    RetryNow,
    NotReady,
}

/// The reader's engine-side state: the automaton (with its cursor), the
/// potential-match buffer, and output bytes computed but not yet handed to
/// the caller.
pub struct AhoCorasickAsyncReader {
    pub ac: AhoCorasick,
    pub potential_buffer: VecDeque<u8>,
    pub pending_write_buffer: VecDeque<u8>,
}

impl AhoCorasickAsyncReader {
    /// A valid reader: a well-formed automaton whose cursor depth matches
    /// the potential buffer.
    pub open spec fn wf(&self) -> bool {
        &&& self.ac.automaton.wf()
        &&& engine_inv(
            self.ac.automaton@.nodes,
            self.ac.automaton@.state,
            self.potential_buffer@,
        )
    }

    /// The automaton model the reader runs on.
    pub open spec fn nodes(&self) -> Seq<SpecNode> {
        self.ac.automaton@.nodes
    }

    /// Wraps a freshly built automaton.
    pub fn new(ac: AhoCorasick) -> (r: Self)
        requires
            ac.automaton.wf(),
            ac.automaton@.state == 0,
        ensures
            r.wf(),
            r.nodes() == ac.automaton@.nodes,
            r.ac.automaton@.state == 0,
            r.potential_buffer@ == Seq::<u8>::empty(),
            r.pending_write_buffer@ == Seq::<u8>::empty(),
    {
        proof {
            assert(node_ok(ac.automaton@.nodes, 0));
        }
        AhoCorasickAsyncReader {
            ac,
            potential_buffer: VecDeque::new(),
            pending_write_buffer: VecDeque::new(),
        }
    }

    /// Hands out up to `capacity` bytes of already-computed output, oldest
    /// first; the engine state is untouched.
    pub fn drain_pending(&mut self, capacity: usize) -> (out: Vec<u8>)
        requires
            old(self).wf(),
        ensures
            final(self).wf(),
            final(self).ac.automaton@ == old(self).ac.automaton@,
            final(self).potential_buffer@ == old(self).potential_buffer@,
            ({
                let p = old(self).pending_write_buffer@;
                let n: int = if capacity as int <= p.len() {
                    capacity as int
                } else {
                    p.len() as int
                };
                &&& out@ == p.take(n)
                &&& final(self).pending_write_buffer@ == p.skip(n)
            }),
    {
        let ghost p = self.pending_write_buffer@;
        let mut out: Vec<u8> = Vec::new();
        proof {
            assert(out@ =~= p.take(0));
            assert(self.pending_write_buffer@ =~= p.skip(0));
        }
        while out.len() < capacity && self.pending_write_buffer.len() > 0
            invariant
                self.wf(),
                self.ac.automaton@ == old(self).ac.automaton@,
                self.potential_buffer@ == old(self).potential_buffer@,
                out@.len() <= capacity,
                out@.len() + self.pending_write_buffer@.len() == p.len(),
                out@ == p.take(out@.len() as int),
                self.pending_write_buffer@ == p.skip(out@.len() as int),
            decreases self.pending_write_buffer@.len(),
        {
            let ghost k = out@.len() as int;
            let x = self.pending_write_buffer.pop_front().unwrap();
            out.push(x);
            proof {
                assert(x == p[k]);
                assert(out@ =~= p.take(k + 1));
                assert(self.pending_write_buffer@ =~= p.skip(k + 1));
            }
        }
        out
    }

    /// Continues one poll after `already` bytes of pending output were
    /// drained (the pending queue is then empty whenever `already` is
    /// below `capacity`) and the upstream source answered with `event`.
    ///
    /// A chunk runs once through the engine; what the caller's remaining
    /// capacity cannot take queues up as pending output.  End of stream
    /// flushes the unresolved tail the same way.  A source that is not
    /// ready changes nothing: the poll yields exactly the bytes already
    /// drained, or reports "not ready" when there were none.
    pub fn continue_poll(&mut self, event: SourceEvent, capacity: usize, already: usize) -> (r:
        ReadPoll)
        requires
            old(self).wf(),
            capacity > 0,
        ensures
            final(self).wf(),
            final(self).nodes() == old(self).nodes(),
            match event {
                SourceEvent::Data(chunk) => {
                    let eng = spec_run(
                        old(self).nodes(),
                        old(self).ac.automaton@.state,
                        old(self).potential_buffer@,
                        chunk@,
                    );
                    let q = old(self).pending_write_buffer@ + eng.0;
                    let n: int = if capacity as int <= q.len() {
                        capacity as int
                    } else {
                        q.len() as int
                    };
                    &&& final(self).ac.automaton@.state == eng.1
                    &&& final(self).potential_buffer@ == eng.2
                    &&& final(self).pending_write_buffer@ == q.skip(n)
                    &&& if already + n > 0 {
                        r matches ReadPoll::Output(v) && v@ == q.take(n)
                    } else {
                        r == ReadPoll::RetryNow
                    }
                },
                SourceEvent::Eof => {
                    let q = old(self).pending_write_buffer@ + old(self).potential_buffer@;
                    let n: int = if capacity as int <= q.len() {
                        capacity as int
                    } else {
                        q.len() as int
                    };
                    &&& final(self).ac.automaton@.state == 0
                    &&& final(self).potential_buffer@ == Seq::<u8>::empty()
                    &&& final(self).pending_write_buffer@ == q.skip(n)
                    &&& r matches ReadPoll::Output(v) && v@ == q.take(n)
                },
                SourceEvent::NotReady => {
                    &&& final(self).ac.automaton@ == old(self).ac.automaton@
                    &&& final(self).potential_buffer@ == old(self).potential_buffer@
                    &&& final(self).pending_write_buffer@ == old(self).pending_write_buffer@
                    &&& if already > 0 {
                        r matches ReadPoll::Output(v) && v@ == Seq::<u8>::empty()
                    } else {
                        r == ReadPoll::NotReady
                    }
                },
            },
    {
        match event {
            SourceEvent::Data(chunk) => {
                let eng_out = process_chunk(
                    &mut self.ac.automaton,
                    &mut self.potential_buffer,
                    chunk.as_slice(),
                );
                self.queue_output(&eng_out);
                let give = self.drain_pending(capacity);
                if already > 0 || give.len() > 0 {
                    ReadPoll::Output(give)
                } else {
                    ReadPoll::RetryNow
                }
            },
            SourceEvent::Eof => {
                let fl = flush_engine(&mut self.ac.automaton, &mut self.potential_buffer);
                self.queue_output(&fl);
                let give = self.drain_pending(capacity);
                ReadPoll::Output(give)
            },
            SourceEvent::NotReady => {
                if already > 0 {
                    ReadPoll::Output(Vec::new())
                } else {
                    ReadPoll::NotReady
                }
            },
        }
    }

    /// Appends freshly computed output to the pending queue.
    fn queue_output(&mut self, bytes: &Vec<u8>)
        requires
            old(self).wf(),
        ensures
            final(self).wf(),
            final(self).ac.automaton@ == old(self).ac.automaton@,
            final(self).potential_buffer@ == old(self).potential_buffer@,
            final(self).pending_write_buffer@ == old(self).pending_write_buffer@ + bytes@,
    {
        let ghost p = self.pending_write_buffer@;
        let mut j: usize = 0;
        proof {
            assert(p + bytes@.take(0) =~= p);
        }
        while j < bytes.len()
            invariant
                self.wf(),
                self.ac.automaton@ == old(self).ac.automaton@,
                self.potential_buffer@ == old(self).potential_buffer@,
                j <= bytes@.len(),
                self.pending_write_buffer@ == p + bytes@.take(j as int),
            decreases bytes@.len() - j,
        {
            self.pending_write_buffer.push_back(bytes[j]);
            proof {
                assert(self.pending_write_buffer@ =~= p + bytes@.take(j + 1 as int));
            }
            j += 1;
        }
        proof {
            assert(bytes@.take(bytes@.len() as int) =~= bytes@);
        }
    }
}

} // verus!
