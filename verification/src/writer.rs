//! Writer-side state machine.  A write call reports how many *input* bytes
//! it accepted, not how many output bytes reached the sink — the two
//! differ whenever a replacement changes length.  When the sink is not
//! ready for the computed output, the state machine remembers exactly what
//! is still owed, so a retry forwards the same bytes without running the
//! engine again.  Closing first flushes the unresolved tail.  The
//! asynchronous wrapper around an actual sink is a thin driver of these
//! steps.
use std::collections::VecDeque;
use vstd::prelude::*;

use crate::AhoCorasick;
use crate::automaton::SpecNode;
use crate::automaton::node_ok;
use crate::engine::engine_inv;
use crate::engine::spec_run;
use crate::engine::process_chunk;

verus! {

/// What is owed after the sink reported "not ready": how many output bytes
/// wait in the buffer, and how many input bytes the interrupted call will
/// report as accepted once they are through.
pub struct PendingState {
    pub bytes_to_write: usize,
    pub bytes_read: usize,
}

/// What a write call must do next: forward the buffered output to the sink
/// (reporting `accepted` input bytes once it is through), or nothing — the
/// input was absorbed whole and is accepted at once.
pub enum WriteStep {
    Forward { accepted: usize },
    Accept { accepted: usize },
}

/// What a close call must do next: forward the owed buffer to the sink
/// first, or close the sink directly.
pub enum CloseStep {
    Flush,
    Ready,
}

/// The writer's engine-side state: the automaton (with its cursor), the
/// buffer holding computed output until the sink confirms it, the
/// potential-match buffer, and the record of an interrupted forward.
pub struct AhoCorasickAsyncWriter {
    pub ac: AhoCorasick,
    pub buffer: Vec<u8>,
    pub potential_buffer: VecDeque<u8>,
    pub pending_state: Option<PendingState>,
}

impl AhoCorasickAsyncWriter {
    /// A valid writer: a well-formed automaton whose cursor depth matches
    /// the potential buffer, and a pending record consistent with the
    /// buffer it describes.
    pub open spec fn wf(&self) -> bool {
        &&& self.ac.automaton.wf()
        &&& engine_inv(
            self.ac.automaton@.nodes,
            self.ac.automaton@.state,
            self.potential_buffer@,
        )
        &&& match self.pending_state {
            Some(p) => p.bytes_to_write == self.buffer@.len(),
            None => true,
        }
    }

    /// The automaton model the writer runs on.
    pub open spec fn nodes(&self) -> Seq<SpecNode> {
        self.ac.automaton@.nodes
    }

    /// Wraps a freshly built automaton.
    pub fn new(ac: AhoCorasick) -> (r: Self)
        requires
            ac.automaton.wf(),
            ac.automaton@.state == 0,
        ensures
            r.wf(),
            r.nodes() == ac.automaton@.nodes,
            r.ac.automaton@.state == 0,
            r.buffer@ == Seq::<u8>::empty(),
            r.potential_buffer@ == Seq::<u8>::empty(),
            r.pending_state is None,
    {
        proof {
            assert(node_ok(ac.automaton@.nodes, 0));
        }
        AhoCorasickAsyncWriter {
            ac,
            buffer: Vec::new(),
            potential_buffer: VecDeque::new(),
            pending_state: None,
        }
    }

    /// Begins one write call.  While an earlier forward is unconfirmed the
    /// same buffered bytes are offered again and the new input is not
    /// touched, so the engine runs at most once per input byte even across
    /// retries.  Otherwise the chunk runs through the engine; the computed
    /// output stands in `buffer`, and on `Forward` the caller must send
    /// exactly that buffer to the sink, then report back.
    pub fn start_write(&mut self, input: &[u8]) -> (r: WriteStep)
        requires
            old(self).wf(),
        ensures
            final(self).wf(),
            final(self).nodes() == old(self).nodes(),
            match old(self).pending_state {
                Some(p) => {
                    &&& final(self).ac.automaton@ == old(self).ac.automaton@
                    &&& final(self).potential_buffer@ == old(self).potential_buffer@
                    &&& final(self).buffer@ == old(self).buffer@
                    &&& final(self).pending_state == old(self).pending_state
                    &&& r matches WriteStep::Forward { accepted } && accepted == p.bytes_read
                },
                None => {
                    let eng = spec_run(
                        old(self).nodes(),
                        old(self).ac.automaton@.state,
                        old(self).potential_buffer@,
                        input@,
                    );
                    &&& final(self).ac.automaton@.state == eng.1
                    &&& final(self).potential_buffer@ == eng.2
                    &&& final(self).buffer@ == eng.0
                    &&& if eng.0.len() > 0 {
                        &&& final(self).pending_state matches Some(p) && p.bytes_to_write
                            == eng.0.len() && p.bytes_read == input@.len()
                        &&& r matches WriteStep::Forward { accepted } && accepted == input@.len()
                    } else {
                        &&& final(self).pending_state is None
                        &&& r matches WriteStep::Accept { accepted } && accepted == input@.len()
                    }
                },
            },
    {
        match &self.pending_state {
            Some(p) => WriteStep::Forward { accepted: p.bytes_read },
            None => {
                let out = process_chunk(
                    &mut self.ac.automaton,
                    &mut self.potential_buffer,
                    input,
                );
                let produced = out.len();
                self.buffer = out;
                if produced > 0 {
                    self.pending_state = Some(
                        PendingState { bytes_to_write: produced, bytes_read: input.len() },
                    );
                    WriteStep::Forward { accepted: input.len() }
                } else {
                    WriteStep::Accept { accepted: input.len() }
                }
            },
        }
    }

    /// The sink took the first `n` bytes of the offered buffer.  When that
    /// completes the offer, the interrupted (or current) write is done and
    /// nothing more is owed; a partial accept keeps the unsent tail owed,
    /// to be re-offered — unchanged and before any new input — by the next
    /// call.  No forwarded byte is ever dropped.
    pub fn confirm_sent(&mut self, n: usize)
        requires
            old(self).wf(),
            old(self).pending_state is Some,
        ensures
            final(self).wf(),
            final(self).ac.automaton@ == old(self).ac.automaton@,
            final(self).potential_buffer@ == old(self).potential_buffer@,
            if n >= old(self).buffer@.len() {
                &&& final(self).pending_state is None
                &&& final(self).buffer@ == Seq::<u8>::empty()
            } else {
                &&& final(self).buffer@ == old(self).buffer@.skip(n as int)
                &&& final(self).pending_state matches Some(p) && p.bytes_to_write == old(
                    self,
                ).buffer@.len() - n && p.bytes_read == old(self).pending_state->0.bytes_read
            },
    {
        if n >= self.buffer.len() {
            self.pending_state = None;
            self.buffer = Vec::new();
        } else {
            let tail = self.buffer.split_off(n);
            self.buffer = tail;
            let owed = self.buffer.len();
            let kept_read: usize = match &self.pending_state {
                Some(p) => p.bytes_read,
                None => 0,
            };
            self.pending_state = Some(
                PendingState { bytes_to_write: owed, bytes_read: kept_read },
            );
        }
    }

    /// What closing requires next.  While output is still owed to the sink
    /// — an interrupted write, an earlier partial close flush, or the
    /// unresolved tail of an open tentative match — it must be sent first
    /// (`Flush`: offer `buffer`, then report back through `confirm_sent`);
    /// only then may the sink itself be closed (`Ready`).  Flushing the
    /// tail resets the cursor to the root.
    pub fn start_close(&mut self) -> (r: CloseStep)
        requires
            old(self).wf(),
        ensures
            final(self).wf(),
            final(self).nodes() == old(self).nodes(),
            match old(self).pending_state {
                Some(p) => {
                    &&& final(self).ac.automaton@ == old(self).ac.automaton@
                    &&& final(self).potential_buffer@ == old(self).potential_buffer@
                    &&& final(self).buffer@ == old(self).buffer@
                    &&& final(self).pending_state == old(self).pending_state
                    &&& r == CloseStep::Flush
                },
                None => {
                    if old(self).potential_buffer@.len() > 0 {
                        &&& final(self).ac.automaton@.state == 0
                        &&& final(self).potential_buffer@ == Seq::<u8>::empty()
                        &&& final(self).buffer@ == old(self).potential_buffer@
                        &&& final(self).pending_state matches Some(p) && p.bytes_to_write == old(
                            self,
                        ).potential_buffer@.len() && p.bytes_read == 0
                        &&& r == CloseStep::Flush
                    } else {
                        &&& final(self).ac.automaton@ == old(self).ac.automaton@
                        &&& final(self).potential_buffer@ == old(self).potential_buffer@
                        &&& final(self).buffer@ == old(self).buffer@
                        &&& final(self).pending_state is None
                        &&& r == CloseStep::Ready
                    }
                },
            },
    {
        if self.pending_state.is_some() {
            CloseStep::Flush
        } else if self.potential_buffer.len() > 0 {
            let tail = crate::engine::flush_engine(
                &mut self.ac.automaton,
                &mut self.potential_buffer,
            );
            let owed = tail.len();
            self.buffer = tail;
            self.pending_state = Some(PendingState { bytes_to_write: owed, bytes_read: 0 });
            CloseStep::Flush
        } else {
            CloseStep::Ready
        }
    }
}

} // verus!
