use vstd::prelude::*;

use crate::error::PipelineError;

verus! {

/// Where a reconstruction run stands.
#[derive(Debug)]
pub enum Phase {
    /// Segments are being copied, or the sink is still to be flushed.
    Running,
    /// Every segment was copied and the sink flushed.
    Done,
    /// The run stopped on this error; nothing more is done.
    Failed(PipelineError),
}

/// What the driver of a run must do next.
#[derive(Debug)]
pub enum Action {
    /// Open segment `index` (of `total`), named `name`, and copy its decompressed
    /// bytes to the end of the sink. The three fields are also what a progress
    /// display shows.
    Copy { index: usize, total: usize, name: String },
    /// Flush the sink.
    Flush,
    /// Nothing: the run is over.
    Stop,
}

/// What came of the last action.
#[derive(Debug)]
pub enum Event {
    /// The segment was copied whole.
    Copied,
    /// The segment could not be opened.
    OpenFailed { cause: String },
    /// The segment's bytes are not a valid gzip stream.
    DecompressFailed { cause: String },
    /// Writing to or flushing the sink failed.
    SinkFailed { cause: String },
    /// The sink was flushed.
    Flushed,
}

/// The decisions of one run that copies the decompressed segments `names`, in
/// this order, into one sink: `completed` segments have been copied so far.
pub struct Pipeline {
    pub names: Vec<String>,
    pub completed: usize,
    pub phase: Phase,
}

/// A run over `names` that has not begun.
pub open spec fn start(names: Vec<String>) -> Pipeline {
    Pipeline { names, completed: 0, phase: Phase::Running }
}

/// The state after handling `events` one by one from `p`.
pub open spec fn run(p: Pipeline, events: Seq<Event>) -> Pipeline
    decreases events.len(),
{
    if events.len() == 0 {
        p
    } else {
        run(p.spec_step(events[0]), events.drop_first())
    }
}

/// The state after `k` segments were copied one after the other from `p`.
pub open spec fn copies(p: Pipeline, k: nat) -> Pipeline
    decreases k,
{
    if k == 0 {
        p
    } else {
        copies(p, (k - 1) as nat).spec_step(Event::Copied)
    }
}

impl Pipeline {
    pub open spec fn wf(&self) -> bool {
        self.completed <= self.names@.len()
    }

    pub open spec fn spec_next_action(&self) -> Action {
        match self.phase {
            Phase::Running => if self.completed < self.names@.len() {
                Action::Copy {
                    index: self.completed,
                    total: self.names@.len() as usize,
                    name: self.names@[self.completed as int],
                }
            } else {
                Action::Flush
            },
            _ => Action::Stop,
        }
    }

    /// The state after `e`. An event that does not answer the current action
    /// leaves the state as it is; so does every event once the run is over.
    pub open spec fn spec_step(self, e: Event) -> Pipeline {
        let copying = self.completed < self.names@.len();
        match self.phase {
            Phase::Running => match e {
                Event::Copied => if copying {
                    Pipeline { completed: (self.completed + 1) as usize, ..self }
                } else {
                    self
                },
                Event::OpenFailed { cause } => if copying {
                    Pipeline {
                        phase: Phase::Failed(
                            PipelineError::SegmentOpenFailed {
                                name: self.names@[self.completed as int],
                                cause,
                            },
                        ),
                        ..self
                    }
                } else {
                    self
                },
                Event::DecompressFailed { cause } => if copying {
                    Pipeline {
                        phase: Phase::Failed(
                            PipelineError::DecompressionFailed {
                                name: self.names@[self.completed as int],
                                cause,
                            },
                        ),
                        ..self
                    }
                } else {
                    self
                },
                Event::SinkFailed { cause } => Pipeline {
                    phase: Phase::Failed(PipelineError::SinkIOFailed { cause }),
                    ..self
                },
                Event::Flushed => if copying {
                    self
                } else {
                    Pipeline { phase: Phase::Done, ..self }
                },
            },
            _ => self,
        }
    }

    pub fn new(names: Vec<String>) -> (p: Pipeline)
        ensures
            p == start(names),
            p.wf(),
    {
        Pipeline { names, completed: 0, phase: Phase::Running }
    }

    pub fn next_action(&self) -> (a: Action)
        requires
            self.wf(),
        ensures
            a == self.spec_next_action(),
    {
        match self.phase {
            Phase::Running => {
                if self.completed < self.names.len() {
                    Action::Copy {
                        index: self.completed,
                        total: self.names.len(),
                        name: self.names[self.completed].clone(),
                    }
                } else {
                    Action::Flush
                }
            },
            _ => Action::Stop,
        }
    }

    pub fn handle(&mut self, e: Event)
        requires
            old(self).wf(),
        ensures
            *final(self) == old(self).spec_step(e),
            final(self).wf(),
    {
        if let Phase::Running = self.phase {
            let copying = self.completed < self.names.len();
            match e {
                Event::Copied => {
                    if copying {
                        self.completed = self.completed + 1;
                    }
                },
                Event::OpenFailed { cause } => {
                    if copying {
                        let name = self.names[self.completed].clone();
                        self.phase = Phase::Failed(
                            PipelineError::SegmentOpenFailed { name, cause },
                        );
                    }
                },
                Event::DecompressFailed { cause } => {
                    if copying {
                        let name = self.names[self.completed].clone();
                        self.phase = Phase::Failed(
                            PipelineError::DecompressionFailed { name, cause },
                        );
                    }
                },
                Event::SinkFailed { cause } => {
                    self.phase = Phase::Failed(PipelineError::SinkIOFailed { cause });
                },
                Event::Flushed => {
                    if !copying {
                        self.phase = Phase::Done;
                    }
                },
            }
        }
    }

    /// The result of a run that is over.
    pub fn outcome(self) -> (r: Result<(), PipelineError>)
        requires
            !(self.phase is Running),
        ensures
            self.phase is Done ==> r is Ok,
            self.phase matches Phase::Failed(err) ==> r == Err::<(), PipelineError>(err),
    {
        match self.phase {
            Phase::Failed(err) => Err(err),
            _ => Ok(()),
        }
    }
}

/// Segments are copied in the order given: after the first `k` segments were
/// copied, the run asks for segment `k`, and after the last one, for a flush.
pub proof fn lemma_segments_copied_in_order(names: Vec<String>, k: nat)
    requires
        k <= names@.len() <= usize::MAX,
    ensures
        copies(start(names), k) == (Pipeline { completed: k as usize, ..start(names) }),
        k < names@.len() ==> copies(start(names), k).spec_next_action() == (Action::Copy {
            index: k as usize,
            total: names@.len() as usize,
            name: names@[k as int],
        }),
        k == names@.len() ==> copies(start(names), k).spec_next_action() == Action::Flush,
    decreases k,
{
    if k > 0 {
        lemma_segments_copied_in_order(names, (k - 1) as nat);
    }
}

/// A run that has failed stays failed: whatever events follow, its state does
/// not change and it asks for nothing more.
pub proof fn lemma_failure_is_final(p: Pipeline, events: Seq<Event>)
    requires
        p.phase is Failed,
    ensures
        run(p, events) == p,
        run(p, events).spec_next_action() == Action::Stop,
    decreases events.len(),
{
    if events.len() > 0 {
        lemma_failure_is_final(p.spec_step(events[0]), events.drop_first());
    }
}

/// When segment `k` cannot be opened after the segments before it were copied,
/// the run fails with `SegmentOpenFailed` naming that segment, and never asks
/// for a later segment, whatever events follow.
pub proof fn lemma_missing_segment_aborts(
    names: Vec<String>,
    k: nat,
    cause: String,
    later: Seq<Event>,
)
    requires
        k < names@.len() <= usize::MAX,
    ensures
        ({
            let failed = copies(start(names), k).spec_step(Event::OpenFailed { cause });
            &&& failed.completed == k
            &&& failed.phase == Phase::Failed(
                PipelineError::SegmentOpenFailed { name: names@[k as int], cause },
            )
            &&& run(failed, later) == failed
            &&& run(failed, later).spec_next_action() == Action::Stop
        }),
{
    lemma_segments_copied_in_order(names, k);
    let failed = copies(start(names), k).spec_step(Event::OpenFailed { cause });
    lemma_failure_is_final(failed, later);
}

} // verus!
