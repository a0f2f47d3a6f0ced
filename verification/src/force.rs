//! Actualizing specters: the decisions of a run, one step at a time. What a
//! step asks for, a probe of the disk or the work of a backend, is done
//! outside; its outcome comes back as the event of the next step.

use crate::ident::{MioId, OpId};
use crate::kind::{analyzed, EntityKind, OperationKind};
use crate::mio::Mio;
use crate::ring::{MioRing, RingView};
use vstd::prelude::*;

verus! {

/// The backends that can carry out a transformation.
#[derive(Debug, Clone, Copy, PartialEq, Eq, Structural)]
pub enum Backend {
    /// Cuts a rectangle out of an image.
    Crop,
    /// Reads the text off an image.
    Ocr,
}

/// One piece of work for a backend: the operation to carry out, on the
/// content of `source`, for the content of `target`.
#[derive(Debug, Clone, Copy, PartialEq, Eq, Structural)]
pub struct Job {
    pub operation: OpId,
    pub backend: Backend,
    pub source: MioId,
    pub target: MioId,
}

/// Why a run came to an end before its work was done.
#[derive(Debug, Clone, Copy, PartialEq, Eq, Structural)]
pub enum ForceFailure {
    /// A specter that the run came to is not in the live ring.
    NotFound(MioId),
    /// An operation that the run came to is not in the live ring.
    OperationNotFound(OpId),
    /// The operation is not legal on what it reads.
    Unsupported(OpId),
    /// No backend carries out operations of this kind.
    NoBackend(OpId),
    /// The backend failed at the operation, or its result could not be
    /// written.
    Backend(OpId),
    /// An event came that answers nothing that was asked.
    OutOfTurn,
}

/// What a run has before it: a specter to actualize, or a job whose source
/// is actualized.
#[derive(Debug, Clone, Copy, PartialEq, Eq, Structural)]
pub enum Frame {
    Node(MioId),
    Apply(Job),
}

/// What a step of a run asks of the outside.
#[derive(Debug, Clone, Copy, PartialEq, Eq, Structural)]
pub enum ForceAction {
    /// See whether the content of this lazy specter is in the cache, and
    /// answer `Present` or `Absent`.
    Probe(MioId),
    /// Have the backend do this job and write its result, and answer
    /// `Written` or `Failed`.
    Apply(Job),
    /// Nothing: the run is done.
    Finished,
    /// Nothing: the run has failed.
    Fail(ForceFailure),
}

/// What happened outside since the last step.
#[derive(Debug, Clone, Copy, PartialEq, Eq, Structural)]
pub enum ForceEvent {
    /// Nothing yet: the run begins.
    Begin,
    /// The content that was probed for is in the cache.
    Present,
    /// The content that was probed for is not in the cache.
    Absent,
    /// The job was done and its result written.
    Written,
    /// The job failed.
    Failed,
}

/// What is to be done about an operation whose result is wanted.
#[derive(Debug, Clone, Copy, PartialEq, Eq, Structural)]
pub enum Plan {
    /// A backend does this job, once the source is actualized.
    Run(Job),
    /// Nothing: the operation passes its input through.
    Nothing,
    /// It cannot be done.
    Fail(ForceFailure),
}

/// What is to be done about an operation of a ring whose result is wanted:
/// the operation has to be in the ring with all that it reads, and legal on
/// it; cropping and reading text off an image are jobs for the backends,
/// text turned into text passes through, and nothing else has a backend.
pub open spec fn planned(ring: RingView, op: OpId) -> Plan {
    if !ring.operations.contains_key(op) {
        Plan::Fail(ForceFailure::OperationNotFound(op))
    } else {
        let operation = ring.operations[op];
        match ring.first_missing(operation.base) {
            Some(missing) => Plan::Fail(ForceFailure::NotFound(missing)),
            None => match analyzed(operation.kind, ring.kinds(operation.base)) {
                None => Plan::Fail(ForceFailure::Unsupported(op)),
                Some(_) => {
                    let source = operation.base[0];
                    let target = operation.specter;
                    match (operation.kind, ring.kind(source)) {
                        (OperationKind::Crop, EntityKind::Image) => Plan::Run(
                            Job { operation: op, backend: Backend::Crop, source, target },
                        ),
                        (OperationKind::As(EntityKind::Text), EntityKind::Image) => Plan::Run(
                            Job { operation: op, backend: Backend::Ocr, source, target },
                        ),
                        (OperationKind::As(EntityKind::Text), EntityKind::Text) => Plan::Nothing,
                        _ => Plan::Fail(ForceFailure::NoBackend(op)),
                    }
                },
            },
        }
    }
}

/// A run brought to the point where it has to ask something of the outside:
/// entities on top of what is before it need nothing and are taken off; a
/// lazy specter on top is probed for; a job on top is handed out.
pub open spec fn settled(ring: RingView, stack: Seq<Frame>) -> (Seq<Frame>, ForceAction)
    decreases stack.len(),
{
    if stack.len() == 0 {
        (stack, ForceAction::Finished)
    } else {
        match stack.last() {
            Frame::Node(id) => if ring.entities.contains_key(id) {
                settled(ring, stack.drop_last())
            } else if ring.specters.contains_key(id) {
                (stack, ForceAction::Probe(id))
            } else {
                (stack, ForceAction::Fail(ForceFailure::NotFound(id)))
            },
            Frame::Apply(job) => (stack, ForceAction::Apply(job)),
        }
    }
}

/// One step of a run: what is before it after the event, and what it asks
/// next. Content that is present needs nothing more. For content that is
/// absent, the operation that results in it is planned: its job is put
/// before the run, and before the job the specter that it reads. A job that
/// is written is done with. A job that failed fails the run, and so does an
/// event that answers nothing that was asked.
pub open spec fn stepped(ring: RingView, stack: Seq<Frame>, event: ForceEvent) -> (
    Seq<Frame>,
    ForceAction,
) {
    match event {
        ForceEvent::Begin => settled(ring, stack),
        ForceEvent::Present => if probing(ring, stack) {
            settled(ring, stack.drop_last())
        } else {
            (stack, ForceAction::Fail(ForceFailure::OutOfTurn))
        },
        ForceEvent::Absent => if probing(ring, stack) {
            match planned(ring, ring.specters[stack.last()->Node_0].body.operation) {
                Plan::Run(job) => settled(
                    ring,
                    stack.drop_last().push(Frame::Apply(job)).push(Frame::Node(job.source)),
                ),
                Plan::Nothing => settled(ring, stack.drop_last()),
                Plan::Fail(failure) => (stack, ForceAction::Fail(failure)),
            }
        } else {
            (stack, ForceAction::Fail(ForceFailure::OutOfTurn))
        },
        ForceEvent::Written => if stack.len() > 0 && stack.last() is Apply {
            settled(ring, stack.drop_last())
        } else {
            (stack, ForceAction::Fail(ForceFailure::OutOfTurn))
        },
        ForceEvent::Failed => if stack.len() > 0 && stack.last() is Apply {
            (stack, ForceAction::Fail(ForceFailure::Backend(stack.last()->Apply_0.operation)))
        } else {
            (stack, ForceAction::Fail(ForceFailure::OutOfTurn))
        },
    }
}

/// Whether a run waits for the answer to a probe: a lazy specter is on top
/// of what is before it.
pub open spec fn probing(ring: RingView, stack: Seq<Frame>) -> bool {
    &&& stack.len() > 0
    &&& stack.last() is Node
    &&& !ring.entities.contains_key(stack.last()->Node_0)
    &&& ring.specters.contains_key(stack.last()->Node_0)
}

impl MioRing {
    /// What is to be done about an operation whose result is wanted.
    pub fn plan(&self, op: OpId) -> (plan: Plan)
        ensures
            plan == planned(self@, op),
    {
        let operation = match self.operations.get(&op) {
            Some(operation) => operation,
            None => {
                return Plan::Fail(ForceFailure::OperationNotFound(op));
            },
        };
        let kinds = match self.kinds(&operation.base) {
            Ok(kinds) => kinds,
            Err(missing) => {
                return Plan::Fail(ForceFailure::NotFound(missing));
            },
        };
        proof {
            self@.lemma_first_missing(operation.base@, operation.base@.len() as int);
        }
        match operation.kind.analyze(&kinds) {
            Ok(_) => {},
            Err(_) => {
                return Plan::Fail(ForceFailure::Unsupported(op));
            },
        }
        let source = operation.base[0];
        let target = operation.specter;
        assert(self@.kinds(operation.base@)[0] == self@.kind(source));
        match (operation.kind, kinds[0]) {
            (OperationKind::Crop, EntityKind::Image) => Plan::Run(
                Job { operation: op, backend: Backend::Crop, source, target },
            ),
            (OperationKind::As(EntityKind::Text), EntityKind::Image) => Plan::Run(
                Job { operation: op, backend: Backend::Ocr, source, target },
            ),
            (OperationKind::As(EntityKind::Text), EntityKind::Text) => Plan::Nothing,
            _ => Plan::Fail(ForceFailure::NoBackend(op)),
        }
    }
}

/// A run: what is still before it, the next on top.
#[derive(Debug)]
pub struct Forcing {
    pub stack: Vec<Frame>,
}

impl View for Forcing {
    type V = Seq<Frame>;

    open spec fn view(&self) -> Seq<Frame> {
        self.stack@
    }
}

impl Forcing {
    /// Brings the run to the point where it has to ask something of the
    /// outside, and says what.
    fn settle(&mut self, ring: &MioRing) -> (action: ForceAction)
        ensures
            (final(self)@, action) == settled(ring@, old(self)@),
    {
        loop
            invariant
                settled(ring@, self@) == settled(ring@, old(self)@),
            decreases self@.len(),
        {
            if self.stack.len() == 0 {
                return ForceAction::Finished;
            }
            match self.stack[self.stack.len() - 1] {
                Frame::Node(id) => {
                    if ring.entities.contains_key(&id) {
                        self.stack.pop();
                    } else if ring.specters.contains_key(&id) {
                        return ForceAction::Probe(id);
                    } else {
                        return ForceAction::Fail(ForceFailure::NotFound(id));
                    }
                },
                Frame::Apply(job) => {
                    return ForceAction::Apply(job);
                },
            }
        }
    }

    /// One step of the run on an aggregate: takes what happened outside since
    /// the last step, and says what the run asks next.
    pub fn step(&mut self, mio: &Mio, event: ForceEvent) -> (action: ForceAction)
        ensures
            (final(self)@, action) == stepped(mio@.ring, old(self)@, event),
    {
        let ring = &mio.ring;
        let probing = self.stack.len() > 0 && match self.stack[self.stack.len() - 1] {
            Frame::Node(id) => !ring.entities.contains_key(&id) && ring.specters.contains_key(&id),
            Frame::Apply(_) => false,
        };
        let applying = self.stack.len() > 0 && match self.stack[self.stack.len() - 1] {
            Frame::Node(_) => false,
            Frame::Apply(_) => true,
        };
        match event {
            ForceEvent::Begin => self.settle(ring),
            ForceEvent::Present => {
                if probing {
                    self.stack.pop();
                    self.settle(ring)
                } else {
                    ForceAction::Fail(ForceFailure::OutOfTurn)
                }
            },
            ForceEvent::Absent => {
                if probing {
                    let operation = match self.stack[self.stack.len() - 1] {
                        Frame::Node(id) => match ring.specters.get(&id) {
                            Some(specter) => specter.body.operation,
                            None => vstd::pervasive::unreached(),
                        },
                        Frame::Apply(_) => vstd::pervasive::unreached(),
                    };
                    match ring.plan(operation) {
                        Plan::Run(job) => {
                            self.stack.pop();
                            self.stack.push(Frame::Apply(job));
                            self.stack.push(Frame::Node(job.source));
                            self.settle(ring)
                        },
                        Plan::Nothing => {
                            self.stack.pop();
                            self.settle(ring)
                        },
                        Plan::Fail(failure) => ForceAction::Fail(failure),
                    }
                } else {
                    ForceAction::Fail(ForceFailure::OutOfTurn)
                }
            },
            ForceEvent::Written => {
                if applying {
                    self.stack.pop();
                    self.settle(ring)
                } else {
                    ForceAction::Fail(ForceFailure::OutOfTurn)
                }
            },
            ForceEvent::Failed => {
                if applying {
                    match self.stack[self.stack.len() - 1] {
                        Frame::Apply(job) => ForceAction::Fail(
                            ForceFailure::Backend(job.operation),
                        ),
                        Frame::Node(_) => vstd::pervasive::unreached(),
                    }
                } else {
                    ForceAction::Fail(ForceFailure::OutOfTurn)
                }
            },
        }
    }
}

/// The command that actualizes specters.
#[derive(Debug)]
pub struct MioForce {
    /// The specters to actualize, in order.
    pub ids: Vec<MioId>,
}

impl MioForce {
    /// What is before a run that is to actualize the given specters in their
    /// order: the first of them on top.
    pub open spec fn stack(ids: Seq<MioId>) -> Seq<Frame> {
        ids.reverse().map_values(|id: MioId| Frame::Node(id))
    }

    /// Begins the run that the command asks for on an aggregate, and says
    /// what it asks first. The aggregate is not changed, by this or by any
    /// step of the run.
    pub fn interpret(self, mio: &Mio) -> (run: (Forcing, ForceAction))
        ensures
            (run.0@, run.1) == stepped(mio@.ring, Self::stack(self.ids@), ForceEvent::Begin),
    {
        let mut stack: Vec<Frame> = Vec::new();
        let mut i: usize = self.ids.len();
        while i > 0
            invariant
                i <= self.ids@.len(),
                stack@.len() == self.ids@.len() - i,
                forall|k: int|
                    0 <= k < stack@.len() ==> stack@[k] == Frame::Node(
                        self.ids@[self.ids@.len() - 1 - k],
                    ),
            decreases i,
        {
            i -= 1;
            stack.push(Frame::Node(self.ids[i]));
        }
        assert(stack@ =~= Self::stack(self.ids@));
        let mut forcing = Forcing { stack };
        let action = forcing.step(mio, ForceEvent::Begin);
        (forcing, action)
    }
}

/// Settling only takes off what is before a run.
pub proof fn lemma_settled_prefix(ring: RingView, stack: Seq<Frame>)
    ensures
        settled(ring, stack).0.is_prefix_of(stack),
    decreases stack.len(),
{
    if stack.len() > 0 {
        lemma_settled_prefix(ring, stack.drop_last());
    }
}

/// Memoization: where the content that a run probes for is present, the step
/// puts no job before the run, and only takes the specter off: what is
/// before the run after it was before it already. In a run for that specter
/// alone, the run is done without any transformation.
pub proof fn lemma_present_is_memoized(ring: RingView, stack: Seq<Frame>, lazy: MioId)
    requires
        stack.len() > 0,
        stack.last() == Frame::Node(lazy),
        ring.specters.contains_key(lazy),
        !ring.entities.contains_key(lazy),
    ensures
        stepped(ring, stack, ForceEvent::Begin) == (stack, ForceAction::Probe(lazy)),
        stepped(ring, stack, ForceEvent::Present).0.is_prefix_of(stack.drop_last()),
        stack.len() == 1 ==> stepped(ring, stack, ForceEvent::Present) == (
            Seq::<Frame>::empty(),
            ForceAction::Finished,
        ),
{
    lemma_settled_prefix(ring, stack.drop_last());
    if stack.len() == 1 {
        assert(stack.drop_last() =~= Seq::<Frame>::empty());
    }
}

} // verus!
