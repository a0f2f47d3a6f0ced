//! The records of the graph: specters, concrete or lazy, and the operations
//! between them.

use crate::ident::{MioId, OpId};
use crate::kind::{ext_kind, EntityExt, EntityKind, EntityLike, OperationKind};
use crate::lists::copied;
use crate::pool::AllocPool;
use vstd::prelude::*;

verus! {

/// `serde_json::Value`, any JSON value: the parameters of an operation, which
/// this library carries and never reads.
#[verifier::external_type_specification]
#[verifier::external_body]
pub struct ExValue(serde_json::Value);

/// `Clone::clone` of `serde_json::Value`: a copy that is the same JSON
/// value.
#[verifier::external_body]
fn clone_value(value: &serde_json::Value) -> (copy: serde_json::Value)
    ensures
        copy == *value,
{
    value.clone()
}

/// Where a concrete specter comes from, and how it is treated.
#[derive(Debug, Clone, Copy, PartialEq, Eq, Structural)]
pub enum Providence {
    /// Captured from outside.
    Registered,
    /// Elevated from the result of an operation.
    Induced,
    /// Pinned by the user.
    Pinned,
}

impl Default for Providence {
    fn default() -> (providence: Providence)
        ensures
            providence == Providence::Registered,
    {
        Providence::Registered
    }
}

/// How a specter comes to be on disk: the marker of its two bodies.
pub trait Actualizer: View {

}

/// The body of a specter whose content is on disk already.
#[derive(Debug)]
pub struct Concrete {
    /// Ordinals set aside for the descendants of the entity.
    pub pool: AllocPool,
    /// Where the entity comes from.
    pub providence: Providence,
}

/// What a concrete body is to contracts.
pub struct ConcreteView {
    pub pool: Set<usize>,
    pub providence: Providence,
}

impl View for Concrete {
    type V = ConcreteView;

    open spec fn view(&self) -> ConcreteView {
        ConcreteView { pool: self.pool@, providence: self.providence }
    }
}

impl Actualizer for Concrete {

}

impl Clone for Concrete {
    fn clone(&self) -> (copy: Concrete)
        ensures
            copy@ == self@,
    {
        Concrete { pool: self.pool.clone(), providence: self.providence }
    }
}

/// The body of a specter whose content an operation produces on demand.
#[derive(Debug, Clone, Copy, PartialEq, Eq, Structural)]
pub struct Lazy {
    /// The operation that results in the specter.
    pub operation: OpId,
}

impl View for Lazy {
    type V = Lazy;

    open spec fn view(&self) -> Lazy {
        *self
    }
}

impl Actualizer for Lazy {

}

/// A node of the graph that stands for a piece of content.
#[derive(Debug)]
pub struct Specter<Body: Actualizer> {
    /// The identifier of the specter itself.
    pub id: MioId,
    /// The file extension of its content.
    pub ext: EntityExt,
    /// The operations that read this specter.
    pub deps: Vec<OpId>,
    /// How it comes to be on disk.
    pub body: Body,
}

/// What a specter is to contracts.
pub struct SpecterView<B> {
    pub id: MioId,
    pub ext: EntityExt,
    pub deps: Seq<OpId>,
    pub body: B,
}

impl<Body: Actualizer> View for Specter<Body> {
    type V = SpecterView<Body::V>;

    open spec fn view(&self) -> SpecterView<Body::V> {
        SpecterView { id: self.id, ext: self.ext, deps: self.deps@, body: self.body@ }
    }
}

impl<Body: Actualizer> EntityLike for Specter<Body> {
    open spec fn kind_of(&self) -> EntityKind {
        ext_kind(self.ext)
    }

    open spec fn ext_of(&self) -> EntityExt {
        self.ext
    }

    fn kind(&self) -> (kind: EntityKind) {
        self.ext.kind()
    }

    fn ext_hint(&self) -> (ext: EntityExt) {
        self.ext
    }
}

impl Clone for Specter<Concrete> {
    fn clone(&self) -> (copy: Specter<Concrete>)
        ensures
            copy@ == self@,
    {
        Specter { id: self.id, ext: self.ext, deps: copied(&self.deps), body: self.body.clone() }
    }
}

impl Clone for Specter<Lazy> {
    fn clone(&self) -> (copy: Specter<Lazy>)
        ensures
            copy@ == self@,
    {
        Specter { id: self.id, ext: self.ext, deps: copied(&self.deps), body: self.body }
    }
}

/// A transformation: what it is, its parameters, what it reads and what it
/// results in.
#[derive(Debug)]
pub struct Operation {
    /// The identifier of the operation itself.
    pub id: OpId,
    /// The kind of the transformation.
    pub kind: OperationKind,
    /// The parameters of the transformation.
    pub attr: serde_json::Value,
    /// The specters that the operation reads, in order.
    pub base: Vec<MioId>,
    /// The specter that the operation results in.
    pub specter: MioId,
}

/// What an operation is to contracts.
pub struct OperationView {
    pub id: OpId,
    pub kind: OperationKind,
    pub attr: serde_json::Value,
    pub base: Seq<MioId>,
    pub specter: MioId,
}

impl View for Operation {
    type V = OperationView;

    open spec fn view(&self) -> OperationView {
        OperationView {
            id: self.id,
            kind: self.kind,
            attr: self.attr,
            base: self.base@,
            specter: self.specter,
        }
    }
}

impl Clone for Operation {
    fn clone(&self) -> (copy: Operation)
        ensures
            copy@ == self@,
    {
        Operation {
            id: self.id,
            kind: self.kind,
            attr: clone_value(&self.attr),
            base: copied(&self.base),
            specter: self.specter,
        }
    }
}

} // verus!
