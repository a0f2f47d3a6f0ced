//! What every node of the graph can do: be located, be put into a ring and
//! taken out of it, and hand out identifiers for its descendants.

use crate::dirs::StorageRoot;
use crate::ident::{stem_of, MioId, OpId, RingId};
use crate::kind::{ext_kind, ext_name, EntityExt, EntityKind, EntityLike};
use crate::model::{Concrete, Lazy, Operation, Specter};
use crate::ring::{AnySpecter, MioRing, RingView};
use vstd::prelude::*;
use vstd::string::StringExecFns;

verus! {

/// The name of the file of a specter: its stem, a dot, and its extension.
pub open spec fn file_name_of(id: MioId, ext: EntityExt) -> Seq<char> {
    stem_of(id.0) + seq!['.'] + ext_name(ext)
}

/// The name of the file of a specter.
pub fn file_name(id: MioId, ext: EntityExt) -> (name: String)
    ensures
        name@ == file_name_of(id, ext),
{
    let mut name = id.stem();
    proof {
        reveal_strlit(".");
        assert("."@ =~= seq!['.']);
    }
    name.append(".");
    name.append(ext.name());
    name
}

/// What has a place on disk: a root directory, and a file name under it.
pub trait Locatable {
    /// The root under which the content is kept, as contracts speak of it.
    spec fn root_of(&self) -> StorageRoot;

    /// The name of the file, as contracts speak of it.
    spec fn name_of(&self) -> Seq<char>;

    /// The extension, as contracts speak of it.
    spec fn extension_of(&self) -> EntityExt;

    /// The root under which the content is kept.
    fn root(&self) -> (root: StorageRoot)
        ensures
            root == self.root_of(),
    ;

    /// The name of the file under the root.
    fn file_name(&self) -> (name: String)
        ensures
            name@ == self.name_of(),
    ;

    /// The extension of the content.
    fn extension(&self) -> (ext: EntityExt)
        ensures
            ext == self.extension_of(),
    ;
}

impl Locatable for Specter<Concrete> {
    open spec fn root_of(&self) -> StorageRoot {
        StorageRoot::Data
    }

    open spec fn name_of(&self) -> Seq<char> {
        file_name_of(self.id, self.ext)
    }

    open spec fn extension_of(&self) -> EntityExt {
        self.ext
    }

    fn root(&self) -> (root: StorageRoot) {
        StorageRoot::Data
    }

    fn file_name(&self) -> (name: String) {
        file_name(self.id, self.ext)
    }

    fn extension(&self) -> (ext: EntityExt) {
        self.ext
    }
}

impl Locatable for Specter<Lazy> {
    open spec fn root_of(&self) -> StorageRoot {
        StorageRoot::Cache
    }

    open spec fn name_of(&self) -> Seq<char> {
        file_name_of(self.id, self.ext)
    }

    open spec fn extension_of(&self) -> EntityExt {
        self.ext
    }

    fn root(&self) -> (root: StorageRoot) {
        StorageRoot::Cache
    }

    fn file_name(&self) -> (name: String) {
        file_name(self.id, self.ext)
    }

    fn extension(&self) -> (ext: EntityExt) {
        self.ext
    }
}

/// What can be put into a ring and taken out of it.
pub trait Ringable {
    /// The identifier, as contracts speak of it.
    spec fn identifier_of(&self) -> RingId;

    /// What the item depends on or is depended on by, as contracts speak of
    /// it.
    spec fn deps_of(&self) -> Seq<RingId>;

    /// The ring with this item in it, in place of what was there under its
    /// identifier.
    spec fn ringed(&self, ring: RingView) -> RingView;

    /// The ring without what is there under the identifier of this item.
    spec fn unringed(&self, ring: RingView) -> RingView;

    /// The identifier of the item.
    fn identifier(&self) -> (id: RingId)
        ensures
            id == self.identifier_of(),
    ;

    /// For a specter, the operations that read it; for an operation, the
    /// specters that it reads.
    fn deps(&self) -> (deps: Vec<RingId>)
        ensures
            deps@ == self.deps_of(),
    ;

    /// Adds one at the rear of them.
    fn deps_push(&mut self, dep: RingId)
        ensures
            final(self).deps_of() == old(self).deps_of().push(dep),
            final(self).identifier_of() == old(self).identifier_of(),
    ;

    /// Puts a copy of the item into a ring.
    fn ring(&self, ring: &mut MioRing)
        ensures
            final(ring)@ == self.ringed(old(ring)@),
    ;

    /// Takes what is under the identifier of the item out of a ring.
    fn unring(&self, ring: &mut MioRing)
        ensures
            final(ring)@ == self.unringed(old(ring)@),
    ;
}

/// The identifiers under a list of operation identifiers.
pub open spec fn plain_ops(ids: Seq<OpId>) -> Seq<RingId> {
    ids.map_values(|id: OpId| id.0)
}

/// The identifiers under a list of specter identifiers.
pub open spec fn plain_nodes(ids: Seq<MioId>) -> Seq<RingId> {
    ids.map_values(|id: MioId| id.0)
}

fn plain_ops_of(ids: &Vec<OpId>) -> (plain: Vec<RingId>)
    ensures
        plain@ == plain_ops(ids@),
{
    let mut plain: Vec<RingId> = Vec::new();
    let mut i: usize = 0;
    while i < ids.len()
        invariant
            i <= ids@.len(),
            plain@ == plain_ops(ids@.subrange(0, i as int)),
        decreases ids@.len() - i,
    {
        plain.push(ids[i].0);
        assert(plain@ =~= plain_ops(ids@.subrange(0, i + 1)));
        i += 1;
    }
    assert(ids@.subrange(0, i as int) =~= ids@);
    plain
}

fn plain_nodes_of(ids: &Vec<MioId>) -> (plain: Vec<RingId>)
    ensures
        plain@ == plain_nodes(ids@),
{
    let mut plain: Vec<RingId> = Vec::new();
    let mut i: usize = 0;
    while i < ids.len()
        invariant
            i <= ids@.len(),
            plain@ == plain_nodes(ids@.subrange(0, i as int)),
        decreases ids@.len() - i,
    {
        plain.push(ids[i].0);
        assert(plain@ =~= plain_nodes(ids@.subrange(0, i + 1)));
        i += 1;
    }
    assert(ids@.subrange(0, i as int) =~= ids@);
    plain
}

impl Ringable for Specter<Concrete> {
    open spec fn identifier_of(&self) -> RingId {
        self.id.0
    }

    open spec fn deps_of(&self) -> Seq<RingId> {
        plain_ops(self.deps@)
    }

    open spec fn ringed(&self, ring: RingView) -> RingView {
        RingView {
            entities: ring.entities.insert(self.id, self@),
            operations: ring.operations,
            specters: ring.specters,
        }
    }

    open spec fn unringed(&self, ring: RingView) -> RingView {
        RingView {
            entities: ring.entities.remove(self.id),
            operations: ring.operations,
            specters: ring.specters,
        }
    }

    fn identifier(&self) -> (id: RingId) {
        self.id.0
    }

    fn deps(&self) -> (deps: Vec<RingId>) {
        plain_ops_of(&self.deps)
    }

    fn deps_push(&mut self, dep: RingId) {
        self.deps.push(OpId(dep));
        assert(plain_ops(self.deps@) =~= plain_ops(old(self).deps@).push(dep));
    }

    fn ring(&self, ring: &mut MioRing) {
        ring.entities.insert(self.id, self.clone());
    }

    fn unring(&self, ring: &mut MioRing) {
        ring.entities.remove(&self.id);
    }
}

impl Ringable for Specter<Lazy> {
    open spec fn identifier_of(&self) -> RingId {
        self.id.0
    }

    open spec fn deps_of(&self) -> Seq<RingId> {
        plain_ops(self.deps@)
    }

    open spec fn ringed(&self, ring: RingView) -> RingView {
        RingView {
            entities: ring.entities,
            operations: ring.operations,
            specters: ring.specters.insert(self.id, self@),
        }
    }

    open spec fn unringed(&self, ring: RingView) -> RingView {
        RingView {
            entities: ring.entities,
            operations: ring.operations,
            specters: ring.specters.remove(self.id),
        }
    }

    fn identifier(&self) -> (id: RingId) {
        self.id.0
    }

    fn deps(&self) -> (deps: Vec<RingId>) {
        plain_ops_of(&self.deps)
    }

    fn deps_push(&mut self, dep: RingId) {
        self.deps.push(OpId(dep));
        assert(plain_ops(self.deps@) =~= plain_ops(old(self).deps@).push(dep));
    }

    fn ring(&self, ring: &mut MioRing) {
        ring.specters.insert(self.id, self.clone());
    }

    fn unring(&self, ring: &mut MioRing) {
        ring.specters.remove(&self.id);
    }
}

impl Ringable for Operation {
    open spec fn identifier_of(&self) -> RingId {
        self.id.0
    }

    open spec fn deps_of(&self) -> Seq<RingId> {
        plain_nodes(self.base@)
    }

    open spec fn ringed(&self, ring: RingView) -> RingView {
        RingView {
            entities: ring.entities,
            operations: ring.operations.insert(self.id, self@),
            specters: ring.specters,
        }
    }

    open spec fn unringed(&self, ring: RingView) -> RingView {
        RingView {
            entities: ring.entities,
            operations: ring.operations.remove(self.id),
            specters: ring.specters,
        }
    }

    fn identifier(&self) -> (id: RingId) {
        self.id.0
    }

    fn deps(&self) -> (deps: Vec<RingId>) {
        plain_nodes_of(&self.base)
    }

    fn deps_push(&mut self, dep: RingId) {
        self.base.push(MioId(dep));
        assert(plain_nodes(self.base@) =~= plain_nodes(old(self).base@).push(dep));
    }

    fn ring(&self, ring: &mut MioRing) {
        ring.operations.insert(self.id, self.clone());
    }

    fn unring(&self, ring: &mut MioRing) {
        ring.operations.remove(&self.id);
    }
}

/// What can hand out identifiers for its descendants.
pub trait Allocable {
    /// The ordinals that it has to hand out.
    spec fn reserve(&self) -> Set<usize>;

    /// Hands out the lowest of its ordinals, if it has any, as an identifier
    /// stamped with the current time.
    fn allocate(&mut self) -> (id: Option<RingId>)
        ensures
            match id {
                Some(id) => {
                    &&& crate::pool::is_lowest(old(self).reserve(), id.ord)
                    &&& final(self).reserve() == old(self).reserve().remove(id.ord)
                },
                None => {
                    &&& old(self).reserve().is_empty()
                    &&& final(self).reserve() == old(self).reserve()
                },
            },
    ;
}

impl Allocable for Specter<Concrete> {
    open spec fn reserve(&self) -> Set<usize> {
        self.body.pool@
    }

    fn allocate(&mut self) -> (id: Option<RingId>) {
        self.body.pool.allocate()
    }
}

impl Allocable for Specter<Lazy> {
    open spec fn reserve(&self) -> Set<usize> {
        Set::empty()
    }

    fn allocate(&mut self) -> (id: Option<RingId>) {
        None
    }
}

/// Everything that a specter is: it has a kind and a place on disk, can be
/// put into a ring, and can hand out identifiers.
pub trait Specterish: EntityLike + Locatable + Ringable + Allocable {

}

impl<T: EntityLike + Locatable + Ringable + Allocable> Specterish for T {

}

impl EntityLike for AnySpecter {
    open spec fn kind_of(&self) -> EntityKind {
        match self {
            AnySpecter::Concrete(entity) => ext_kind(entity.ext),
            AnySpecter::Lazy(specter) => ext_kind(specter.ext),
        }
    }

    open spec fn ext_of(&self) -> EntityExt {
        match self {
            AnySpecter::Concrete(entity) => entity.ext,
            AnySpecter::Lazy(specter) => specter.ext,
        }
    }

    fn kind(&self) -> (kind: EntityKind) {
        match self {
            AnySpecter::Concrete(entity) => entity.kind(),
            AnySpecter::Lazy(specter) => specter.kind(),
        }
    }

    fn ext_hint(&self) -> (ext: EntityExt) {
        match self {
            AnySpecter::Concrete(entity) => entity.ext,
            AnySpecter::Lazy(specter) => specter.ext,
        }
    }
}

impl Locatable for AnySpecter {
    open spec fn root_of(&self) -> StorageRoot {
        match self {
            AnySpecter::Concrete(_) => StorageRoot::Data,
            AnySpecter::Lazy(_) => StorageRoot::Cache,
        }
    }

    open spec fn name_of(&self) -> Seq<char> {
        match self {
            AnySpecter::Concrete(entity) => file_name_of(entity.id, entity.ext),
            AnySpecter::Lazy(specter) => file_name_of(specter.id, specter.ext),
        }
    }

    open spec fn extension_of(&self) -> EntityExt {
        match self {
            AnySpecter::Concrete(entity) => entity.ext,
            AnySpecter::Lazy(specter) => specter.ext,
        }
    }

    fn root(&self) -> (root: StorageRoot) {
        match self {
            AnySpecter::Concrete(_) => StorageRoot::Data,
            AnySpecter::Lazy(_) => StorageRoot::Cache,
        }
    }

    fn file_name(&self) -> (name: String) {
        match self {
            AnySpecter::Concrete(entity) => file_name(entity.id, entity.ext),
            AnySpecter::Lazy(specter) => file_name(specter.id, specter.ext),
        }
    }

    fn extension(&self) -> (ext: EntityExt) {
        match self {
            AnySpecter::Concrete(entity) => entity.ext,
            AnySpecter::Lazy(specter) => specter.ext,
        }
    }
}

impl Ringable for AnySpecter {
    open spec fn identifier_of(&self) -> RingId {
        match self {
            AnySpecter::Concrete(entity) => entity.id.0,
            AnySpecter::Lazy(specter) => specter.id.0,
        }
    }

    open spec fn deps_of(&self) -> Seq<RingId> {
        match self {
            AnySpecter::Concrete(entity) => plain_ops(entity.deps@),
            AnySpecter::Lazy(specter) => plain_ops(specter.deps@),
        }
    }

    open spec fn ringed(&self, ring: RingView) -> RingView {
        match self {
            AnySpecter::Concrete(entity) => entity.ringed(ring),
            AnySpecter::Lazy(specter) => specter.ringed(ring),
        }
    }

    open spec fn unringed(&self, ring: RingView) -> RingView {
        match self {
            AnySpecter::Concrete(entity) => entity.unringed(ring),
            AnySpecter::Lazy(specter) => specter.unringed(ring),
        }
    }

    fn identifier(&self) -> (id: RingId) {
        match self {
            AnySpecter::Concrete(entity) => entity.id.0,
            AnySpecter::Lazy(specter) => specter.id.0,
        }
    }

    fn deps(&self) -> (deps: Vec<RingId>) {
        match self {
            AnySpecter::Concrete(entity) => plain_ops_of(&entity.deps),
            AnySpecter::Lazy(specter) => plain_ops_of(&specter.deps),
        }
    }

    fn deps_push(&mut self, dep: RingId) {
        match self {
            AnySpecter::Concrete(entity) => {
                entity.deps_push(dep);
            },
            AnySpecter::Lazy(specter) => {
                specter.deps_push(dep);
            },
        }
    }

    fn ring(&self, ring: &mut MioRing) {
        match self {
            AnySpecter::Concrete(entity) => {
                entity.ring(ring);
            },
            AnySpecter::Lazy(specter) => {
                specter.ring(ring);
            },
        }
    }

    fn unring(&self, ring: &mut MioRing) {
        match self {
            AnySpecter::Concrete(entity) => {
                entity.unring(ring);
            },
            AnySpecter::Lazy(specter) => {
                specter.unring(ring);
            },
        }
    }
}

impl Allocable for AnySpecter {
    open spec fn reserve(&self) -> Set<usize> {
        match self {
            AnySpecter::Concrete(entity) => entity.body.pool@,
            AnySpecter::Lazy(_) => Set::empty(),
        }
    }

    fn allocate(&mut self) -> (id: Option<RingId>) {
        match self {
            AnySpecter::Concrete(entity) => entity.body.pool.allocate(),
            AnySpecter::Lazy(_) => None,
        }
    }
}

} // verus!
