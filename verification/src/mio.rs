//! The aggregate: an allocator, a log, a live ring and an archived ring.

use crate::allocator::{Alloc, AllocView};
use crate::chronology::Ephemerality;
use crate::dirs::MioDirs;
use crate::error::MioError;
use crate::ident::{epoch_nanos, MioId};
use crate::kind::EntityExt;
use crate::model::{Concrete, ConcreteView, Lazy, Providence, Specter, SpecterView};
use crate::pool::AllocPool;
use crate::ring::{AnySpecter, MioRing, RingView};
use vstd::prelude::*;

verus! {

/// The number of ordinals set aside for the descendants of a registered
/// entity.
pub const POOL_SIZE: usize = 2;

/// The root of everything: one graph with its allocator and its log.
#[derive(Debug)]
pub struct Mio {
    /// Where the files live.
    pub dirs: MioDirs,
    /// The allocator of ordinals.
    pub alloc: Alloc,
    /// The identifier that stands for no entity.
    pub null: MioId,
    /// The moments at which entities were registered, oldest first.
    pub chronology: Vec<Ephemerality>,
    /// The live graph.
    pub ring: MioRing,
    /// What was archived and not purged yet.
    pub archived: MioRing,
}

/// What an aggregate is to contracts, but for its directories.
pub struct MioModel {
    pub alloc: AllocView,
    pub null: MioId,
    pub chronology: Seq<Ephemerality>,
    pub ring: RingView,
    pub archived: RingView,
}

impl View for Mio {
    type V = MioModel;

    open spec fn view(&self) -> MioModel {
        MioModel {
            alloc: self.alloc@,
            null: self.null,
            chronology: self.chronology@,
            ring: self.ring@,
            archived: self.archived@,
        }
    }
}

impl Mio {
    /// A fresh aggregate over the given directories: nothing in it but the
    /// null identifier, which takes the first ordinal.
    pub fn with_dirs(dirs: MioDirs) -> (mio: Mio)
        ensures
            mio.dirs == dirs,
            mio@.fresh(),
            mio@.wf(),
    {
        let mut alloc = Alloc::new();
        let null = MioId(alloc.allocate());
        assert(alloc@.hill =~= Set::<usize>::empty());
        let mio = Mio {
            dirs,
            alloc,
            null,
            chronology: Vec::new(),
            ring: MioRing::new(),
            archived: MioRing::new(),
        };
        proof {
            mio@.lemma_fresh_in_order();
        }
        mio
    }

    /// A copy of the live specter under an identifier, whichever body it has,
    /// if there is one.
    pub fn find(&self, id: &MioId) -> (node: Option<AnySpecter>)
        ensures
            match node {
                Some(AnySpecter::Concrete(entity)) => self.ring@.entities.contains_key(*id)
                    && entity@ == self.ring@.entities[*id],
                Some(AnySpecter::Lazy(specter)) => !self.ring@.entities.contains_key(*id)
                    && self.ring@.specters.contains_key(*id) && specter@
                    == self.ring@.specters[*id],
                None => !self.ring@.has(*id),
            },
    {
        self.ring.find(id)
    }

    /// A copy of the live specter under an identifier that is in the live
    /// ring, whichever body it has.
    pub fn specterish(&self, id: &MioId) -> (node: AnySpecter)
        requires
            self.ring@.has(*id),
        ensures
            match node {
                AnySpecter::Concrete(entity) => self.ring@.entities.contains_key(*id)
                    && entity@ == self.ring@.entities[*id],
                AnySpecter::Lazy(specter) => !self.ring@.entities.contains_key(*id)
                    && self.ring@.specters.contains_key(*id) && specter@
                    == self.ring@.specters[*id],
            },
    {
        self.ring.specterish(id)
    }

    /// Registers content that was captured outside as a new entity of the
    /// given extension: the entity gets the next ordinal, and a private pool
    /// of up to `POOL_SIZE` ordinals for its descendants; it is put into the
    /// live ring, with no reader, and its moment, stamped with the current
    /// time, is appended to the log. Hands back its identifier. An aggregate
    /// that was in order stays so, and the identifier is new to it.
    ///
    /// Fails, and leaves the aggregate as it was, where no ordinal is left.
    pub fn register(&mut self, ext: EntityExt) -> (res: Result<MioId, MioError>)
        ensures
            final(self).dirs == old(self).dirs,
            match res {
                Ok(id) => {
                    &&& old(self)@.registers(final(self)@, id, ext)
                    &&& old(self)@.wf() ==> final(self)@.wf() && !old(self)@.ring.has(id)
                },
                Err(MioError::Exhausted) => !old(self)@.alloc.can_issue() && *final(self) == *old(
                    self,
                ),
                Err(_) => false,
            },
    {
        if !self.alloc.can_allocate() {
            return Err(MioError::Exhausted);
        }
        let ghost before = self@;
        let id = MioId(self.alloc.allocate());
        let pool = self.alloc.allocate_pool(POOL_SIZE);
        let entity = Specter {
            id,
            ext,
            deps: Vec::new(),
            body: Concrete { pool, providence: Providence::Registered },
        };
        self.chronology.push(Ephemerality { time: epoch_nanos(), base: id });
        self.ring.entities.insert(id, entity);
        proof {
            assert(self@.chronology.drop_last() =~= before.chronology);
            if before.wf() {
                before.lemma_register_keeps_order(self@, id, ext);
            }
        }
        Ok(id)
    }
}

impl Specter<Lazy> {
    /// Elevates a lazy specter whose content is on disk to a concrete one:
    /// the same identifier, extension and readers, an empty private pool,
    /// and the provenance of what was induced. Whether the content is on
    /// disk is for the caller to find out and to say.
    ///
    /// Fails where the content is not on disk.
    pub fn elevate(self, actualized: bool) -> (res: Result<Specter<Concrete>, MioError>)
        ensures
            match res {
                Ok(entity) => actualized && entity@ == (SpecterView {
                    id: self.id,
                    ext: self.ext,
                    deps: self.deps@,
                    body: ConcreteView { pool: Set::empty(), providence: Providence::Induced },
                }),
                Err(MioError::NotActualized(id)) => !actualized && id == self.id,
                Err(_) => false,
            },
    {
        if actualized {
            let entity = Specter {
                id: self.id,
                ext: self.ext,
                deps: self.deps,
                body: Concrete { pool: AllocPool::new(), providence: Providence::Induced },
            };
            let res: Result<Specter<Concrete>, MioError> = Ok(entity);
            res
        } else {
            Err(MioError::NotActualized(self.id))
        }
    }
}

} // verus!
