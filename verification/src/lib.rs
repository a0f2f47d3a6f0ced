//! A dependency-graph engine for captured content and the artifacts derived
//! from it: identifier allocation with recycling, the entity / specter /
//! operation model, lazy actualization, dependency closures and cascading
//! archival, with every function's behaviour stated as a contract and proved.

pub mod allocator;
pub mod archive;
pub mod audit;
pub mod capability;
pub mod chronology;
pub mod closure;
pub mod digits;
pub mod dirs;
pub mod discipline;
pub mod error;
pub mod force;
pub mod ident;
pub mod index;
pub mod initiate;
pub mod kind;
pub mod lists;
pub mod mio;
pub mod model;
pub mod operable;
pub mod pool;
pub mod ring;
pub mod table;
pub mod view;

pub use allocator::{Alloc, AllocView};
pub use archive::{MioArchive, MioArchived, MioDelete, MioPurge};
pub use capability::{Allocable, Locatable, Ringable, Specterish};
pub use chronology::Ephemerality;
pub use dirs::{MioDirs, StorageRoot};
pub use error::MioError;
pub use force::{
    Backend, ForceAction, ForceEvent, ForceFailure, Forcing, Frame, Job, MioForce, Plan,
};
pub use ident::{epoch_millis, epoch_nanos, MioId, OpId, RingId};
pub use index::{backup_name, index_name, recovery, Recovery};
pub use initiate::MioInitiate;
pub use kind::{EntityExt, EntityKind, EntityLike, OperationKind, Unsupported};
pub use mio::{Mio, MioModel, POOL_SIZE};
pub use model::{
    Actualizer, Concrete, ConcreteView, Lazy, Operation, OperationView, Providence, Specter,
    SpecterView,
};
pub use operable::{CropImage, OcrText};
pub use pool::AllocPool;
pub use ring::{AnySpecter, MioRing, Reach, RingView};
pub use table::{Identifier, Table};
pub use view::{MioRingGen, MioView, MioViewGen};
