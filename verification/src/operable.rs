//! The parameters of the transformations that have a backend.

use crate::force::Backend;
use crate::kind::{EntityExt, EntityKind, OperationKind};
use vstd::prelude::*;

verus! {

/// The parameters of a crop: the extension of the result, and the rectangle
/// to cut out.
#[derive(Debug, Clone, Copy, PartialEq, Eq, Structural)]
pub struct CropImage {
    pub ext: EntityExt,
    pub x: u32,
    pub y: u32,
    pub width: u32,
    pub height: u32,
}

impl CropImage {
    /// The kind of the transformation.
    pub fn kind(&self) -> (kind: OperationKind)
        ensures
            kind == OperationKind::Crop,
    {
        OperationKind::Crop
    }

    /// The backend that carries it out.
    pub fn backend(&self) -> (backend: Backend)
        ensures
            backend == Backend::Crop,
    {
        Backend::Crop
    }
}

/// The parameters of reading text off an image: the extension of the
/// result, and the language of the text.
#[derive(Debug)]
pub struct OcrText {
    pub ext: EntityExt,
    pub lang: String,
}

impl OcrText {
    /// The kind of the transformation.
    pub fn kind(&self) -> (kind: OperationKind)
        ensures
            kind == OperationKind::As(EntityKind::Text),
    {
        OperationKind::As(EntityKind::Text)
    }

    /// The backend that carries it out.
    pub fn backend(&self) -> (backend: Backend)
        ensures
            backend == Backend::Ocr,
    {
        Backend::Ocr
    }
}

} // verus!
