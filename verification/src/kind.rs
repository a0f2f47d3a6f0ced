//! Content kinds, file extensions, transformation kinds, and the table that
//! says which transformation is legal on which inputs.

use vstd::prelude::*;
use vstd::string::StrSliceExecFns;

verus! {

/// The semantic category of a piece of content.
#[derive(Debug, Clone, Copy, PartialEq, Eq, Hash, Structural)]
pub enum EntityKind {
    Text,
    Image,
    Audio,
    Video,
}

/// The kind of a transformation.
#[derive(Debug, Clone, Copy, PartialEq, Eq, Hash, Structural)]
pub enum OperationKind {
    Annotation,
    Trim,
    Crop,
    Resize,
    As(EntityKind),
    Summarize,
}

/// The concrete representation format of a piece of content.
#[derive(Debug, Clone, Copy, PartialEq, Eq, Hash, Structural)]
pub enum EntityExt {
    Txt,
    Url,
    Png,
    Jpg,
    Mp3,
    Mp4,
}

/// The kind that each extension belongs to.
pub open spec fn ext_kind(ext: EntityExt) -> EntityKind {
    match ext {
        EntityExt::Txt => EntityKind::Text,
        EntityExt::Url => EntityKind::Text,
        EntityExt::Png => EntityKind::Image,
        EntityExt::Jpg => EntityKind::Image,
        EntityExt::Mp3 => EntityKind::Audio,
        EntityExt::Mp4 => EntityKind::Video,
    }
}

/// The extension that content of a kind gets when nothing else is known.
pub open spec fn kind_ext(kind: EntityKind) -> EntityExt {
    match kind {
        EntityKind::Text => EntityExt::Txt,
        EntityKind::Image => EntityExt::Png,
        EntityKind::Audio => EntityExt::Mp3,
        EntityKind::Video => EntityExt::Mp4,
    }
}

/// The file-name suffix of an extension, without the dot.
pub open spec fn ext_name(ext: EntityExt) -> Seq<char> {
    match ext {
        EntityExt::Txt => seq!['t', 'x', 't'],
        EntityExt::Url => seq!['u', 'r', 'l'],
        EntityExt::Png => seq!['p', 'n', 'g'],
        EntityExt::Jpg => seq!['j', 'p', 'g'],
        EntityExt::Mp3 => seq!['m', 'p', '3'],
        EntityExt::Mp4 => seq!['m', 'p', '4'],
    }
}

/// Everything that has a kind, and with it an extension to suggest.
pub trait EntityLike {
    /// The kind, as contracts speak of it.
    spec fn kind_of(&self) -> EntityKind;

    /// The suggested extension, as contracts speak of it.
    spec fn ext_of(&self) -> EntityExt;

    fn kind(&self) -> (kind: EntityKind)
        ensures
            kind == self.kind_of(),
    ;

    fn ext_hint(&self) -> (ext: EntityExt)
        ensures
            ext == self.ext_of(),
    ;
}

impl EntityLike for EntityKind {
    open spec fn kind_of(&self) -> EntityKind {
        *self
    }

    open spec fn ext_of(&self) -> EntityExt {
        kind_ext(*self)
    }

    fn kind(&self) -> (kind: EntityKind) {
        *self
    }

    fn ext_hint(&self) -> (ext: EntityExt) {
        match self {
            EntityKind::Text => EntityExt::Txt,
            EntityKind::Image => EntityExt::Png,
            EntityKind::Audio => EntityExt::Mp3,
            EntityKind::Video => EntityExt::Mp4,
        }
    }
}

impl EntityLike for EntityExt {
    open spec fn kind_of(&self) -> EntityKind {
        ext_kind(*self)
    }

    open spec fn ext_of(&self) -> EntityExt {
        kind_ext(ext_kind(*self))
    }

    fn kind(&self) -> (kind: EntityKind) {
        match self {
            EntityExt::Txt => EntityKind::Text,
            EntityExt::Url => EntityKind::Text,
            EntityExt::Png => EntityKind::Image,
            EntityExt::Jpg => EntityKind::Image,
            EntityExt::Mp3 => EntityKind::Audio,
            EntityExt::Mp4 => EntityKind::Video,
        }
    }

    fn ext_hint(&self) -> (ext: EntityExt) {
        self.kind().ext_hint()
    }
}

impl EntityExt {
    /// The file-name suffix, without the dot.
    pub fn name(&self) -> (name: &'static str)
        ensures
            name@ == ext_name(*self),
    {
        proof {
            reveal_strlit("txt");
            reveal_strlit("url");
            reveal_strlit("png");
            reveal_strlit("jpg");
            reveal_strlit("mp3");
            reveal_strlit("mp4");
        }
        let name = match self {
            EntityExt::Txt => "txt",
            EntityExt::Url => "url",
            EntityExt::Png => "png",
            EntityExt::Jpg => "jpg",
            EntityExt::Mp3 => "mp3",
            EntityExt::Mp4 => "mp4",
        };
        assert(name@ =~= ext_name(*self));
        name
    }
}

/// The extension that a file-name suffix names, if it names one.
pub open spec fn named_ext(name: Seq<char>) -> Option<EntityExt> {
    if name == ext_name(EntityExt::Txt) {
        Some(EntityExt::Txt)
    } else if name == ext_name(EntityExt::Url) {
        Some(EntityExt::Url)
    } else if name == ext_name(EntityExt::Png) {
        Some(EntityExt::Png)
    } else if name == ext_name(EntityExt::Jpg) {
        Some(EntityExt::Jpg)
    } else if name == ext_name(EntityExt::Mp3) {
        Some(EntityExt::Mp3)
    } else if name == ext_name(EntityExt::Mp4) {
        Some(EntityExt::Mp4)
    } else {
        None
    }
}

/// A suffix names the extension whose suffix it is, and no other.
pub proof fn lemma_named_ext(ext: EntityExt)
    ensures
        named_ext(ext_name(ext)) == Some(ext),
{
    assert(ext_name(EntityExt::Txt)[0] == 't');
    assert(ext_name(EntityExt::Url)[0] == 'u');
    assert(ext_name(EntityExt::Png)[0] == 'p');
    assert(ext_name(EntityExt::Jpg)[0] == 'j');
    assert(ext_name(EntityExt::Mp3)[2] == '3');
    assert(ext_name(EntityExt::Mp4)[2] == '4');
    assert(ext_name(EntityExt::Mp3)[0] == 'm');
    assert(ext_name(EntityExt::Mp4)[0] == 'm');
}

impl EntityExt {
    /// The extension that a file-name suffix names, if it names one.
    pub fn parse(name: &str) -> (ext: Option<EntityExt>)
        ensures
            ext == named_ext(name@),
    {
        if name.unicode_len() != 3 {
            return None;
        }
        let a = name.get_char(0);
        let b = name.get_char(1);
        let c = name.get_char(2);
        assert(name@ =~= seq![a, b, c]);
        if a == 't' && b == 'x' && c == 't' {
            Some(EntityExt::Txt)
        } else if a == 'u' && b == 'r' && c == 'l' {
            Some(EntityExt::Url)
        } else if a == 'p' && b == 'n' && c == 'g' {
            Some(EntityExt::Png)
        } else if a == 'j' && b == 'p' && c == 'g' {
            Some(EntityExt::Jpg)
        } else if a == 'm' && b == 'p' && c == '3' {
            Some(EntityExt::Mp3)
        } else if a == 'm' && b == 'p' && c == '4' {
            Some(EntityExt::Mp4)
        } else {
            assert(name@ != ext_name(EntityExt::Txt)) by {
                assert(ext_name(EntityExt::Txt)[0] == 't' && ext_name(EntityExt::Txt)[1] == 'x'
                    && ext_name(EntityExt::Txt)[2] == 't');
            }
            assert(name@ != ext_name(EntityExt::Url)) by {
                assert(ext_name(EntityExt::Url)[0] == 'u' && ext_name(EntityExt::Url)[1] == 'r'
                    && ext_name(EntityExt::Url)[2] == 'l');
            }
            assert(name@ != ext_name(EntityExt::Png)) by {
                assert(ext_name(EntityExt::Png)[0] == 'p' && ext_name(EntityExt::Png)[1] == 'n'
                    && ext_name(EntityExt::Png)[2] == 'g');
            }
            assert(name@ != ext_name(EntityExt::Jpg)) by {
                assert(ext_name(EntityExt::Jpg)[0] == 'j' && ext_name(EntityExt::Jpg)[1] == 'p'
                    && ext_name(EntityExt::Jpg)[2] == 'g');
            }
            assert(name@ != ext_name(EntityExt::Mp3)) by {
                assert(ext_name(EntityExt::Mp3)[0] == 'm' && ext_name(EntityExt::Mp3)[1] == 'p'
                    && ext_name(EntityExt::Mp3)[2] == '3');
            }
            assert(name@ != ext_name(EntityExt::Mp4)) by {
                assert(ext_name(EntityExt::Mp4)[0] == 'm' && ext_name(EntityExt::Mp4)[1] == 'p'
                    && ext_name(EntityExt::Mp4)[2] == '4');
            }
            None
        }
    }
}

/// The compatibility table: what a transformation yields on inputs of the
/// given kinds, in order, or `None` where the combination is not legal.
/// An image can be cropped and annotated, which gives an image, and turned
/// into text; text turned into text passes through.
pub open spec fn analyzed(op: OperationKind, src: Seq<EntityKind>) -> Option<EntityKind> {
    if src.len() == 1 && src[0] == EntityKind::Image {
        match op {
            OperationKind::Crop => Some(EntityKind::Image),
            OperationKind::Annotation => Some(EntityKind::Image),
            OperationKind::As(EntityKind::Text) => Some(EntityKind::Text),
            _ => None,
        }
    } else if src.len() == 1 && src[0] == EntityKind::Text {
        match op {
            OperationKind::As(EntityKind::Text) => Some(EntityKind::Text),
            _ => None,
        }
    } else {
        None
    }
}

/// The transformations offered for content of a kind, in the order in which
/// they are offered.
pub open spec fn synthesized(kind: EntityKind) -> Seq<OperationKind> {
    match kind {
        EntityKind::Image => seq![
            OperationKind::Annotation,
            OperationKind::Crop,
            OperationKind::As(EntityKind::Text),
        ],
        _ => Seq::empty(),
    }
}

/// A transformation asked for on inputs that the table does not list.
#[derive(Debug, Clone)]
pub struct Unsupported {
    pub kind: OperationKind,
    pub src: Vec<EntityKind>,
}

impl EntityKind {
    /// The transformations offered for content of this kind.
    pub fn synthesize(&self) -> (ops: Vec<OperationKind>)
        ensures
            ops@ == synthesized(*self),
    {
        let mut v: Vec<OperationKind> = Vec::new();
        match self {
            EntityKind::Text => {},
            EntityKind::Image => {
                v.push(OperationKind::Annotation);
                v.push(OperationKind::Crop);
                v.push(OperationKind::As(EntityKind::Text));
            },
            EntityKind::Audio => {},
            EntityKind::Video => {},
        }
        assert(v@ =~= synthesized(*self));
        v
    }
}

impl OperationKind {
    /// Looks the transformation up in the compatibility table for inputs of the
    /// given kinds: the kind of the result where the combination is listed,
    /// and otherwise an error that names the transformation and the inputs.
    pub fn analyze(&self, src: &Vec<EntityKind>) -> (res: Result<EntityKind, Unsupported>)
        ensures
            match res {
                Ok(kind) => analyzed(*self, src@) == Some(kind),
                Err(e) => analyzed(*self, src@) is None && e.kind == *self && e.src@ == src@,
            },
    {
        if src.len() == 1 && matches!(src[0], EntityKind::Image) {
            match self {
                OperationKind::Crop => {
                    return Ok(EntityKind::Image);
                },
                OperationKind::Annotation => {
                    return Ok(EntityKind::Image);
                },
                OperationKind::As(EntityKind::Text) => {
                    return Ok(EntityKind::Text);
                },
                _ => {},
            }
        }
        if src.len() == 1 && matches!(src[0], EntityKind::Text) {
            match self {
                OperationKind::As(EntityKind::Text) => {
                    return Ok(EntityKind::Text);
                },
                _ => {},
            }
        }
        let mut kinds: Vec<EntityKind> = Vec::new();
        let mut i: usize = 0;
        while i < src.len()
            invariant
                i <= src.len(),
                kinds@ == src@.subrange(0, i as int),
            decreases src.len() - i,
        {
            kinds.push(src[i]);
            assert(kinds@ =~= src@.subrange(0, i + 1));
            i += 1;
        }
        assert(kinds@ =~= src@);
        Err(Unsupported { kind: *self, src: kinds })
    }
}

/// The two views of the table agree: what is offered for a kind is legal on
/// one input of that kind; and what is legal on one input is offered for its
/// kind, but for text turned into text, which changes nothing and is not
/// offered.
pub proof fn lemma_synthesize_consistent(kind: EntityKind, op: OperationKind)
    ensures
        synthesized(kind).contains(op) ==> analyzed(op, seq![kind]) is Some,
        analyzed(op, seq![kind]) is Some ==> synthesized(kind).contains(op) || (kind
            == EntityKind::Text && op == OperationKind::As(EntityKind::Text)),
{
    let offered = synthesized(kind);
    if kind == EntityKind::Image {
        assert(offered[0] == OperationKind::Annotation);
        assert(offered[1] == OperationKind::Crop);
        assert(offered[2] == OperationKind::As(EntityKind::Text));
    }
}

/// Whatever is legal reads exactly one input.
pub proof fn lemma_analyzed_single(op: OperationKind, src: Seq<EntityKind>)
    requires
        analyzed(op, src) is Some,
    ensures
        src.len() == 1,
{
}

} // verus!
