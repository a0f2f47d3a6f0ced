use mio_core::{EntityExt, EntityKind, EntityLike, OperationKind};

const KINDS: [EntityKind; 4] =
    [EntityKind::Text, EntityKind::Image, EntityKind::Audio, EntityKind::Video];

fn all_operations() -> Vec<OperationKind> {
    let mut ops = vec![
        OperationKind::Annotation,
        OperationKind::Trim,
        OperationKind::Crop,
        OperationKind::Resize,
        OperationKind::Summarize,
    ];
    for kind in KINDS {
        ops.push(OperationKind::As(kind));
    }
    ops
}

#[test]
fn each_extension_has_one_kind() {
    assert_eq!(EntityExt::Txt.kind(), EntityKind::Text);
    assert_eq!(EntityExt::Url.kind(), EntityKind::Text);
    assert_eq!(EntityExt::Png.kind(), EntityKind::Image);
    assert_eq!(EntityExt::Jpg.kind(), EntityKind::Image);
    assert_eq!(EntityExt::Mp3.kind(), EntityKind::Audio);
    assert_eq!(EntityExt::Mp4.kind(), EntityKind::Video);
}

#[test]
fn each_kind_suggests_an_extension_of_its_own() {
    assert_eq!(EntityKind::Text.ext_hint(), EntityExt::Txt);
    assert_eq!(EntityKind::Image.ext_hint(), EntityExt::Png);
    assert_eq!(EntityKind::Audio.ext_hint(), EntityExt::Mp3);
    assert_eq!(EntityKind::Video.ext_hint(), EntityExt::Mp4);
    for kind in KINDS {
        assert_eq!(kind.kind(), kind);
        assert_eq!(kind.ext_hint().kind(), kind);
    }
    assert_eq!(EntityExt::Url.ext_hint(), EntityExt::Txt);
    assert_eq!(EntityExt::Jpg.ext_hint(), EntityExt::Png);
}

#[test]
fn extensions_are_named_in_lower_case() {
    assert_eq!(EntityExt::Txt.name(), "txt");
    assert_eq!(EntityExt::Url.name(), "url");
    assert_eq!(EntityExt::Png.name(), "png");
    assert_eq!(EntityExt::Jpg.name(), "jpg");
    assert_eq!(EntityExt::Mp3.name(), "mp3");
    assert_eq!(EntityExt::Mp4.name(), "mp4");
}

#[test]
fn the_table_lists_what_is_legal() {
    let image = vec![EntityKind::Image];
    let text = vec![EntityKind::Text];
    assert_eq!(OperationKind::Crop.analyze(&image).unwrap(), EntityKind::Image);
    assert_eq!(OperationKind::Annotation.analyze(&image).unwrap(), EntityKind::Image);
    assert_eq!(
        OperationKind::As(EntityKind::Text).analyze(&image).unwrap(),
        EntityKind::Text
    );
    assert_eq!(
        OperationKind::As(EntityKind::Text).analyze(&text).unwrap(),
        EntityKind::Text
    );
}

#[test]
fn what_the_table_does_not_list_is_rejected_with_its_inputs() {
    let text = vec![EntityKind::Text];
    let e = OperationKind::Crop.analyze(&text).unwrap_err();
    assert_eq!(e.kind, OperationKind::Crop);
    assert_eq!(e.src, text);

    let none: Vec<EntityKind> = Vec::new();
    let e = OperationKind::Crop.analyze(&none).unwrap_err();
    assert_eq!(e.src, none);

    let two = vec![EntityKind::Image, EntityKind::Image];
    let e = OperationKind::Crop.analyze(&two).unwrap_err();
    assert_eq!(e.kind, OperationKind::Crop);
    assert_eq!(e.src, two);

    let image = vec![EntityKind::Image];
    for op in [
        OperationKind::Trim,
        OperationKind::Resize,
        OperationKind::Summarize,
        OperationKind::As(EntityKind::Image),
        OperationKind::As(EntityKind::Audio),
        OperationKind::As(EntityKind::Video),
    ] {
        assert!(op.analyze(&image).is_err());
    }
    for kind in [EntityKind::Audio, EntityKind::Video] {
        for op in all_operations() {
            assert!(op.analyze(&vec![kind]).is_err());
        }
    }
}

#[test]
fn what_is_offered_is_what_the_table_lists() {
    assert_eq!(
        EntityKind::Image.synthesize(),
        vec![
            OperationKind::Annotation,
            OperationKind::Crop,
            OperationKind::As(EntityKind::Text)
        ]
    );
    assert!(EntityKind::Text.synthesize().is_empty());
    assert!(EntityKind::Audio.synthesize().is_empty());
    assert!(EntityKind::Video.synthesize().is_empty());
    for kind in KINDS {
        let offered = kind.synthesize();
        for op in all_operations() {
            let legal = op.analyze(&vec![kind]).is_ok();
            if offered.contains(&op) {
                assert!(legal);
            }
            if legal && !offered.contains(&op) {
                assert_eq!(kind, EntityKind::Text);
                assert_eq!(op, OperationKind::As(EntityKind::Text));
            }
        }
    }
}

#[test]
fn suffixes_name_their_extensions() {
    for ext in [
        EntityExt::Txt,
        EntityExt::Url,
        EntityExt::Png,
        EntityExt::Jpg,
        EntityExt::Mp3,
        EntityExt::Mp4,
    ] {
        assert_eq!(EntityExt::parse(ext.name()), Some(ext));
    }
    for name in ["", "pn", "pngg", "PNG", "mp5", "jpeg", "tx t", "gnp", "p\u{e9}g"] {
        assert_eq!(EntityExt::parse(name), None, "{:?}", name);
    }
}
