use mio_core::{
    backup_name, index_name, recovery, Allocable, AllocPool, AnySpecter, Backend, Concrete,
    CropImage, EntityExt, EntityKind, EntityLike, Ephemerality, Lazy, Locatable, MioError, MioId,
    MioRing, OcrText, OpId, Operation, OperationKind, Providence, Recovery, RingId, Ringable,
    Specter, StorageRoot, Table,
};

fn mio_id(epoch: u128, ord: usize) -> MioId {
    MioId(RingId { epoch, ord })
}

fn op_id(epoch: u128, ord: usize) -> OpId {
    OpId(RingId { epoch, ord })
}

fn entity(id: MioId, ext: EntityExt) -> Specter<Concrete> {
    let mut pool = AllocPool::new();
    pool.insert(8);
    pool.insert(5);
    Specter { id, ext, deps: Vec::new(), body: Concrete { pool, providence: Providence::Pinned } }
}

fn lazy(id: MioId, ext: EntityExt, operation: OpId) -> Specter<Lazy> {
    Specter { id, ext, deps: Vec::new(), body: Lazy { operation } }
}

#[test]
fn table_keeps_one_value_under_each_key() {
    let mut table: Table<MioId, Specter<Lazy>> = Table::new();
    let a = mio_id(1, 1);
    let b = mio_id(1, 2);
    assert_eq!(table.len(), 0);
    assert!(table.get(&a).is_none());
    table.insert(a, lazy(a, EntityExt::Png, op_id(1, 9)));
    table.insert(b, lazy(b, EntityExt::Txt, op_id(1, 9)));
    table.insert(a, lazy(a, EntityExt::Jpg, op_id(1, 9)));
    assert_eq!(table.len(), 2);
    assert_eq!(table.keys(), vec![a, b]);
    assert_eq!(table.get(&a).unwrap().ext, EntityExt::Jpg);
    assert_eq!(table.key_at(1), b);
    assert_eq!(table.value_at(1).ext, EntityExt::Txt);
    assert!(table.contains_key(&b));
    assert_eq!(table.remove(&a).unwrap().ext, EntityExt::Jpg);
    assert!(table.remove(&a).is_none());
    assert!(!table.contains_key(&a));
    assert_eq!(table.keys(), vec![b]);
}

#[test]
fn table_moves_what_is_listed() {
    let mut from: Table<MioId, Specter<Lazy>> = Table::new();
    let mut to: Table<MioId, Specter<Lazy>> = Table::new();
    let ids: Vec<MioId> = (0..4).map(|ord| mio_id(1, ord)).collect();
    for id in &ids {
        from.insert(*id, lazy(*id, EntityExt::Png, op_id(1, 9)));
    }
    to.insert(ids[1], lazy(ids[1], EntityExt::Txt, op_id(1, 9)));
    from.move_to(&mut to, &vec![ids[1], ids[3], mio_id(7, 7), ids[1]]);
    assert_eq!(from.keys(), vec![ids[0], ids[2]]);
    assert_eq!(to.keys(), vec![ids[1], ids[3]]);
    assert_eq!(to.get(&ids[1]).unwrap().ext, EntityExt::Png);
}

#[test]
fn specters_have_the_kind_of_their_extension() {
    let e = entity(mio_id(1, 1), EntityExt::Jpg);
    assert_eq!(e.kind(), EntityKind::Image);
    assert_eq!(e.ext_hint(), EntityExt::Jpg);
    let s = lazy(mio_id(1, 2), EntityExt::Url, op_id(1, 3));
    assert_eq!(s.kind(), EntityKind::Text);
    assert_eq!(s.ext_hint(), EntityExt::Url);
    assert_eq!(AnySpecter::Lazy(s).kind(), EntityKind::Text);
}

#[test]
fn files_are_named_by_stem_and_extension() {
    let e = entity(mio_id(0x1f, 4), EntityExt::Png);
    assert_eq!(e.file_name(), "1f-4.png");
    assert_eq!(e.root(), StorageRoot::Data);
    assert_eq!(e.extension(), EntityExt::Png);
    let s = lazy(mio_id(0xa0, 12), EntityExt::Txt, op_id(1, 3));
    assert_eq!(s.file_name(), "a0-12.txt");
    assert_eq!(s.root(), StorageRoot::Cache);
    assert_eq!(s.extension(), EntityExt::Txt);
    assert_eq!(AnySpecter::Concrete(e).root(), StorageRoot::Data);
    assert_eq!(AnySpecter::Lazy(s).file_name(), "a0-12.txt");
}

#[test]
fn items_go_into_a_ring_and_out_of_it() {
    let mut ring = MioRing::new();
    let e = entity(mio_id(1, 1), EntityExt::Png);
    let s = lazy(mio_id(1, 2), EntityExt::Png, op_id(1, 3));
    let o = Operation {
        id: op_id(1, 3),
        kind: OperationKind::Crop,
        attr: serde_json::Value::from("parameters"),
        base: vec![e.id],
        specter: s.id,
    };
    e.ring(&mut ring);
    s.ring(&mut ring);
    o.ring(&mut ring);
    assert_eq!(ring.entities.keys(), vec![e.id]);
    assert_eq!(ring.specters.keys(), vec![s.id]);
    assert_eq!(ring.operations.keys(), vec![o.id]);
    assert_eq!(ring.operations.get(&o.id).unwrap().attr, serde_json::Value::from("parameters"));
    assert_eq!(ring.entities.get(&e.id).unwrap().body.pool.ordinals(), vec![5, 8]);
    assert!(ring.has(&e.id) && ring.has(&s.id));
    assert_eq!(ring.kind(&e.id), Some(EntityKind::Image));
    assert_eq!(ring.kind(&mio_id(9, 9)), None);
    assert!(matches!(ring.specterish(&e.id), AnySpecter::Concrete(_)));
    assert!(matches!(ring.find(&s.id), Some(AnySpecter::Lazy(_))));
    assert!(ring.find(&mio_id(9, 9)).is_none());
    e.unring(&mut ring);
    s.unring(&mut ring);
    o.unring(&mut ring);
    assert_eq!(ring.entities.len() + ring.specters.len() + ring.operations.len(), 0);
}

#[test]
fn dependencies_are_pushed_at_the_rear() {
    let mut e = entity(mio_id(1, 1), EntityExt::Png);
    assert_eq!(e.identifier(), RingId { epoch: 1, ord: 1 });
    e.deps_push(RingId { epoch: 2, ord: 7 });
    e.deps_push(RingId { epoch: 2, ord: 6 });
    assert_eq!(e.deps, vec![op_id(2, 7), op_id(2, 6)]);
    assert_eq!(e.deps(), vec![RingId { epoch: 2, ord: 7 }, RingId { epoch: 2, ord: 6 }]);
    let mut o = Operation {
        id: op_id(1, 3),
        kind: OperationKind::Crop,
        attr: serde_json::Value::Null,
        base: Vec::new(),
        specter: mio_id(1, 4),
    };
    o.deps_push(RingId { epoch: 1, ord: 1 });
    assert_eq!(o.base, vec![mio_id(1, 1)]);
    assert_eq!(o.deps(), vec![RingId { epoch: 1, ord: 1 }]);
    assert_eq!(o.identifier(), RingId { epoch: 1, ord: 3 });
}

#[test]
fn only_entities_hand_out_identifiers() {
    let mut e = entity(mio_id(1, 1), EntityExt::Png);
    assert_eq!(e.allocate().unwrap().ord, 5);
    assert_eq!(e.allocate().unwrap().ord, 8);
    assert!(e.allocate().is_none());
    let mut s = lazy(mio_id(1, 2), EntityExt::Png, op_id(1, 3));
    assert!(s.allocate().is_none());
    let mut any = AnySpecter::Concrete(entity(mio_id(1, 1), EntityExt::Png));
    assert_eq!(any.allocate().unwrap().ord, 5);
}

#[test]
fn copies_are_equal_to_what_was_copied() {
    let mut e = entity(mio_id(1, 1), EntityExt::Png);
    e.deps_push(RingId { epoch: 2, ord: 7 });
    let copy = e.clone();
    assert_eq!(copy.id, e.id);
    assert_eq!(copy.ext, e.ext);
    assert_eq!(copy.deps, e.deps);
    assert_eq!(copy.body.pool.ordinals(), vec![5, 8]);
    assert_eq!(copy.body.providence, Providence::Pinned);
    let mut object = serde_json::Map::new();
    object.insert("lang".to_string(), serde_json::Value::from("eng"));
    let o = Operation {
        id: op_id(1, 3),
        kind: OperationKind::As(EntityKind::Text),
        attr: serde_json::Value::Object(object),
        base: vec![mio_id(1, 1)],
        specter: mio_id(1, 4),
    };
    let copy = o.clone();
    assert_eq!(copy.attr, o.attr);
    assert_ne!(copy.attr, serde_json::Value::Null);
    assert_eq!(copy.base, o.base);
    assert_eq!(copy.kind, o.kind);
}

#[test]
fn elevating_needs_the_content_on_disk() {
    let mut s = lazy(mio_id(1, 2), EntityExt::Txt, op_id(1, 3));
    s.deps_push(RingId { epoch: 1, ord: 9 });
    let result = s.clone().elevate(false);
    assert!(matches!(result, Err(MioError::NotActualized(id)) if id == mio_id(1, 2)));
    let e = s.elevate(true).unwrap();
    assert_eq!(e.id, mio_id(1, 2));
    assert_eq!(e.ext, EntityExt::Txt);
    assert_eq!(e.deps, vec![op_id(1, 9)]);
    assert!(e.body.pool.is_empty());
    assert_eq!(e.body.providence, Providence::Induced);
    assert_eq!(e.root(), StorageRoot::Data);
}

#[test]
fn moments_are_compared_by_their_times() {
    let early = Ephemerality { time: 10, base: mio_id(1, 1) };
    let late = Ephemerality { time: 20, base: mio_id(1, 1) };
    let also_early = Ephemerality { time: 10, base: mio_id(1, 2) };
    assert!(early < late);
    assert!(late > early);
    assert!(early == also_early);
    assert!(early != late);
    assert!(early <= also_early);
}

#[test]
fn index_is_recovered_as_it_can_be() {
    assert_eq!(recovery(true, true), Recovery::Loaded);
    assert_eq!(recovery(true, false), Recovery::BackedUp);
    assert_eq!(recovery(false, false), Recovery::Fresh);
    assert_eq!(recovery(false, true), Recovery::Fresh);
    assert_eq!(index_name(), "index.json");
    assert_eq!(backup_name(1_700_000_000_123), "index.json.1700000000123.bak");
    assert_eq!(backup_name(0), "index.json.0.bak");
}

#[test]
fn parameters_name_their_transformation() {
    let crop = CropImage { ext: EntityExt::Png, x: 100, y: 0, width: 80, height: 40 };
    assert_eq!(crop.kind(), OperationKind::Crop);
    assert_eq!(crop.backend(), Backend::Crop);
    let ocr = OcrText { ext: EntityExt::Png, lang: "eng".to_string() };
    assert_eq!(ocr.kind(), OperationKind::As(EntityKind::Text));
    assert_eq!(ocr.backend(), Backend::Ocr);
}

#[test]
fn providence_defaults_to_registered() {
    assert_eq!(Providence::default(), Providence::Registered);
}
