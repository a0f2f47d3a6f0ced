use mio_core::{
    Backend, EntityExt, EntityKind, ForceAction, ForceEvent, ForceFailure, Frame, Job, Mio,
    MioArchive, MioDelete, MioDirs, MioError, MioForce, MioId, MioInitiate, MioPurge, MioRingGen,
    MioView, MioViewGen, OpId, OperationKind, Providence, RingId,
};
use std::path::PathBuf;

fn dirs() -> MioDirs {
    MioDirs {
        config_dir: PathBuf::from("config"),
        cache_dir: PathBuf::from("cache"),
        data_dir: PathBuf::from("data"),
        index_path: PathBuf::from("data").join("index.json"),
    }
}

fn fresh() -> Mio {
    Mio::with_dirs(dirs())
}

fn crop_attr() -> serde_json::Value {
    let mut attr = serde_json::Map::new();
    attr.insert("x".to_string(), serde_json::Value::from(0));
    attr.insert("y".to_string(), serde_json::Value::from(0));
    attr.insert("width".to_string(), serde_json::Value::from(10));
    attr.insert("height".to_string(), serde_json::Value::from(10));
    serde_json::Value::Object(attr)
}

fn crop(base: Vec<MioId>) -> MioInitiate {
    MioInitiate::new(OperationKind::Crop, crop_attr(), base)
}

fn sorted_ords_of_nodes(ids: &[MioId]) -> Vec<usize> {
    let mut ords: Vec<usize> = ids.iter().map(|id| id.0.ord).collect();
    ords.sort();
    ords
}

fn sorted_ords_of_ops(ids: &[OpId]) -> Vec<usize> {
    let mut ords: Vec<usize> = ids.iter().map(|id| id.0.ord).collect();
    ords.sort();
    ords
}

/// The operation that a ring handed back by an initiation holds, and the
/// specter that it results in.
fn made(diff: &mio_core::MioRing) -> (OpId, MioId) {
    let op = diff.operations.keys()[0];
    (op, diff.operations.get(&op).unwrap().specter)
}

/// Two entities, one operation on the first, and the specter it results in.
fn small_graph() -> (Mio, MioId, MioId, OpId, MioId) {
    let mut mio = fresh();
    let e1 = mio.register(EntityExt::Png).unwrap();
    let e2 = mio.register(EntityExt::Png).unwrap();
    let diff = crop(vec![e1]).interpret(&mut mio).unwrap();
    let (o1, s1) = made(&diff);
    (mio, e1, e2, o1, s1)
}

#[test]
fn fresh_aggregate_holds_only_the_null_identifier() {
    let mio = fresh();
    assert_eq!(mio.null.0.ord, 0);
    assert_eq!(mio.alloc.ord(), 1);
    assert!(mio.alloc.hill().is_empty());
    assert!(mio.chronology.is_empty());
    assert_eq!(mio.ring.entities.len(), 0);
    assert_eq!(mio.ring.specters.len(), 0);
    assert_eq!(mio.ring.operations.len(), 0);
    assert_eq!(mio.archived.entities.len(), 0);
}

#[test]
fn registering_makes_an_entity_with_a_pool_and_a_moment() {
    let mut mio = fresh();
    let e1 = mio.register(EntityExt::Png).unwrap();
    assert_eq!(e1.0.ord, 1);
    let entity = mio.ring.entities.get(&e1).unwrap();
    assert_eq!(entity.id, e1);
    assert_eq!(entity.ext, EntityExt::Png);
    assert!(entity.deps.is_empty());
    assert_eq!(entity.body.pool.ordinals(), vec![2, 3]);
    assert_eq!(entity.body.providence, Providence::Registered);
    assert_eq!(mio.alloc.ord(), 4);
    assert_eq!(mio.chronology.len(), 1);
    assert_eq!(mio.chronology[0].base, e1);

    let e2 = mio.register(EntityExt::Txt).unwrap();
    assert_eq!(e2.0.ord, 4);
    assert_eq!(mio.ring.entities.get(&e2).unwrap().body.pool.ordinals(), vec![5, 6]);
    assert_eq!(mio.chronology.len(), 2);
    assert_eq!(mio.chronology[1].base, e2);
    assert_eq!(mio.ring.entities.len(), 2);
}

#[test]
fn initiating_draws_from_the_pool_of_the_first_base() {
    let (mio, e1, _e2, o1, s1) = small_graph();
    assert_eq!(o1.0.ord, 2);
    assert_eq!(s1.0.ord, 3);
    let entity = mio.ring.entities.get(&e1).unwrap();
    assert!(entity.body.pool.is_empty());
    assert_eq!(entity.deps, vec![o1]);
    let specter = mio.ring.specters.get(&s1).unwrap();
    assert_eq!(specter.id, s1);
    assert_eq!(specter.ext, EntityExt::Png);
    assert!(specter.deps.is_empty());
    assert_eq!(specter.body.operation, o1);
    let operation = mio.ring.operations.get(&o1).unwrap();
    assert_eq!(operation.id, o1);
    assert_eq!(operation.kind, OperationKind::Crop);
    assert_eq!(operation.attr, crop_attr());
    assert_eq!(operation.base, vec![e1]);
    assert_eq!(operation.specter, s1);
    assert_eq!(mio.alloc.ord(), 7);
}

#[test]
fn initiating_falls_back_to_the_allocator() {
    let (mut mio, e1, _e2, o1, _s1) = small_graph();
    let diff = MioInitiate::new(
        OperationKind::As(EntityKind::Text),
        serde_json::Value::Null,
        vec![e1],
    )
    .interpret(&mut mio)
    .unwrap();
    let (o2, s2) = made(&diff);
    assert_eq!(o2.0.ord, 7);
    assert_eq!(s2.0.ord, 8);
    assert_eq!(mio.alloc.ord(), 9);
    assert_eq!(mio.ring.entities.get(&e1).unwrap().deps, vec![o1, o2]);
    assert_eq!(mio.ring.specters.get(&s2).unwrap().ext, EntityExt::Txt);
}

#[test]
fn initiating_on_a_lazy_specter_draws_from_the_allocator() {
    let (mut mio, _e1, _e2, _o1, s1) = small_graph();
    let diff = crop(vec![s1]).interpret(&mut mio).unwrap();
    let (o2, s2) = made(&diff);
    assert_eq!(diff.specters.len(), 2);
    assert_eq!(o2.0.ord, 7);
    assert_eq!(s2.0.ord, 8);
    assert_eq!(mio.ring.specters.get(&s1).unwrap().deps, vec![o2]);
    assert_eq!(mio.ring.operations.get(&o2).unwrap().base, vec![s1]);
}

#[test]
fn initiating_hands_back_what_it_touched() {
    let mut mio = fresh();
    let e1 = mio.register(EntityExt::Png).unwrap();
    let _e2 = mio.register(EntityExt::Png).unwrap();
    let diff = crop(vec![e1]).interpret(&mut mio).unwrap();
    assert_eq!(diff.entities.keys(), vec![e1]);
    assert_eq!(diff.operations.len(), 1);
    assert_eq!(diff.specters.len(), 1);
    let o1 = diff.operations.keys()[0];
    assert_eq!(diff.entities.get(&e1).unwrap().deps, vec![o1]);
    assert_eq!(diff.operations.get(&o1).unwrap().specter, diff.specters.keys()[0]);
}

#[test]
fn initiating_without_base_fails() {
    let mut mio = fresh();
    let result = crop(Vec::new()).interpret(&mut mio);
    assert!(matches!(result, Err(MioError::NoBase)));
    assert_eq!(mio.alloc.ord(), 1);
}

#[test]
fn initiating_on_what_is_not_live_fails() {
    let mut mio = fresh();
    let stranger = MioId(RingId { epoch: 1, ord: 99 });
    let result = crop(vec![stranger]).interpret(&mut mio);
    assert!(matches!(result, Err(MioError::NotFound(id)) if id == stranger));
    assert_eq!(mio.alloc.ord(), 1);
    assert_eq!(mio.ring.operations.len(), 0);
}

#[test]
fn initiating_what_is_not_legal_fails_and_changes_nothing() {
    let mut mio = fresh();
    let text = mio.register(EntityExt::Txt).unwrap();
    let result = crop(vec![text]).interpret(&mut mio);
    match result {
        Err(MioError::Unsupported(e)) => {
            assert_eq!(e.kind, OperationKind::Crop);
            assert_eq!(e.src, vec![EntityKind::Text]);
        }
        _ => panic!("expected the operation to be rejected"),
    }
    assert_eq!(mio.alloc.ord(), 4);
    assert_eq!(mio.ring.entities.get(&text).unwrap().body.pool.ordinals(), vec![2, 3]);
    assert!(mio.ring.entities.get(&text).unwrap().deps.is_empty());
    assert_eq!(mio.ring.operations.len(), 0);
    assert_eq!(mio.ring.specters.len(), 0);

    let image = mio.register(EntityExt::Png).unwrap();
    let result = crop(vec![image, image]).interpret(&mut mio);
    assert!(matches!(result, Err(MioError::Unsupported(_))));
}

#[test]
fn text_to_text_passes_through_the_table() {
    let mut mio = fresh();
    let text = mio.register(EntityExt::Txt).unwrap();
    let diff = MioInitiate::new(
        OperationKind::As(EntityKind::Text),
        serde_json::Value::Null,
        vec![text],
    )
    .interpret(&mut mio)
    .unwrap();
    let (_, s1) = made(&diff);
    assert_eq!(diff.specters.get(&s1).unwrap().ext, EntityExt::Txt);
    let (mut run, action) = MioForce { ids: vec![s1] }.interpret(&mio);
    assert_eq!(action, ForceAction::Probe(s1));
    assert_eq!(run.step(&mio, ForceEvent::Absent), ForceAction::Finished);
}

#[test]
fn closure_holds_what_belongs_to_the_base_and_nothing_else() {
    let (mio, e1, e2, o1, s1) = small_graph();

    let ring = MioRingGen { base: vec![e1] }.interpret(&mio).unwrap();
    assert_eq!(ring.entities.keys(), vec![e1]);
    assert_eq!(ring.specters.keys(), vec![s1]);
    assert_eq!(ring.operations.keys(), vec![o1]);
    assert_eq!(ring.entities.get(&e1).unwrap().deps, vec![o1]);

    let ring = MioRingGen { base: vec![e2] }.interpret(&mio).unwrap();
    assert_eq!(ring.entities.keys(), vec![e2]);
    assert_eq!(ring.specters.len(), 0);
    assert_eq!(ring.operations.len(), 0);

    let ring = MioRingGen { base: vec![s1] }.interpret(&mio).unwrap();
    assert_eq!(ring.entities.len(), 0);
    assert_eq!(ring.specters.keys(), vec![s1]);
    assert_eq!(ring.operations.len(), 0);

    let ring = MioRingGen { base: vec![e2, e1, e2] }.interpret(&mio).unwrap();
    assert_eq!(ring.entities.len(), 2);
    assert_eq!(ring.specters.keys(), vec![s1]);
    assert_eq!(ring.operations.keys(), vec![o1]);

    let ring = MioRingGen { base: Vec::new() }.interpret(&mio).unwrap();
    assert_eq!(ring.entities.len() + ring.specters.len() + ring.operations.len(), 0);
}

#[test]
fn closure_takes_the_inputs_of_an_operation_with_it() {
    let (mut mio, e1, _e2, o1, s1) = small_graph();
    let diff = crop(vec![s1]).interpret(&mut mio).unwrap();
    let (o2, s2) = made(&diff);
    // from the middle of the chain: forward to what reads it, and back to
    // what that reads; the operation that results in it reads something else
    let ring = MioRingGen { base: vec![s1] }.interpret(&mio).unwrap();
    assert_eq!(ring.entities.len(), 0);
    assert_eq!(sorted_ords_of_nodes(&ring.specters.keys()), vec![s1.0.ord, s2.0.ord]);
    assert_eq!(ring.operations.keys(), vec![o2]);
    // from the start of the chain: all of it
    let ring = MioRingGen { base: vec![e1] }.interpret(&mio).unwrap();
    assert_eq!(ring.entities.keys(), vec![e1]);
    assert_eq!(sorted_ords_of_nodes(&ring.specters.keys()), vec![s1.0.ord, s2.0.ord]);
    assert_eq!(sorted_ords_of_ops(&ring.operations.keys()), vec![o1.0.ord, o2.0.ord]);
}

#[test]
fn closure_of_what_is_not_live_fails() {
    let (mio, _e1, _e2, _o1, _s1) = small_graph();
    let stranger = MioId(RingId { epoch: 1, ord: 99 });
    let result = MioRingGen { base: vec![stranger] }.interpret(&mio);
    assert!(matches!(result, Err(MioError::NotFound(id)) if id == stranger));
}

#[test]
fn view_of_everything() {
    let (mio, e1, e2, o1, s1) = small_graph();
    let view = MioView::all(&mio).unwrap();
    assert_eq!(view.timeline.len(), 2);
    assert_eq!(view.timeline[0].base, e1);
    assert_eq!(view.timeline[1].base, e2);
    assert_eq!(view.ring.entities.len(), 2);
    assert_eq!(view.ring.specters.keys(), vec![s1]);
    assert_eq!(view.ring.operations.keys(), vec![o1]);

    let empty = MioView::all(&fresh()).unwrap();
    assert!(empty.timeline.is_empty());
    assert_eq!(empty.ring.entities.len(), 0);
}

fn timeline_of(mio: &Mio, former: usize, anchor: usize, latter: usize) -> Vec<MioId> {
    let view = MioViewGen::Anchor { former, anchor, latter }.interpret(mio).unwrap();
    view.timeline.iter().map(|moment| moment.base).collect()
}

#[test]
fn view_around_an_anchor_is_cut_to_the_log() {
    let mut mio = fresh();
    let ids: Vec<MioId> = (0..5).map(|_| mio.register(EntityExt::Txt).unwrap()).collect();
    assert_eq!(timeline_of(&mio, 1, 2, 1), ids[1..=3].to_vec());
    assert_eq!(timeline_of(&mio, 0, 2, 0), ids[2..=2].to_vec());
    assert_eq!(timeline_of(&mio, 5, 2, 0), ids[0..=2].to_vec());
    assert_eq!(timeline_of(&mio, 0, 2, 9), ids[2..=4].to_vec());
    assert_eq!(timeline_of(&mio, 9, 0, 9), ids.clone());
    assert_eq!(timeline_of(&mio, 0, 4, 0), ids[4..=4].to_vec());
    assert_eq!(timeline_of(&mio, usize::MAX, 2, usize::MAX), ids.clone());
    // the anchor lies beyond the log: what of its window is in the log
    assert_eq!(timeline_of(&mio, 2, 5, 1), ids[3..=4].to_vec());
    assert_eq!(timeline_of(&mio, 1, 5, 0), ids[4..=4].to_vec());
    // the window lies outside the log
    assert_eq!(timeline_of(&mio, 0, 5, 0), Vec::<MioId>::new());
    assert_eq!(timeline_of(&mio, 2, 9, 3), Vec::<MioId>::new());
    assert_eq!(timeline_of(&mio, 0, usize::MAX, 1), Vec::<MioId>::new());
    // the ring of a view belongs to its timeline
    let view = MioViewGen::Anchor { former: 0, anchor: 1, latter: 1 }.interpret(&mio).unwrap();
    assert_eq!(sorted_ords_of_nodes(&view.ring.entities.keys()), vec![ids[1].0.ord, ids[2].0.ord]);
}

#[test]
fn view_of_an_empty_log_is_empty() {
    let mio = fresh();
    assert_eq!(timeline_of(&mio, 1, 0, 1), Vec::<MioId>::new());
    assert_eq!(timeline_of(&mio, 0, 0, 0), Vec::<MioId>::new());
}

#[test]
fn archiving_an_entity_takes_everything_computed_from_it() {
    let (mut mio, e1, e2, o1, s1) = small_graph();
    let archived = MioArchive::Specter(e1).interpret(&mut mio).unwrap();
    assert_eq!(sorted_ords_of_nodes(&archived.mio_id), vec![e1.0.ord, s1.0.ord]);
    assert_eq!(archived.op_id, vec![o1]);

    assert!(!mio.ring.has(&e1));
    assert!(!mio.ring.has(&s1));
    assert!(!mio.ring.operations.contains_key(&o1));
    assert!(mio.ring.has(&e2));
    assert_eq!(mio.ring.entities.len(), 1);

    assert!(mio.archived.entities.contains_key(&e1));
    assert!(mio.archived.specters.contains_key(&s1));
    assert!(mio.archived.operations.contains_key(&o1));
    assert_eq!(mio.archived.entities.get(&e1).unwrap().deps, vec![o1]);

    assert_eq!(mio.chronology.len(), 1);
    assert_eq!(mio.chronology[0].base, e2);

    assert_eq!(mio.alloc.ord(), 7);
    assert_eq!(mio.alloc.hill().ordinals(), vec![1, 2, 3]);
}

#[test]
fn after_archiving_nothing_live_refers_to_what_left() {
    let (mut mio, e1, _e2, _o1, s1) = small_graph();
    let e3 = mio.register(EntityExt::Png).unwrap();
    crop(vec![s1]).interpret(&mut mio).unwrap();
    crop(vec![e3]).interpret(&mut mio).unwrap();
    let archived = MioArchive::Specter(e1).interpret(&mut mio).unwrap();
    assert_eq!(archived.mio_id.len(), 3);
    assert_eq!(archived.op_id.len(), 2);
    for op in mio.ring.operations.keys() {
        let operation = mio.ring.operations.get(&op).unwrap();
        assert!(!operation.base.contains(&e1));
        for base in &operation.base {
            assert!(mio.ring.has(base));
            assert!(!archived.mio_id.contains(base));
        }
    }
    for id in mio.ring.specters.keys() {
        let specter = mio.ring.specters.get(&id).unwrap();
        assert!(mio.ring.operations.contains_key(&specter.body.operation));
        assert!(!archived.op_id.contains(&specter.body.operation));
    }
    for id in mio.ring.entities.keys() {
        for dep in &mio.ring.entities.get(&id).unwrap().deps {
            assert!(mio.ring.operations.contains_key(dep));
        }
    }
    assert_eq!(mio.ring.operations.len(), 1);
    assert_eq!(mio.ring.specters.len(), 1);
}

#[test]
fn archiving_an_operation_takes_its_result_and_leaves_its_input() {
    let (mut mio, e1, e2, o1, s1) = small_graph();
    let archived = MioArchive::Operation(o1).interpret(&mut mio).unwrap();
    assert_eq!(archived.mio_id, vec![s1]);
    assert_eq!(archived.op_id, vec![o1]);
    assert!(mio.ring.has(&e1));
    assert!(mio.ring.has(&e2));
    assert!(!mio.ring.has(&s1));
    assert!(!mio.ring.operations.contains_key(&o1));
    // the entity that was read no longer lists the operation as a reader
    assert!(mio.ring.entities.get(&e1).unwrap().deps.is_empty());
    assert_eq!(mio.chronology.len(), 2);
    assert_eq!(mio.alloc.hill().ordinals(), vec![2, 3]);
    // and views of it work on
    let ring = MioRingGen { base: vec![e1] }.interpret(&mio).unwrap();
    assert_eq!(ring.entities.keys(), vec![e1]);
    assert_eq!(ring.operations.len(), 0);
}

#[test]
fn archiving_a_lazy_specter_leaves_what_it_came_from() {
    let (mut mio, e1, _e2, o1, s1) = small_graph();
    let archived = MioArchive::Specter(s1).interpret(&mut mio).unwrap();
    assert_eq!(archived.mio_id, vec![s1]);
    assert!(archived.op_id.is_empty());
    assert!(mio.ring.has(&e1));
    assert!(mio.ring.operations.contains_key(&o1));
    assert!(mio.archived.specters.contains_key(&s1));
    assert_eq!(mio.alloc.hill().ordinals(), vec![3]);
}

#[test]
fn archiving_what_is_not_live_fails_and_changes_nothing() {
    let (mut mio, e1, _e2, o1, _s1) = small_graph();
    let stranger = MioId(RingId { epoch: 1, ord: 99 });
    let result = MioArchive::Specter(stranger).interpret(&mut mio);
    assert!(matches!(result, Err(MioError::NotFound(id)) if id == stranger));
    let result = MioArchive::Operation(OpId(stranger.0)).interpret(&mut mio);
    assert!(matches!(result, Err(MioError::OperationNotFound(id)) if id == OpId(stranger.0)));
    assert!(mio.ring.has(&e1));
    assert!(mio.ring.operations.contains_key(&o1));
    assert_eq!(mio.archived.entities.len(), 0);
    assert!(mio.alloc.hill().is_empty());
    assert_eq!(mio.chronology.len(), 2);
}

#[test]
fn archived_ordinals_are_issued_again() {
    let (mut mio, e1, _e2, _o1, _s1) = small_graph();
    MioArchive::Specter(e1).interpret(&mut mio).unwrap();
    let e3 = mio.register(EntityExt::Txt).unwrap();
    assert_eq!(e3.0.ord, 1);
    assert_eq!(mio.ring.entities.get(&e3).unwrap().body.pool.ordinals(), vec![2, 3]);
    assert!(mio.alloc.hill().is_empty());
    assert_eq!(mio.alloc.ord(), 7);
}

#[test]
fn purging_empties_the_archive_and_nothing_else() {
    let (mut mio, e1, e2, o1, s1) = small_graph();
    MioArchive::Specter(e1).interpret(&mut mio).unwrap();
    let purged = MioPurge.interpret(&mut mio);
    assert_eq!(purged.entities.keys(), vec![e1]);
    assert_eq!(purged.specters.keys(), vec![s1]);
    assert_eq!(purged.operations.keys(), vec![o1]);
    assert_eq!(mio.archived.entities.len(), 0);
    assert_eq!(mio.archived.specters.len(), 0);
    assert_eq!(mio.archived.operations.len(), 0);
    assert!(mio.ring.has(&e2));
    assert_eq!(mio.alloc.ord(), 7);
    assert_eq!(mio.alloc.hill().ordinals(), vec![1, 2, 3]);
    assert_eq!(mio.chronology.len(), 1);

    let again = MioPurge.interpret(&mut mio);
    assert_eq!(again.entities.len() + again.specters.len() + again.operations.len(), 0);
    assert_eq!(mio.archived.entities.len(), 0);
    assert!(mio.ring.has(&e2));
    assert_eq!(mio.alloc.hill().ordinals(), vec![1, 2, 3]);
}

#[test]
fn deleting_removes_from_all_three_maps() {
    let (mut mio, e1, e2, o1, s1) = small_graph();
    let closure = mio.ring.closure(&vec![e1], &Vec::new(), false).unwrap();
    assert_eq!(sorted_ords_of_nodes(&closure.0), vec![e1.0.ord, s1.0.ord]);
    assert_eq!(closure.1, vec![o1]);
    mio.ring.delete(mio_core::MioArchived { mio_id: closure.0, op_id: closure.1 });
    assert_eq!(mio.ring.entities.keys(), vec![e2]);
    assert_eq!(mio.ring.specters.len(), 0);
    assert_eq!(mio.ring.operations.len(), 0);
}

#[test]
fn forcing_runs_the_operation_of_absent_content() {
    let (mio, e1, _e2, o1, s1) = small_graph();
    let job = Job { operation: o1, backend: Backend::Crop, source: e1, target: s1 };
    let (mut run, action) = MioForce { ids: vec![s1] }.interpret(&mio);
    assert_eq!(action, ForceAction::Probe(s1));
    assert_eq!(run.stack, vec![Frame::Node(s1)]);
    // the source is an entity and needs nothing: the job is next
    assert_eq!(run.step(&mio, ForceEvent::Absent), ForceAction::Apply(job));
    assert_eq!(run.stack, vec![Frame::Apply(job)]);
    assert_eq!(run.step(&mio, ForceEvent::Written), ForceAction::Finished);
    assert!(run.stack.is_empty());
}

#[test]
fn forcing_present_content_runs_nothing() {
    let (mio, _e1, _e2, _o1, s1) = small_graph();
    let (mut run, action) = MioForce { ids: vec![s1] }.interpret(&mio);
    assert_eq!(action, ForceAction::Probe(s1));
    assert_eq!(run.step(&mio, ForceEvent::Present), ForceAction::Finished);
    assert!(run.stack.is_empty());
}

#[test]
fn forcing_forces_the_chain_depth_first() {
    let (mut mio, e1, e2, o1, s1) = small_graph();
    let diff = crop(vec![s1]).interpret(&mut mio).unwrap();
    let (o2, s2) = made(&diff);
    let first = Job { operation: o1, backend: Backend::Crop, source: e1, target: s1 };
    let second = Job { operation: o2, backend: Backend::Crop, source: s1, target: s2 };

    let (mut run, action) = MioForce { ids: vec![e2, s2, e1] }.interpret(&mio);
    assert_eq!(action, ForceAction::Probe(s2));
    assert_eq!(run.step(&mio, ForceEvent::Absent), ForceAction::Probe(s1));
    assert_eq!(run.step(&mio, ForceEvent::Absent), ForceAction::Apply(first));
    assert_eq!(run.step(&mio, ForceEvent::Written), ForceAction::Apply(second));
    assert_eq!(run.step(&mio, ForceEvent::Written), ForceAction::Finished);

    // the source is in the cache already: only the last job is run
    let (mut run, action) = MioForce { ids: vec![s2] }.interpret(&mio);
    assert_eq!(action, ForceAction::Probe(s2));
    assert_eq!(run.step(&mio, ForceEvent::Absent), ForceAction::Probe(s1));
    assert_eq!(run.step(&mio, ForceEvent::Present), ForceAction::Apply(second));
    assert_eq!(run.step(&mio, ForceEvent::Written), ForceAction::Finished);
}

#[test]
fn forcing_entities_and_nothing_is_done_at_once() {
    let (mio, e1, e2, _o1, _s1) = small_graph();
    let (run, action) = MioForce { ids: vec![e1, e2] }.interpret(&mio);
    assert_eq!(action, ForceAction::Finished);
    assert!(run.stack.is_empty());
    let (_, action) = MioForce { ids: Vec::new() }.interpret(&mio);
    assert_eq!(action, ForceAction::Finished);
}

#[test]
fn forcing_fails_on_the_first_that_is_not_live() {
    let (mio, e1, _e2, _o1, s1) = small_graph();
    let stranger = MioId(RingId { epoch: 1, ord: 99 });
    let (_, action) = MioForce { ids: vec![e1, stranger, s1] }.interpret(&mio);
    assert_eq!(action, ForceAction::Fail(ForceFailure::NotFound(stranger)));
}

#[test]
fn forcing_reports_a_failed_backend() {
    let (mio, _e1, _e2, o1, s1) = small_graph();
    let (mut run, _) = MioForce { ids: vec![s1] }.interpret(&mio);
    run.step(&mio, ForceEvent::Absent);
    assert_eq!(
        run.step(&mio, ForceEvent::Failed),
        ForceAction::Fail(ForceFailure::Backend(o1))
    );
}

#[test]
fn forcing_an_operation_without_backend_fails() {
    let mut mio = fresh();
    let e1 = mio.register(EntityExt::Png).unwrap();
    let diff = MioInitiate::new(OperationKind::Annotation, serde_json::Value::Null, vec![e1])
        .interpret(&mut mio)
        .unwrap();
    let (o1, s1) = made(&diff);
    let (mut run, action) = MioForce { ids: vec![s1] }.interpret(&mio);
    assert_eq!(action, ForceAction::Probe(s1));
    assert_eq!(
        run.step(&mio, ForceEvent::Absent),
        ForceAction::Fail(ForceFailure::NoBackend(o1))
    );
}

#[test]
fn forcing_reading_text_asks_for_the_text_backend() {
    let mut mio = fresh();
    let e1 = mio.register(EntityExt::Jpg).unwrap();
    let diff = MioInitiate::new(
        OperationKind::As(EntityKind::Text),
        serde_json::Value::Null,
        vec![e1],
    )
    .interpret(&mut mio)
    .unwrap();
    let (o1, s1) = made(&diff);
    let (mut run, _) = MioForce { ids: vec![s1] }.interpret(&mio);
    assert_eq!(
        run.step(&mio, ForceEvent::Absent),
        ForceAction::Apply(Job { operation: o1, backend: Backend::Ocr, source: e1, target: s1 })
    );
}

#[test]
fn events_out_of_turn_fail_the_run() {
    let (mio, _e1, _e2, _o1, s1) = small_graph();
    let (mut run, _) = MioForce { ids: vec![s1] }.interpret(&mio);
    assert_eq!(
        run.step(&mio, ForceEvent::Written),
        ForceAction::Fail(ForceFailure::OutOfTurn)
    );
    let (mut run, _) = MioForce { ids: Vec::new() }.interpret(&mio);
    assert_eq!(
        run.step(&mio, ForceEvent::Present),
        ForceAction::Fail(ForceFailure::OutOfTurn)
    );
    let (mut run, _) = MioForce { ids: vec![s1] }.interpret(&mio);
    run.step(&mio, ForceEvent::Absent);
    assert_eq!(
        run.step(&mio, ForceEvent::Absent),
        ForceAction::Fail(ForceFailure::OutOfTurn)
    );
}

#[test]
fn end_to_end() {
    let mut mio = fresh();
    let e1 = mio.register(EntityExt::Png).unwrap();
    let diff = crop(vec![e1]).interpret(&mut mio).unwrap();
    assert_eq!(diff.operations.len(), 1);
    assert_eq!(diff.specters.len(), 1);
    let (o1, s1) = made(&diff);

    let (mut run, action) = MioForce { ids: vec![s1] }.interpret(&mio);
    assert_eq!(action, ForceAction::Probe(s1));
    let action = run.step(&mio, ForceEvent::Absent);
    assert_eq!(
        action,
        ForceAction::Apply(Job { operation: o1, backend: Backend::Crop, source: e1, target: s1 })
    );
    assert_eq!(run.step(&mio, ForceEvent::Written), ForceAction::Finished);

    let archived = MioArchive::Specter(e1).interpret(&mut mio).unwrap();
    assert_eq!(sorted_ords_of_nodes(&archived.mio_id), vec![e1.0.ord, s1.0.ord]);
    assert_eq!(archived.op_id, vec![o1]);
    assert_eq!(mio.ring.entities.len(), 0);
    assert_eq!(mio.ring.specters.len(), 0);
    assert_eq!(mio.ring.operations.len(), 0);
    assert!(mio.chronology.is_empty());
}

#[test]
fn registering_fails_where_no_ordinal_is_left() {
    let mut mio = fresh();
    mio.alloc = mio_core::Alloc::from_parts(usize::MAX, mio_core::AllocPool::new()).unwrap();
    assert!(matches!(mio.register(EntityExt::Png), Err(MioError::Exhausted)));
    assert_eq!(mio.ring.entities.len(), 0);
    assert!(mio.chronology.is_empty());
}

#[test]
fn initiating_fails_where_no_ordinal_is_left() {
    let mut mio = fresh();
    let e1 = mio.register(EntityExt::Png).unwrap();
    crop(vec![e1]).interpret(&mut mio).unwrap();
    mio.alloc = mio_core::Alloc::from_parts(usize::MAX - 1, mio_core::AllocPool::new()).unwrap();
    assert!(matches!(crop(vec![e1]).interpret(&mut mio), Err(MioError::Exhausted)));
    assert_eq!(mio.alloc.ord(), usize::MAX - 1);
    assert_eq!(mio.ring.operations.len(), 1);
    assert_eq!(mio.ring.entities.get(&e1).unwrap().deps.len(), 1);
}

fn ordinals_in_use(mio: &Mio) -> Vec<usize> {
    let mut ords = vec![mio.null.0.ord];
    for id in mio.ring.entities.keys() {
        ords.push(id.0.ord);
        ords.extend(mio.ring.entities.get(&id).unwrap().body.pool.ordinals());
    }
    for id in mio.ring.specters.keys() {
        ords.push(id.0.ord);
    }
    for id in mio.ring.operations.keys() {
        ords.push(id.0.ord);
    }
    ords
}

fn assert_in_order(mio: &Mio) {
    let ords = ordinals_in_use(mio);
    for ord in &ords {
        assert!(mio.alloc.is_issued(*ord));
    }
    let mut distinct = ords.clone();
    distinct.sort();
    distinct.dedup();
    assert_eq!(distinct.len(), ords.len());
    for id in mio.ring.entities.keys() {
        assert!(!mio.ring.specters.contains_key(&id));
        for dep in &mio.ring.entities.get(&id).unwrap().deps {
            assert!(mio.ring.operations.get(dep).unwrap().base.contains(&id));
        }
    }
    for id in mio.ring.operations.keys() {
        for base in &mio.ring.operations.get(&id).unwrap().base {
            assert!(mio.ring.deps(base).unwrap().contains(&id));
        }
    }
}

#[test]
fn commands_keep_the_aggregate_in_order() {
    let mut mio = fresh();
    assert_in_order(&mio);
    let mut entities = Vec::new();
    for round in 0..6 {
        let e = mio.register(EntityExt::Png).unwrap();
        entities.push(e);
        assert_in_order(&mio);
        let diff = crop(vec![e]).interpret(&mut mio).unwrap();
        let (_, s) = made(&diff);
        assert_in_order(&mio);
        crop(vec![s]).interpret(&mut mio).unwrap();
        crop(vec![e]).interpret(&mut mio).unwrap();
        assert_in_order(&mio);
        if round % 2 == 1 {
            let gone = entities.remove(0);
            MioArchive::Specter(gone).interpret(&mut mio).unwrap();
            assert_in_order(&mio);
            MioPurge.interpret(&mut mio);
            assert_in_order(&mio);
        }
    }
    assert_eq!(mio.ring.entities.len(), 3);
    assert_eq!(mio.ring.operations.len(), 9);
}

#[test]
fn deleting_cascades_without_holding() {
    let (mut mio, e1, e2, o1, s1) = small_graph();
    let deleted = MioDelete::Specter(e1).interpret(&mut mio).unwrap();
    assert_eq!(sorted_ords_of_nodes(&deleted.mio_id), vec![e1.0.ord, s1.0.ord]);
    assert_eq!(deleted.op_id, vec![o1]);
    assert_eq!(mio.ring.entities.keys(), vec![e2]);
    assert_eq!(mio.ring.specters.len() + mio.ring.operations.len(), 0);
    assert_eq!(
        mio.archived.entities.len() + mio.archived.specters.len() + mio.archived.operations.len(),
        0
    );
    assert_eq!(mio.alloc.hill().ordinals(), vec![1, 2, 3]);
    assert_eq!(mio.chronology.len(), 1);
    assert_in_order(&mio);

    let stranger = OpId(RingId { epoch: 1, ord: 99 });
    let result = MioDelete::Operation(stranger).interpret(&mut mio);
    assert!(matches!(result, Err(MioError::OperationNotFound(id)) if id == stranger));
    assert_eq!(mio.ring.entities.keys(), vec![e2]);
}

#[test]
fn what_commands_made_is_in_order() {
    let (mut mio, e1, _e2, _o1, s1) = small_graph();
    assert!(fresh().is_in_order());
    assert!(mio.is_in_order());
    crop(vec![s1]).interpret(&mut mio).unwrap();
    assert!(mio.ring.is_consistent() && mio.is_disciplined() && mio.is_chronicled());
    MioArchive::Specter(e1).interpret(&mut mio).unwrap();
    assert!(mio.is_in_order());
    MioPurge.interpret(&mut mio);
    assert!(mio.is_in_order());
}

#[test]
fn what_does_not_hang_together_is_found_out() {
    // a reader that is not in the ring
    let (mut mio, e1, _e2, o1, s1) = small_graph();
    let operation = mio.ring.operations.remove(&o1).unwrap();
    assert!(!mio.ring.is_consistent());
    assert!(!mio.is_in_order());
    mio.ring.operations.insert(o1, operation);
    assert!(mio.is_in_order());

    // an operation that reads what does not list it
    let mut entity = mio.ring.entities.remove(&e1).unwrap();
    entity.deps.clear();
    mio.ring.entities.insert(e1, entity);
    assert!(!mio.ring.is_consistent());

    // a record under the identifier of another
    let (mut mio, e1, e2, _o1, _s1) = small_graph();
    let entity = mio.ring.entities.remove(&e2).unwrap();
    mio.ring.entities.insert(MioId(RingId { epoch: 0, ord: e2.0.ord }), entity);
    assert!(!mio.ring.is_consistent());

    // a specter that is concrete and lazy at once
    let (mut mio, e1b, _e2, _o1, s1b) = small_graph();
    let mut specter = mio.ring.specters.get(&s1b).unwrap().clone();
    specter.id = e1b;
    mio.ring.specters.insert(e1b, specter);
    assert!(!mio.ring.is_consistent());

    // a lazy specter whose operation results in another
    let (mut mio, _e1, _e2, o1, s1c) = small_graph();
    let mut operation = mio.ring.operations.remove(&o1).unwrap();
    operation.specter = e1;
    mio.ring.operations.insert(o1, operation);
    assert!(!mio.ring.is_consistent());
    let _ = (s1, s1c);
}

#[test]
fn ordinals_out_of_order_are_found_out() {
    // a live ordinal on the hill
    let (mut mio, e1, _e2, _o1, _s1) = small_graph();
    mio.alloc.deallocate(e1.0);
    assert!(mio.ring.is_consistent());
    assert!(!mio.is_disciplined());
    assert!(!mio.is_in_order());

    // two live identifiers with one ordinal
    let (mut mio, e1, _e2, _o1, _s1) = small_graph();
    let twin = MioId(RingId { epoch: 0, ord: e1.0.ord });
    let mut entity = mio.ring.entities.get(&e1).unwrap().clone();
    entity.id = twin;
    entity.deps.clear();
    entity.body.pool = mio_core::AllocPool::new();
    mio.ring.entities.insert(twin, entity);
    assert!(mio.ring.is_consistent());
    assert!(!mio.is_disciplined());

    // a pooled ordinal that is live too
    let (mut mio, _e1, e2, o1, _s1) = small_graph();
    let mut entity = mio.ring.entities.remove(&e2).unwrap();
    entity.body.pool.insert(o1.0.ord);
    mio.ring.entities.insert(e2, entity);
    assert!(!mio.is_disciplined());

    // a live ordinal above the ceiling
    let (mut mio, _e1, _e2, _o1, _s1) = small_graph();
    mio.alloc = mio_core::Alloc::from_parts(3, mio_core::AllocPool::new()).unwrap();
    assert!(!mio.is_disciplined());

    // a moment of what is not live
    let (mut mio, e1, _e2, _o1, _s1) = small_graph();
    mio.chronology.push(mio_core::Ephemerality {
        time: 0,
        base: MioId(RingId { epoch: 0, ord: e1.0.ord }),
    });
    assert!(mio.is_disciplined());
    assert!(!mio.is_chronicled());
    assert!(!mio.is_in_order());
}
