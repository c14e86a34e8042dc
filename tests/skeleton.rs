use mmd_runtime::{
    sorted_bone_order, AppendTransformRecord, BoneRecord, BuildError, IkRecord, MmdModel,
    MmdRuntimeBone, MmdRuntimeBoneArena, MorphMetadata, UpdateStep,
};

type Translation = [f32; 3];

fn compose(parent: Translation, local: Translation) -> Translation {
    [parent[0] + local[0], parent[1] + local[1], parent[2] + local[2]]
}

fn bone(parent: i32, order: i32) -> BoneRecord {
    BoneRecord {
        parent_bone_index: parent,
        transform_order: order,
        transform_after_physics: false,
        append_transform: None,
        ik: None,
    }
}

fn build(records: Vec<BoneRecord>) -> Result<MmdModel<Translation>, BuildError> {
    MmdModel::new(&records, Vec::new(), [0.0; 3])
}

/// Runs the steps of a stage update, with local transforms taken from `locals`.
fn run_steps(model: &mut MmdModel<Translation>, steps: &[UpdateStep], locals: &[Translation]) {
    for step in steps {
        match *step {
            UpdateStep::LocalMatrix { bone } => model.set_local_matrix(bone, locals[bone]),
            UpdateStep::WorldMatrix { bone } => model.update_world_matrix(bone, &compose),
            UpdateStep::AppendTransform { .. } | UpdateStep::Ik { .. } => {}
        }
    }
}

#[test]
fn sort_keeps_index_order_among_equal_transform_orders() {
    let order = sorted_bone_order(&vec![1, 0, 1, 0, -1]);
    assert_eq!(order, vec![4, 1, 3, 0, 2]);
}

#[test]
fn sort_of_no_bones_is_empty() {
    assert_eq!(sorted_bone_order(&Vec::new()), Vec::<usize>::new());
}

#[test]
fn sort_handles_extreme_orders() {
    let order = sorted_bone_order(&vec![i32::MAX, i32::MIN, 0, i32::MAX]);
    assert_eq!(order, vec![1, 2, 0, 3]);
}

#[test]
fn new_bone_is_a_detached_root() {
    let b = MmdRuntimeBone::new(7);
    assert_eq!(b.index, 7);
    assert_eq!(b.parent_bone, None);
    assert!(b.child_bones.is_empty());
    assert_eq!(b.transform_order, 0);
    assert!(!b.transform_after_physics);
    assert_eq!(b.append_transform_solver, None);
    assert_eq!(b.ik_solver, None);
}

#[test]
fn chain_links_parents_and_children() {
    let model = build(vec![bone(-1, 0), bone(0, 0), bone(1, 0)]).unwrap();
    let bones = model.bone_arena().bone_arena();
    assert_eq!(bones[0].parent_bone, None);
    assert_eq!(bones[1].parent_bone, Some(0));
    assert_eq!(bones[2].parent_bone, Some(1));
    assert_eq!(bones[0].child_bones, vec![1]);
    assert_eq!(bones[1].child_bones, vec![2]);
    assert!(bones[2].child_bones.is_empty());
    assert_eq!(model.sorted_runtime_bones(), &[0, 1, 2]);
    assert_eq!(model.sorted_runtime_root_bones(), &[0]);
}

#[test]
fn children_are_listed_in_index_order() {
    let model = build(vec![bone(2, 0), bone(-1, 0), bone(1, 0), bone(2, 0), bone(1, 0)]).unwrap();
    let bones = model.bone_arena().bone_arena();
    assert_eq!(bones[1].child_bones, vec![2, 4]);
    assert_eq!(bones[2].child_bones, vec![0, 3]);
}

#[test]
fn roots_follow_evaluation_order() {
    let model = build(vec![bone(-1, 5), bone(-1, 1), bone(0, 0), bone(-1, 1)]).unwrap();
    assert_eq!(model.sorted_runtime_bones(), &[2, 1, 3, 0]);
    assert_eq!(model.sorted_runtime_root_bones(), &[1, 3, 0]);
}

#[test]
fn chain_translation_reaches_the_leaf() {
    let mut model = build(vec![bone(-1, 0), bone(0, 0), bone(1, 0)]).unwrap();
    let locals = [[1.0, 0.0, 0.0], [0.0; 3], [0.0; 3]];
    let steps = model.update(false, &Vec::new());
    run_steps(&mut model, &steps, &locals);
    assert_eq!(model.bone_arena().world_matrix(2), [1.0, 0.0, 0.0]);
    assert_eq!(model.bone_arena().world_matrix(1), [1.0, 0.0, 0.0]);
}

#[test]
fn every_world_matches_parent_world_and_local() {
    let mut model = build(vec![bone(3, 0), bone(-1, 0), bone(1, 0), bone(-1, 0), bone(0, 0)]).unwrap();
    let locals = [[1.0, 2.0, 0.0], [0.5, 0.0, 0.0], [0.0, 0.0, 4.0], [3.0, 0.0, 0.0], [0.0, 1.0, 0.0]];
    let steps = model.update(false, &Vec::new());
    run_steps(&mut model, &steps, &locals);
    let bones = model.bone_arena().bone_arena();
    for b in 0..bones.len() {
        let expected = match bones[b].parent_bone {
            Some(p) => compose(model.bone_arena().world_matrix(p), locals[b]),
            None => locals[b],
        };
        assert_eq!(model.bone_arena().world_matrix(b), expected);
    }
    assert_eq!(model.bone_arena().world_matrix(4), [4.0, 3.0, 0.0]);
}

#[test]
fn partial_propagation_leaves_other_branches() {
    let mut model = build(vec![bone(-1, 0), bone(0, 0), bone(0, 0), bone(1, 0)]).unwrap();
    for b in 0..4 {
        model.set_local_matrix(b, [1.0, 0.0, 0.0]);
    }
    model.update_world_matrix(1, &compose);
    assert_eq!(model.bone_arena().world_matrix(1), [1.0, 0.0, 0.0]);
    assert_eq!(model.bone_arena().world_matrix(3), [2.0, 0.0, 0.0]);
    assert_eq!(model.bone_arena().world_matrix(0), [0.0; 3]);
    assert_eq!(model.bone_arena().world_matrix(2), [0.0; 3]);
}

#[test]
fn parent_out_of_range_is_rejected() {
    assert_eq!(
        build(vec![bone(-1, 0), bone(2, 0)]).err(),
        Some(BuildError::ParentOutOfRange { bone: 1 })
    );
    assert_eq!(build(vec![bone(-2, 0)]).err(), Some(BuildError::ParentOutOfRange { bone: 0 }));
}

#[test]
fn append_target_out_of_range_is_rejected() {
    let mut b = bone(-1, 0);
    b.append_transform = Some(AppendTransformRecord {
        target: 1,
        affect_rotation: true,
        affect_position: false,
        is_local: false,
    });
    assert_eq!(build(vec![b]).err(), Some(BuildError::AppendTargetOutOfRange { bone: 0 }));
}

#[test]
fn ik_target_out_of_range_is_rejected() {
    let mut b = bone(-1, 0);
    b.ik = Some(IkRecord { target: -1, iteration_count: 4, links: vec![0] });
    assert_eq!(build(vec![bone(-1, 0), b]).err(), Some(BuildError::IkTargetOutOfRange { bone: 1 }));
}

#[test]
fn ik_link_out_of_range_is_rejected() {
    let mut b = bone(-1, 0);
    b.ik = Some(IkRecord { target: 0, iteration_count: 4, links: vec![0, 9, -3] });
    assert_eq!(
        build(vec![b]).err(),
        Some(BuildError::IkLinkOutOfRange { bone: 0, link: 1 })
    );
}

#[test]
fn first_bad_record_is_reported() {
    let mut b = bone(-1, 0);
    b.append_transform =
        Some(AppendTransformRecord { target: 7, affect_rotation: true, affect_position: true, is_local: false });
    assert_eq!(
        build(vec![bone(-1, 0), b, bone(9, 0)]).err(),
        Some(BuildError::AppendTargetOutOfRange { bone: 1 })
    );
}

#[test]
fn parent_cycle_is_rejected() {
    assert_eq!(
        build(vec![bone(-1, 0), bone(2, 0), bone(1, 0)]).err(),
        Some(BuildError::CyclicHierarchy { bone: 1 })
    );
    assert_eq!(build(vec![bone(0, 0)]).err(), Some(BuildError::CyclicHierarchy { bone: 0 }));
}

#[test]
fn solvers_are_numbered_in_record_order() {
    let append = |t: i32| {
        Some(AppendTransformRecord { target: t, affect_rotation: true, affect_position: false, is_local: true })
    };
    let mut b0 = bone(-1, 0);
    b0.ik = Some(IkRecord { target: 2, iteration_count: 8, links: vec![1, 0] });
    let mut b1 = bone(0, 0);
    b1.append_transform = append(0);
    let mut b2 = bone(0, 0);
    b2.append_transform = append(1);
    let model = build(vec![b0, b1, b2]).unwrap();
    let bones = model.bone_arena().bone_arena();
    assert_eq!(bones[0].ik_solver, Some(0));
    assert_eq!(bones[1].append_transform_solver, Some(0));
    assert_eq!(bones[2].append_transform_solver, Some(1));
    assert_eq!(model.append_transform_solvers()[1].target_bone, 1);
    assert!(model.append_transform_solvers()[1].is_local);
    assert!(!model.append_transform_solvers()[1].affect_position);
    let ik = &model.ik_solvers()[0];
    assert_eq!((ik.ik_bone, ik.target_bone, ik.iteration_count), (0, 2, 8));
    assert_eq!(ik.chain, vec![1, 0]);
}

#[test]
fn schedule_runs_corrections_between_propagations() {
    let mut b1 = bone(0, 0);
    b1.append_transform =
        Some(AppendTransformRecord { target: 0, affect_rotation: true, affect_position: true, is_local: false });
    let mut b2 = bone(1, 0);
    b2.ik = Some(IkRecord { target: 0, iteration_count: 1, links: vec![1] });
    let model = build(vec![bone(-1, 0), b1, b2]).unwrap();
    let steps = model.update(false, &vec![true]);
    assert_eq!(
        steps,
        vec![
            UpdateStep::LocalMatrix { bone: 0 },
            UpdateStep::LocalMatrix { bone: 1 },
            UpdateStep::LocalMatrix { bone: 2 },
            UpdateStep::WorldMatrix { bone: 0 },
            UpdateStep::AppendTransform { solver: 0, bone: 1 },
            UpdateStep::LocalMatrix { bone: 1 },
            UpdateStep::WorldMatrix { bone: 1 },
            UpdateStep::Ik { solver: 0, bone: 2 },
            UpdateStep::WorldMatrix { bone: 2 },
            UpdateStep::WorldMatrix { bone: 0 },
        ]
    );
}

#[test]
fn disabled_ik_is_not_run() {
    let mut b1 = bone(0, 0);
    b1.ik = Some(IkRecord { target: 0, iteration_count: 1, links: vec![0] });
    let model = build(vec![bone(-1, 0), b1]).unwrap();
    let steps = model.update(false, &vec![false]);
    assert!(steps.iter().all(|s| !matches!(s, UpdateStep::Ik { .. })));
    assert_eq!(steps.len(), 4);
}

#[test]
fn stages_split_the_bones() {
    let mut late = bone(-1, 0);
    late.transform_after_physics = true;
    let model = build(vec![bone(-1, 0), late]).unwrap();
    let before = model.update(false, &Vec::new());
    assert_eq!(
        before,
        vec![
            UpdateStep::LocalMatrix { bone: 0 },
            UpdateStep::WorldMatrix { bone: 0 },
            UpdateStep::WorldMatrix { bone: 0 },
        ]
    );
    let after = model.after_physics(&Vec::new());
    assert_eq!(
        after,
        vec![
            UpdateStep::LocalMatrix { bone: 1 },
            UpdateStep::WorldMatrix { bone: 1 },
            UpdateStep::WorldMatrix { bone: 1 },
        ]
    );
    assert_eq!(
        model.update_local_matrices(),
        vec![UpdateStep::LocalMatrix { bone: 0 }, UpdateStep::LocalMatrix { bone: 1 }]
    );
}

#[test]
fn before_physics_updates_morphs_then_schedules() {
    let morphs = vec![MorphMetadata::Bone { indices: vec![0] }];
    let mut model: MmdModel<Translation> = MmdModel::new(&vec![bone(-1, 0)], morphs, [0.0; 3]).unwrap();
    let (morph_update, steps) = model.before_physics(&vec![true], &Vec::new());
    assert!(morph_update.resets.is_empty());
    assert_eq!(morph_update.applies, vec![0]);
    assert_eq!(steps.len(), 3);
    let (morph_update, _) = model.before_physics(&vec![false], &Vec::new());
    assert_eq!(morph_update.resets, vec![0]);
    assert!(morph_update.applies.is_empty());
}

#[test]
fn full_propagation_makes_every_world_consistent() {
    // 0 <- 2 <- 1, and 3 a second root.
    let mut bones: Vec<MmdRuntimeBone> = (0..4).map(MmdRuntimeBone::new).collect();
    bones[2].parent_bone = Some(0);
    bones[1].parent_bone = Some(2);
    bones[0].child_bones = vec![2];
    bones[2].child_bones = vec![1];
    let mut arena = MmdRuntimeBoneArena::new(bones, Vec::new(), [0.0f32; 3]);
    let locals = [[1.0, 0.0, 0.0], [0.0, 0.0, 3.0], [0.0, 2.0, 0.0], [5.0, 5.0, 5.0]];
    for (b, l) in locals.iter().enumerate() {
        arena.set_local_matrix(b, *l);
    }
    arena.update_all_world_matrices(&compose);
    assert_eq!(arena.world_matrix(0), [1.0, 0.0, 0.0]);
    assert_eq!(arena.world_matrix(2), [1.0, 2.0, 0.0]);
    assert_eq!(arena.world_matrix(1), [1.0, 2.0, 3.0]);
    assert_eq!(arena.world_matrix(3), [5.0, 5.0, 5.0]);
    assert_eq!(arena.len(), 4);
}
