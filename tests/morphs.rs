use mmd_runtime::{FlatMorph, MmdAnimation, MmdMorphController, MmdPropertyAnimationTrack, MorphMetadata};

fn members(m: &MorphMetadata) -> Vec<i32> {
    match m {
        MorphMetadata::Bone { indices } => indices.clone(),
        MorphMetadata::Group { indices } => indices.clone(),
    }
}

fn flat(f: &[FlatMorph]) -> Vec<(usize, Vec<(usize, usize)>)> {
    f.iter().map(|m| (m.morph, m.path.clone())).collect()
}

#[test]
fn self_referencing_group_contributes_nothing() {
    let controller = MmdMorphController::new(vec![MorphMetadata::Group { indices: vec![0] }]);
    assert_eq!(members(&controller.morphs()[0]), vec![-1]);
    assert!(controller.group_morph_flat_foreach(0).is_empty());
}

#[test]
fn two_group_loop_is_cut_at_the_returning_slot() {
    let controller = MmdMorphController::new(vec![
        MorphMetadata::Group { indices: vec![1] },
        MorphMetadata::Group { indices: vec![0, 2] },
        MorphMetadata::Bone { indices: vec![3] },
    ]);
    assert_eq!(members(&controller.morphs()[0]), vec![1]);
    assert_eq!(members(&controller.morphs()[1]), vec![-1, 2]);
    assert_eq!(flat(&controller.group_morph_flat_foreach(0)), vec![(2, vec![(0, 0), (1, 1)])]);
}

#[test]
fn nested_group_ratios_multiply() {
    // A -> B (ratio 0.5) -> C (ratio 1.0), C a bone morph.
    let controller = MmdMorphController::new(vec![
        MorphMetadata::Group { indices: vec![1] },
        MorphMetadata::Group { indices: vec![2] },
        MorphMetadata::Bone { indices: vec![0] },
    ]);
    let ratios: Vec<Vec<f32>> = vec![vec![0.5], vec![1.0], vec![]];
    let reached = controller.group_morph_flat_foreach(0);
    assert_eq!(flat(&reached), vec![(2, vec![(0, 0), (1, 0)])]);
    let weight: f32 = 0.8;
    let scaled = reached[0].path.iter().fold(weight, |w, (g, slot)| w * ratios[*g][*slot]);
    assert_eq!(scaled, weight * 0.5);
}

#[test]
fn group_members_expand_last_slot_first() {
    let controller = MmdMorphController::new(vec![
        MorphMetadata::Group { indices: vec![1, 2, -1, 7] },
        MorphMetadata::Bone { indices: vec![0] },
        MorphMetadata::Bone { indices: vec![1] },
    ]);
    assert_eq!(members(&controller.morphs()[0]), vec![1, 2, -1, 7]);
    assert_eq!(flat(&controller.group_morph_flat_foreach(0)), vec![(2, vec![(0, 1)]), (1, vec![(0, 0)])]);
}

#[test]
fn shared_member_is_reached_along_each_path() {
    let controller = MmdMorphController::new(vec![
        MorphMetadata::Group { indices: vec![2, 1] },
        MorphMetadata::Group { indices: vec![2] },
        MorphMetadata::Bone { indices: vec![0] },
    ]);
    assert_eq!(
        flat(&controller.group_morph_flat_foreach(0)),
        vec![(2, vec![(0, 1), (1, 0)]), (2, vec![(0, 0)])]
    );
}

#[test]
fn bone_morph_reaches_itself_and_bad_index_nothing() {
    let controller = MmdMorphController::new(vec![MorphMetadata::Bone { indices: vec![4] }]);
    assert_eq!(flat(&controller.group_morph_flat_foreach(0)), vec![(0, vec![])]);
    assert!(controller.group_morph_flat_foreach(3).is_empty());
}

#[test]
fn update_resets_last_frame_and_applies_nonzero() {
    let mut controller = MmdMorphController::new(vec![
        MorphMetadata::Bone { indices: vec![0] },
        MorphMetadata::Bone { indices: vec![1] },
        MorphMetadata::Group { indices: vec![0] },
    ]);
    assert_eq!(controller.active_morphs(), &[false, false, false]);
    let first = controller.update(&vec![true, false, true]);
    assert!(first.resets.is_empty());
    assert_eq!(first.applies, vec![0, 2]);
    assert_eq!(controller.active_morphs(), &[true, false, true]);
    let second = controller.update(&vec![false, true, false]);
    assert_eq!(second.resets, vec![0, 2]);
    assert_eq!(second.applies, vec![1]);
    let third = controller.update(&vec![false, false, false]);
    assert_eq!(third.resets, vec![1]);
    assert!(third.applies.is_empty());
    assert_eq!(controller.active_morphs(), &[false, false, false]);
}

#[test]
fn animation_keeps_its_tracks() {
    let property = MmdPropertyAnimationTrack { frame_numbers: vec![0, 30], ik_states: vec![vec![1, 0]] };
    let animation = MmdAnimation::new(9, Vec::new(), Vec::new(), Vec::new(), property);
    assert_eq!(animation.id(), 9);
    assert!(animation.bone_tracks().is_empty());
    assert!(animation.movable_bone_tracks().is_empty());
    assert!(animation.morph_tracks().is_empty());
    assert_eq!(animation.property_track().frame_numbers, vec![0, 30]);
    assert_eq!(animation.property_track().ik_states, vec![vec![1, 0]]);
}
