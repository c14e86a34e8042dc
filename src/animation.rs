use vstd::prelude::*;

verus! {

/// Key frames of one bone's rotation channel.
pub struct MmdBoneAnimationTrack {
    pub frame_numbers: Vec<u32>,
}

/// Key frames of one bone's position and rotation channels.
pub struct MmdMovableBoneAnimationTrack {
    pub frame_numbers: Vec<u32>,
}

/// Key frames of one morph's weight.
pub struct MmdMorphAnimationTrack {
    pub frame_numbers: Vec<u32>,
}

/// Key frames of the visibility and IK-enable properties.
pub struct MmdPropertyAnimationTrack {
    pub frame_numbers: Vec<u32>,
    /// For each IK solver, its enable state at each key frame.
    pub ik_states: Vec<Vec<u8>>,
}

/// An animation clip: an identifier and its tracks.
pub struct MmdAnimation {
    id: u32,
    bone_tracks: Vec<MmdBoneAnimationTrack>,
    movable_bone_tracks: Vec<MmdMovableBoneAnimationTrack>,
    morph_tracks: Vec<MmdMorphAnimationTrack>,
    property_track: MmdPropertyAnimationTrack,
}

impl MmdAnimation {
    pub closed spec fn spec_id(&self) -> u32 {
        self.id
    }

    pub closed spec fn spec_bone_tracks(&self) -> Seq<MmdBoneAnimationTrack> {
        self.bone_tracks@
    }

    pub closed spec fn spec_movable_bone_tracks(&self) -> Seq<MmdMovableBoneAnimationTrack> {
        self.movable_bone_tracks@
    }

    pub closed spec fn spec_morph_tracks(&self) -> Seq<MmdMorphAnimationTrack> {
        self.morph_tracks@
    }

    pub closed spec fn spec_property_track(&self) -> &MmdPropertyAnimationTrack {
        &self.property_track
    }

    pub fn new(
        id: u32,
        bone_tracks: Vec<MmdBoneAnimationTrack>,
        movable_bone_tracks: Vec<MmdMovableBoneAnimationTrack>,
        morph_tracks: Vec<MmdMorphAnimationTrack>,
        property_track: MmdPropertyAnimationTrack,
    ) -> (r: Self)
        ensures
            r.spec_id() == id,
            r.spec_bone_tracks() == bone_tracks@,
            r.spec_movable_bone_tracks() == movable_bone_tracks@,
            r.spec_morph_tracks() == morph_tracks@,
            *r.spec_property_track() == property_track,
    {
        MmdAnimation { id, bone_tracks, movable_bone_tracks, morph_tracks, property_track }
    }

    pub fn id(&self) -> (r: u32)
        ensures
            r == self.spec_id(),
    {
        self.id
    }

    pub fn bone_tracks(&self) -> (r: &[MmdBoneAnimationTrack])
        ensures
            r@ == self.spec_bone_tracks(),
    {
        self.bone_tracks.as_slice()
    }

    pub fn movable_bone_tracks(&self) -> (r: &[MmdMovableBoneAnimationTrack])
        ensures
            r@ == self.spec_movable_bone_tracks(),
    {
        self.movable_bone_tracks.as_slice()
    }

    pub fn morph_tracks(&self) -> (r: &[MmdMorphAnimationTrack])
        ensures
            r@ == self.spec_morph_tracks(),
    {
        self.morph_tracks.as_slice()
    }

    pub fn property_track(&self) -> (r: &MmdPropertyAnimationTrack)
        ensures
            *r == *self.spec_property_track(),
    {
        &self.property_track
    }
}

} // verus!
