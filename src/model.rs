use vstd::prelude::*;
use crate::bone::{
    bones_wf, closed_under_children, is_acyclic, is_parent_of, parent_links, root_distance,
    MmdRuntimeBone,
    MmdRuntimeBoneArena,
};
use crate::morph::{
    indices_where, morphs_acyclic, slots_cleared_only, MmdMorphController, MorphMetadata, MorphUpdate,
};
use crate::order::{is_evaluation_order, sorted_bone_order};

verus! {

/// Inherited partial transform of a bone, as read from model metadata.
pub struct AppendTransformRecord {
    pub target: i32,
    pub affect_rotation: bool,
    pub affect_position: bool,
    pub is_local: bool,
}

/// Inverse-kinematics setup of a bone, as read from model metadata.
pub struct IkRecord {
    pub target: i32,
    pub iteration_count: u32,
    /// The bone of each chain link.
    pub links: Vec<i32>,
}

/// One bone of model metadata. A parent index of -1 marks a root.
pub struct BoneRecord {
    pub parent_bone_index: i32,
    pub transform_order: i32,
    pub transform_after_physics: bool,
    pub append_transform: Option<AppendTransformRecord>,
    pub ik: Option<IkRecord>,
}

/// Why model metadata was rejected; each names the offending bone record.
#[derive(Debug, Clone, Copy, PartialEq, Eq, Structural)]
pub enum BuildError {
    ParentOutOfRange { bone: usize },
    AppendTargetOutOfRange { bone: usize },
    IkTargetOutOfRange { bone: usize },
    IkLinkOutOfRange { bone: usize, link: usize },
    /// The bone does not reach a root by parent links.
    CyclicHierarchy { bone: usize },
}

pub open spec fn index_in_range(i: i32, n: int) -> bool {
    0 <= i < n
}

/// Position of the first chain link at or after `k` whose bone is out of range.
pub open spec fn first_bad_link(links: Seq<i32>, n: int, k: int) -> Option<int>
    decreases links.len() - k,
{
    if k >= links.len() || k < 0 {
        None
    } else if !index_in_range(links[k], n) {
        Some(k)
    } else {
        first_bad_link(links, n, k + 1)
    }
}

/// The first thing wrong with record `rec` of bone `bone` among `n` bones,
/// checked field by field: parent, append target, IK target, IK links.
pub open spec fn record_error(rec: BoneRecord, bone: usize, n: int) -> Option<BuildError> {
    if rec.parent_bone_index != -1 && !index_in_range(rec.parent_bone_index, n) {
        Some(BuildError::ParentOutOfRange { bone })
    } else if rec.append_transform is Some && !index_in_range(rec.append_transform.unwrap().target, n) {
        Some(BuildError::AppendTargetOutOfRange { bone })
    } else if rec.ik is Some && !index_in_range(rec.ik.unwrap().target, n) {
        Some(BuildError::IkTargetOutOfRange { bone })
    } else if rec.ik is Some && first_bad_link(rec.ik.unwrap().links@, n, 0) is Some {
        Some(BuildError::IkLinkOutOfRange {
            bone,
            link: first_bad_link(rec.ik.unwrap().links@, n, 0).unwrap() as usize,
        })
    } else {
        None
    }
}

/// The parent link that a record describes.
pub open spec fn record_parent(rec: BoneRecord) -> Option<usize> {
    if rec.parent_bone_index == -1 {
        None
    } else {
        Some(rec.parent_bone_index as usize)
    }
}

pub open spec fn record_parents(records: Seq<BoneRecord>) -> Seq<Option<usize>> {
    records.map_values(|r: BoneRecord| record_parent(r))
}

/// Checks one record against a bone count.
fn check_record(rec: &BoneRecord, bone: usize, n: usize) -> (r: Option<BuildError>)
    requires
        n <= i32::MAX,
    ensures
        r == record_error(*rec, bone, n as int),
{
    let n32 = n as i32;
    if rec.parent_bone_index != -1 && !(0 <= rec.parent_bone_index && rec.parent_bone_index < n32) {
        return Some(BuildError::ParentOutOfRange { bone });
    }
    if let Some(append) = &rec.append_transform {
        if !(0 <= append.target && append.target < n32) {
            return Some(BuildError::AppendTargetOutOfRange { bone });
        }
    }
    if let Some(ik) = &rec.ik {
        if !(0 <= ik.target && ik.target < n32) {
            return Some(BuildError::IkTargetOutOfRange { bone });
        }
        let mut k: usize = 0;
        while k < ik.links.len()
            invariant
                k <= ik.links@.len(),
                n32 == n,
                record_error(*rec, bone, n as int) == match first_bad_link(ik.links@, n as int, 0) {
                    Some(l) => Some(BuildError::IkLinkOutOfRange { bone, link: l as usize }),
                    None => None::<BuildError>,
                },
                first_bad_link(ik.links@, n as int, 0) == first_bad_link(ik.links@, n as int, k as int),
            decreases ik.links.len() - k,
        {
            let link = ik.links[k];
            if !(0 <= link && link < n32) {
                assert(first_bad_link(ik.links@, n as int, k as int) == Some(k as int));
                return Some(BuildError::IkLinkOutOfRange { bone, link: k });
            }
            k = k + 1;
        }
    }
    None
}

/// Decides whether bone `b` reaches a root within `parents.len()` links.
fn reaches_root(parents: &Vec<Option<usize>>, b: usize) -> (r: Option<usize>)
    requires
        b < parents.len(),
        forall|i: int| 0 <= i < parents.len() && (#[trigger] parents@[i]) is Some ==> parents@[i].unwrap() < parents.len(),
    ensures
        r == match root_distance(parents@, b as int, parents@.len()) {
            Some(d) => Some(d as usize),
            None => None::<usize>,
        },
{
    let n = parents.len();
    let mut cur: usize = b;
    let mut fuel: usize = n;
    let mut steps: usize = 0;
    loop
        invariant
            n == parents.len(),
            cur < n,
            fuel <= n,
            steps + fuel == n,
            forall|i: int| 0 <= i < parents.len() && (#[trigger] parents@[i]) is Some ==> parents@[i].unwrap() < parents.len(),
            root_distance(parents@, b as int, n as nat) == match root_distance(parents@, cur as int, fuel as nat) {
                Some(d) => Some((d + steps) as nat),
                None => None::<nat>,
            },
        decreases fuel,
    {
        match parents[cur] {
            None => {
                return Some(steps);
            },
            Some(p) => {
                if fuel == 0 {
                    return None;
                }
                cur = p;
                fuel = fuel - 1;
                steps = steps + 1;
            },
        }
    }
}

/// Inherits part of a target bone's animated transform.
pub struct AppendTransformSolver {
    pub target_bone: usize,
    pub affect_rotation: bool,
    pub affect_position: bool,
    pub is_local: bool,
}

/// Bends a chain of bones so that the chain's end reaches a target bone.
pub struct IkSolver {
    pub ik_bone: usize,
    pub target_bone: usize,
    pub iteration_count: u32,
    pub chain: Vec<usize>,
}

/// Number of the first `i` records that carry an append transform.
pub open spec fn append_count(records: Seq<BoneRecord>, i: int) -> nat
    decreases i,
{
    if i <= 0 {
        0
    } else {
        append_count(records, i - 1) + if records[i - 1].append_transform is Some { 1nat } else { 0nat }
    }
}

/// Number of the first `i` records that carry an IK setup.
pub open spec fn ik_count(records: Seq<BoneRecord>, i: int) -> nat
    decreases i,
{
    if i <= 0 {
        0
    } else {
        ik_count(records, i - 1) + if records[i - 1].ik is Some { 1nat } else { 0nat }
    }
}

/// Every record is free of out-of-range references.
pub open spec fn records_valid(records: Seq<BoneRecord>) -> bool {
    forall|i: int| 0 <= i < records.len() ==> (#[trigger] record_error(records[i], i as usize, records.len() as int)) is None
}

/// Bone `i` and its solvers are as record `i` describes.
pub open spec fn bone_matches_record(
    bones: Seq<MmdRuntimeBone>,
    appends: Seq<AppendTransformSolver>,
    iks: Seq<IkSolver>,
    records: Seq<BoneRecord>,
    i: int,
) -> bool {
    let rec = records[i];
    let bone = bones[i];
    &&& bone.parent_bone == record_parent(rec)
    &&& bone.transform_order == rec.transform_order
    &&& bone.transform_after_physics == rec.transform_after_physics
    &&& match rec.append_transform {
        None => bone.append_transform_solver is None,
        Some(a) => {
            &&& bone.append_transform_solver == Some(append_count(records, i) as usize)
            &&& appends[append_count(records, i) as int].target_bone == a.target as usize
            &&& appends[append_count(records, i) as int].affect_rotation == a.affect_rotation
            &&& appends[append_count(records, i) as int].affect_position == a.affect_position
            &&& appends[append_count(records, i) as int].is_local == a.is_local
        },
    }
    &&& match rec.ik {
        None => bone.ik_solver is None,
        Some(ik) => {
            &&& bone.ik_solver == Some(ik_count(records, i) as usize)
            &&& iks[ik_count(records, i) as int].ik_bone == i
            &&& iks[ik_count(records, i) as int].target_bone == ik.target as usize
            &&& iks[ik_count(records, i) as int].iteration_count == ik.iteration_count
            &&& iks[ik_count(records, i) as int].chain@ == ik.links@.map_values(|l: i32| l as usize)
        },
    }
}

/// The first record with an out-of-range reference, if any.
fn first_record_error(records: &Vec<BoneRecord>) -> (r: Option<BuildError>)
    requires
        records.len() <= i32::MAX,
    ensures
        r is None <==> records_valid(records@),
        r is Some ==> exists|i: int| 0 <= i < records.len()
            && (forall|j: int| 0 <= j < i ==> (#[trigger] record_error(records@[j], j as usize, records.len() as int)) is None)
            && r == record_error(records@[i], i as usize, records.len() as int),
{
    let n = records.len();
    let mut i: usize = 0;
    while i < n
        invariant
            n == records.len(),
            n <= i32::MAX,
            i <= n,
            forall|j: int| 0 <= j < i ==> (#[trigger] record_error(records@[j], j as usize, n as int)) is None,
        decreases n - i,
    {
        let e = check_record(&records[i], i, n);
        if e.is_some() {
            assert(record_error(records@[i as int], (i as int) as usize, records@.len() as int) is Some);
            return e;
        }
        i = i + 1;
    }
    None
}

/// The parent link of each record.
fn parents_of_records(records: &Vec<BoneRecord>) -> (r: Vec<Option<usize>>)
    requires
        records_valid(records@),
        records.len() <= i32::MAX,
    ensures
        r@ == record_parents(records@),
        forall|i: int| 0 <= i < r.len() && (#[trigger] r@[i]) is Some ==> r@[i].unwrap() < r.len(),
{
    let n = records.len();
    let mut r: Vec<Option<usize>> = Vec::with_capacity(n);
    let mut i: usize = 0;
    while i < n
        invariant
            n == records.len(),
            records_valid(records@),
            i <= n,
            r@.len() == i,
            forall|j: int| 0 <= j < i ==> r@[j] == #[trigger] record_parent(records@[j]),
            forall|j: int| 0 <= j < i && (#[trigger] r@[j]) is Some ==> r@[j].unwrap() < n,
        decreases n - i,
    {
        assert(record_error(records@[i as int], (i as int) as usize, records@.len() as int) is None);
        let p = records[i].parent_bone_index;
        if p == -1 {
            r.push(None);
        } else {
            r.push(Some(p as usize));
        }
        i = i + 1;
    }
    assert(r@ =~= record_parents(records@));
    r
}

/// The first bone that does not reach a root, if any.
fn first_cyclic_bone(parents: &Vec<Option<usize>>) -> (r: Option<usize>)
    requires
        forall|i: int| 0 <= i < parents.len() && (#[trigger] parents@[i]) is Some ==> parents@[i].unwrap() < parents.len(),
    ensures
        r is None <==> is_acyclic(parents@),
        r is Some ==> r.unwrap() < parents.len()
            && root_distance(parents@, r.unwrap() as int, parents.len() as nat) is None
            && forall|j: int| 0 <= j < r.unwrap() ==> (#[trigger] root_distance(parents@, j, parents.len() as nat)) is Some,
{
    let n = parents.len();
    let mut b: usize = 0;
    while b < n
        invariant
            n == parents.len(),
            b <= n,
            forall|i: int| 0 <= i < parents.len() && (#[trigger] parents@[i]) is Some ==> parents@[i].unwrap() < parents.len(),
            forall|j: int| 0 <= j < b ==> (#[trigger] root_distance(parents@, j, n as nat)) is Some,
        decreases n - b,
    {
        if reaches_root(parents, b).is_none() {
            return Some(b);
        }
        b = b + 1;
    }
    None
}

/// Number of bones on the longest root-to-leaf chain: the deepest a
/// traversal stack of one bone per level needs to be.
fn max_chain_length(parents: &Vec<Option<usize>>) -> (r: usize)
    requires
        parents.len() <= i32::MAX,
        is_acyclic(parents@),
        forall|i: int| 0 <= i < parents.len() && (#[trigger] parents@[i]) is Some ==> parents@[i].unwrap() < parents.len(),
    ensures
        forall|b: int| 0 <= b < parents.len() ==> #[trigger] root_distance(parents@, b, parents.len() as nat).unwrap() < r,
        parents.len() > 0 ==> exists|b: int| 0 <= b < parents.len()
            && #[trigger] root_distance(parents@, b, parents.len() as nat).unwrap() + 1 == r,
        parents.len() == 0 ==> r == 0,
{
    let n = parents.len();
    let mut r: usize = 0;
    let mut b: usize = 0;
    while b < n
        invariant
            n == parents.len(),
            b <= n,
            n <= i32::MAX,
            r <= n + 1,
            is_acyclic(parents@),
            forall|i: int| 0 <= i < parents.len() && (#[trigger] parents@[i]) is Some ==> parents@[i].unwrap() < parents.len(),
            forall|c: int| 0 <= c < b ==> #[trigger] root_distance(parents@, c, n as nat).unwrap() < r,
            b > 0 ==> exists|c: int| 0 <= c < b && #[trigger] root_distance(parents@, c, n as nat).unwrap() + 1 == r,
            b == 0 ==> r == 0,
        decreases n - b,
    {
        assert(root_distance(parents@, b as int, parents@.len()) is Some);
        let d = reaches_root(parents, b).unwrap();
        proof {
            lemma_root_distance_bound(parents@, b as int, n as nat);
        }
        if d + 1 > r {
            r = d + 1;
        }
        b = b + 1;
    }
    r
}

proof fn lemma_root_distance_bound(parents: Seq<Option<usize>>, b: int, fuel: nat)
    requires
        root_distance(parents, b, fuel) is Some,
    ensures
        root_distance(parents, b, fuel).unwrap() <= fuel,
    decreases fuel,
{
    if let Some(p) = parents[b] {
        lemma_root_distance_bound(parents, p as int, (fuel - 1) as nat);
    }
}

/// The bones whose parent is `p`, in increasing index order.
fn children_of(parents: &Vec<Option<usize>>, p: usize) -> (r: Vec<usize>)
    ensures
        forall|k: int| 0 <= k < r.len() ==> #[trigger] r@[k] < parents.len() && parents@[r@[k] as int] == Some(p),
        forall|c: int| 0 <= c < parents.len() && #[trigger] parents@[c] == Some(p) ==> r@.contains(c as usize),
        forall|j: int, k: int| 0 <= j < k < r.len() ==> #[trigger] r@[j] < #[trigger] r@[k],
{
    let n = parents.len();
    let mut r: Vec<usize> = Vec::new();
    let mut c: usize = 0;
    while c < n
        invariant
            n == parents.len(),
            c <= n,
            forall|k: int| 0 <= k < r.len() ==> #[trigger] r@[k] < c && parents@[r@[k] as int] == Some(p),
            forall|d: int| 0 <= d < c && #[trigger] parents@[d] == Some(p) ==> r@.contains(d as usize),
            forall|j: int, k: int| 0 <= j < k < r.len() ==> #[trigger] r@[j] < #[trigger] r@[k],
        decreases n - c,
    {
        if parents[c] == Some(p) {
            let ghost before = r@;
            r.push(c);
            proof {
                assert forall|d: int| 0 <= d <= c && #[trigger] parents@[d] == Some(p) implies r@.contains(d as usize) by {
                    if d < c {
                        assert(before.contains(d as usize));
                        let k = choose|k: int| 0 <= k < before.len() && before[k] == d as usize;
                        assert(r@[k] == d as usize);
                    } else {
                        assert(r@[r.len() - 1] == d as usize);
                    }
                }
            }
        }
        c = c + 1;
    }
    r
}

/// The bones and solvers that valid, acyclic records describe.
fn build_bones(records: &Vec<BoneRecord>, parents: &Vec<Option<usize>>) -> (r: (
    Vec<MmdRuntimeBone>,
    Vec<AppendTransformSolver>,
    Vec<IkSolver>,
))
    requires
        records_valid(records@),
        records.len() <= i32::MAX,
        parents@ == record_parents(records@),
        is_acyclic(parents@),
        forall|i: int| 0 <= i < parents.len() && (#[trigger] parents@[i]) is Some ==> parents@[i].unwrap() < parents.len(),
    ensures
        r.0@.len() == records.len(),
        bones_wf(r.0@),
        r.1@.len() == append_count(records@, records.len() as int),
        r.2@.len() == ik_count(records@, records.len() as int),
        forall|i: int| 0 <= i < records.len() ==> #[trigger] bone_matches_record(r.0@, r.1@, r.2@, records@, i),
{
    let n = records.len();
    let mut bones: Vec<MmdRuntimeBone> = Vec::with_capacity(n);
    let mut appends: Vec<AppendTransformSolver> = Vec::new();
    let mut iks: Vec<IkSolver> = Vec::new();
    let mut i: usize = 0;
    while i < n
        invariant
            n == records.len(),
            n == parents.len(),
            n <= i32::MAX,
            records_valid(records@),
            parents@ == record_parents(records@),
            i <= n,
            bones@.len() == i,
            appends@.len() == append_count(records@, i as int),
            iks@.len() == ik_count(records@, i as int),
            forall|j: int| 0 <= j < i ==> #[trigger] bone_matches_record(bones@, appends@, iks@, records@, j),
            forall|j: int| 0 <= j < i ==> (#[trigger] bones@[j]).index == j,
            forall|j: int, k: int| 0 <= j < i && 0 <= k < bones@[j].child_bones@.len()
                ==> #[trigger] bones@[j].child_bones@[k] < n && parents@[bones@[j].child_bones@[k] as int] == Some(j as usize),
            forall|j: int, c: int| 0 <= j < i && 0 <= c < n && #[trigger] parents@[c] == Some(j as usize)
                ==> #[trigger] bones@[j].child_bones@.contains(c as usize),
            forall|j: int, k: int, l: int| 0 <= j < i && 0 <= k < l < bones@[j].child_bones@.len()
                ==> #[trigger] bones@[j].child_bones@[k] < #[trigger] bones@[j].child_bones@[l],
        decreases n - i,
    {
        let rec = &records[i];
        assert(record_error(records@[i as int], (i as int) as usize, records@.len() as int) is None);
        assert(parents@[i as int] == record_parent(records@[i as int]));
        let mut bone = MmdRuntimeBone::new(i);
        bone.parent_bone = parents[i];
        bone.child_bones = children_of(parents, i);
        bone.transform_order = rec.transform_order;
        bone.transform_after_physics = rec.transform_after_physics;
        let ghost appends_before = appends@;
        let ghost iks_before = iks@;
        if let Some(append) = &rec.append_transform {
            bone.append_transform_solver = Some(appends.len());
            appends.push(AppendTransformSolver {
                target_bone: append.target as usize,
                affect_rotation: append.affect_rotation,
                affect_position: append.affect_position,
                is_local: append.is_local,
            });
        }
        if let Some(ik) = &rec.ik {
            let mut chain: Vec<usize> = Vec::with_capacity(ik.links.len());
            let mut k: usize = 0;
            while k < ik.links.len()
                invariant
                    k <= ik.links@.len(),
                    chain@.len() == k,
                    forall|m: int| 0 <= m < k ==> chain@[m] == #[trigger] ik.links@[m] as usize,
                decreases ik.links.len() - k,
            {
                chain.push(ik.links[k] as usize);
                k = k + 1;
            }
            assert(chain@ =~= ik.links@.map_values(|l: i32| l as usize));
            bone.ik_solver = Some(iks.len());
            iks.push(IkSolver {
                ik_bone: i,
                target_bone: ik.target as usize,
                iteration_count: ik.iteration_count,
                chain,
            });
        }
        let ghost bones_before = bones@;
        bones.push(bone);
        proof {
            assert forall|j: int| 0 <= j <= i implies #[trigger] bone_matches_record(bones@, appends@, iks@, records@, j) by {
                if j < i {
                    assert(bone_matches_record(bones_before, appends_before, iks_before, records@, j));
                    assert(bones@[j] == bones_before[j]);
                    if records@[j].append_transform is Some {
                        assert(append_count(records@, j) < append_count(records@, j + 1));
                        lemma_count_monotone(records@, j + 1, i as int);
                        assert(appends@[append_count(records@, j) as int] == appends_before[append_count(records@, j) as int]);
                    }
                    if records@[j].ik is Some {
                        assert(ik_count(records@, j) < ik_count(records@, j + 1));
                        lemma_count_monotone(records@, j + 1, i as int);
                        assert(iks@[ik_count(records@, j) as int] == iks_before[ik_count(records@, j) as int]);
                    }
                }
            }
            assert forall|j: int, c: int| 0 <= j <= i && 0 <= c < n && #[trigger] parents@[c] == Some(j as usize)
                implies #[trigger] bones@[j].child_bones@.contains(c as usize) by {
                if j < i {
                    assert(bones@[j] == bones_before[j]);
                }
            }
        }
        i = i + 1;
    }
    proof {
        assert forall|j: int| 0 <= j < n implies #[trigger] parent_links(bones@)[j] == parents@[j] by {
            assert(bone_matches_record(bones@, appends@, iks@, records@, j));
            assert(parents@[j] == record_parent(records@[j]));
        }
        assert(parent_links(bones@) =~= parents@);
        assert forall|p: int, c: int| 0 <= p < bones@.len() && #[trigger] is_parent_of(bones@, p, c)
            implies bones@[p].child_bones@.contains(c as usize) by {
            assert(parents@[c] == Some(p as usize));
        }
        assert forall|b: int| 0 <= b < bones@.len() && (#[trigger] bones@[b]).parent_bone is Some
            implies bones@[b].parent_bone.unwrap() < bones@.len() by {
            assert(parents@[b] == bones@[b].parent_bone);
        }
        assert forall|p: int, j: int| 0 <= p < bones@.len() && 0 <= j < bones@[p].child_bones@.len()
            implies is_parent_of(bones@, p, #[trigger] bones@[p].child_bones@[j] as int) by {
            let c = bones@[p].child_bones@[j] as int;
            assert(parents@[c] == Some(p as usize));
            assert(parents@[c] == bones@[c].parent_bone);
        }
    }
    (bones, appends, iks)
}

proof fn lemma_count_monotone(records: Seq<BoneRecord>, a: int, b: int)
    requires
        0 <= a <= b,
    ensures
        append_count(records, a) <= append_count(records, b),
        ik_count(records, a) <= ik_count(records, b),
    decreases b - a,
{
    if a < b {
        lemma_count_monotone(records, a, b - 1);
    }
}

/// One unit of work of a stage update, performed in sequence by the caller.
#[derive(Debug, Clone, Copy, PartialEq, Eq, Structural)]
pub enum UpdateStep {
    /// Recompute the bone's local transform.
    LocalMatrix { bone: usize },
    /// Recompute world transforms from this bone down its subtree.
    WorldMatrix { bone: usize },
    /// Recompute the append-transform solver's offset for the bone.
    AppendTransform { solver: usize, bone: usize },
    /// Run the IK solver of the bone.
    Ik { solver: usize, bone: usize },
}

/// The bones of `s` that belong to `stage`.
pub open spec fn in_stage(bones: Seq<MmdRuntimeBone>, s: Seq<usize>, stage: bool) -> Seq<usize>
    decreases s.len(),
{
    if s.len() == 0 {
        Seq::empty()
    } else if bones[s.last() as int].transform_after_physics == stage {
        in_stage(bones, s.drop_last(), stage).push(s.last())
    } else {
        in_stage(bones, s.drop_last(), stage)
    }
}

pub open spec fn local_steps(s: Seq<usize>) -> Seq<UpdateStep> {
    s.map_values(|b: usize| UpdateStep::LocalMatrix { bone: b })
}

pub open spec fn world_steps(s: Seq<usize>) -> Seq<UpdateStep> {
    s.map_values(|b: usize| UpdateStep::WorldMatrix { bone: b })
}

/// The append-transform and IK corrections of bone `b`, each followed by a
/// propagation from `b`; an IK solver runs only when it is enabled.
pub open spec fn correction_steps_of(bones: Seq<MmdRuntimeBone>, ik_enabled: Seq<bool>, b: usize) -> Seq<UpdateStep> {
    let bone = bones[b as int];
    (match bone.append_transform_solver {
        Some(a) => seq![
            UpdateStep::AppendTransform { solver: a, bone: b },
            UpdateStep::LocalMatrix { bone: b },
            UpdateStep::WorldMatrix { bone: b },
        ],
        None => Seq::empty(),
    }) + (match bone.ik_solver {
        Some(k) => if ik_enabled[k as int] {
            seq![UpdateStep::Ik { solver: k, bone: b }, UpdateStep::WorldMatrix { bone: b }]
        } else {
            Seq::empty()
        },
        None => Seq::empty(),
    })
}

pub open spec fn correction_steps(bones: Seq<MmdRuntimeBone>, ik_enabled: Seq<bool>, s: Seq<usize>) -> Seq<UpdateStep>
    decreases s.len(),
{
    if s.len() == 0 {
        Seq::empty()
    } else {
        correction_steps(bones, ik_enabled, s.drop_last()) + correction_steps_of(bones, ik_enabled, s.last())
    }
}

/// One stage update: local transforms in evaluation order, propagation from
/// the roots, the corrections of each bone in evaluation order, and a final
/// propagation from the roots; all restricted to the bones of `stage`.
pub open spec fn stage_schedule(
    bones: Seq<MmdRuntimeBone>,
    sorted: Seq<usize>,
    roots: Seq<usize>,
    stage: bool,
    ik_enabled: Seq<bool>,
) -> Seq<UpdateStep> {
    let staged = in_stage(bones, sorted, stage);
    let staged_roots = in_stage(bones, roots, stage);
    local_steps(staged) + world_steps(staged_roots) + correction_steps(bones, ik_enabled, staged)
        + world_steps(staged_roots)
}

/// The root bones of `sorted`, in the same order.
pub open spec fn roots_in(bones: Seq<MmdRuntimeBone>, sorted: Seq<usize>) -> Seq<usize>
    decreases sorted.len(),
{
    if sorted.len() == 0 {
        Seq::empty()
    } else if bones[sorted.last() as int].parent_bone is None {
        roots_in(bones, sorted.drop_last()).push(sorted.last())
    } else {
        roots_in(bones, sorted.drop_last())
    }
}

/// A skeleton with its solvers, morphs and evaluation order.
pub struct MmdModel<M> {
    bone_arena: MmdRuntimeBoneArena<M>,
    append_transform_solvers: Vec<AppendTransformSolver>,
    ik_solvers: Vec<IkSolver>,
    morph_controller: MmdMorphController,
    sorted_runtime_bones: Vec<usize>,
    sorted_runtime_root_bones: Vec<usize>,
}

impl<M: Copy> MmdModel<M> {
    pub closed spec fn arena(&self) -> MmdRuntimeBoneArena<M> {
        self.bone_arena
    }

    pub closed spec fn appends(&self) -> Seq<AppendTransformSolver> {
        self.append_transform_solvers@
    }

    pub closed spec fn iks(&self) -> Seq<IkSolver> {
        self.ik_solvers@
    }

    pub closed spec fn morph_state(&self) -> MmdMorphController {
        self.morph_controller
    }

    pub closed spec fn sorted(&self) -> Seq<usize> {
        self.sorted_runtime_bones@
    }

    pub closed spec fn roots(&self) -> Seq<usize> {
        self.sorted_runtime_root_bones@
    }

    pub open spec fn wf(&self) -> bool {
        &&& self.arena().wf()
        &&& is_evaluation_order(self.arena().bones().map_values(|b: MmdRuntimeBone| b.transform_order), self.sorted())
        &&& self.roots() == roots_in(self.arena().bones(), self.sorted())
        &&& forall|b: int| 0 <= b < self.arena().bones().len() && (#[trigger] self.arena().bones()[b]).ik_solver is Some
            ==> self.arena().bones()[b].ik_solver.unwrap() < self.iks().len()
        &&& forall|b: int| 0 <= b < self.arena().bones().len() && (#[trigger] self.arena().bones()[b]).append_transform_solver is Some
            ==> self.arena().bones()[b].append_transform_solver.unwrap() < self.appends().len()
    }
    /// Builds the model from bone records and morphs. Fails on the first
    /// record, field by field, that references a bone out of range; then on
    /// the first bone that does not reach a root. All transforms start as
    /// `initial`.
    pub fn new(records: &Vec<BoneRecord>, morphs: Vec<MorphMetadata>, initial: M) -> (r: Result<Self, BuildError>)
        requires
            records.len() <= i32::MAX,
            morphs.len() <= i32::MAX,
        ensures
            r is Ok <==> records_valid(records@) && is_acyclic(record_parents(records@)),
            r is Err && !records_valid(records@) ==> exists|i: int| 0 <= i < records.len()
                && (forall|j: int| 0 <= j < i ==> (#[trigger] record_error(records@[j], j as usize, records.len() as int)) is None)
                && r == Err::<Self, BuildError>(record_error(records@[i], i as usize, records.len() as int).unwrap()),
            r is Err && records_valid(records@) ==> exists|b: int| 0 <= b < records.len()
                && root_distance(record_parents(records@), b, records.len() as nat) is None
                && (forall|j: int| 0 <= j < b ==> (#[trigger] root_distance(record_parents(records@), j, records.len() as nat)) is Some)
                && r == Err::<Self, BuildError>(BuildError::CyclicHierarchy { bone: b as usize }),
            r matches Ok(m) ==> {
                &&& m.wf()
                &&& m.arena().bones().len() == records.len()
                &&& forall|i: int| 0 <= i < records.len() ==> #[trigger] bone_matches_record(m.arena().bones(), m.appends(), m.iks(), records@, i)
                &&& m.appends().len() == append_count(records@, records.len() as int)
                &&& m.iks().len() == ik_count(records@, records.len() as int)
                &&& forall|b: int| 0 <= b < records.len() ==> #[trigger] m.arena().locals()[b] == initial && m.arena().worlds()[b] == initial
                &&& slots_cleared_only(morphs@, m.morph_state().spec_morphs())
                &&& morphs_acyclic(m.morph_state().spec_morphs())
                &&& m.morph_state().spec_active_morphs() == Seq::new(morphs@.len(), |i: int| false)
            },
    {
        if let Some(e) = first_record_error(records) {
            return Err(e);
        }
        let parents = parents_of_records(records);
        if let Some(b) = first_cyclic_bone(&parents) {
            return Err(BuildError::CyclicHierarchy { bone: b });
        }
        let (bones, appends, iks) = build_bones(records, &parents);
        let n = bones.len();
        let mut orders: Vec<i32> = Vec::with_capacity(n);
        let mut i: usize = 0;
        while i < n
            invariant
                n == bones@.len(),
                i <= n,
                orders@ == bones@.subrange(0, i as int).map_values(|b: MmdRuntimeBone| b.transform_order),
            decreases n - i,
        {
            orders.push(bones[i].transform_order);
            i = i + 1;
            assert(orders@ =~= bones@.subrange(0, i as int).map_values(|b: MmdRuntimeBone| b.transform_order));
        }
        assert(bones@.subrange(0, n as int) =~= bones@);
        let sorted = sorted_bone_order(&orders);
        let mut roots: Vec<usize> = Vec::new();
        let mut k: usize = 0;
        while k < n
            invariant
                n == bones@.len(),
                sorted@.len() == n,
                forall|j: int| 0 <= j < n ==> sorted@[j] < n,
                k <= n,
                roots@ == roots_in(bones@, sorted@.subrange(0, k as int)),
            decreases n - k,
        {
            proof {
                assert(sorted@.subrange(0, k + 1).drop_last() =~= sorted@.subrange(0, k as int));
            }
            let b = sorted[k];
            if bones[b].parent_bone.is_none() {
                roots.push(b);
            }
            k = k + 1;
        }
        assert(sorted@.subrange(0, n as int) =~= sorted@);
        proof {
            assert forall|b: int| 0 <= b < n && (#[trigger] bones@[b]).ik_solver is Some
                implies bones@[b].ik_solver.unwrap() < iks@.len() by {
                assert(bone_matches_record(bones@, appends@, iks@, records@, b));
                lemma_count_monotone(records@, b + 1, n as int);
            }
            assert forall|b: int| 0 <= b < n && (#[trigger] bones@[b]).append_transform_solver is Some
                implies bones@[b].append_transform_solver.unwrap() < appends@.len() by {
                assert(bone_matches_record(bones@, appends@, iks@, records@, b));
                lemma_count_monotone(records@, b + 1, n as int);
            }
        }
        let bone_stack: Vec<usize> = Vec::with_capacity(max_chain_length(&parents));
        let bone_arena = MmdRuntimeBoneArena::new(bones, bone_stack, initial);
        let morph_controller = MmdMorphController::new(morphs);
        Ok(MmdModel {
            bone_arena,
            append_transform_solvers: appends,
            ik_solvers: iks,
            morph_controller,
            sorted_runtime_bones: sorted,
            sorted_runtime_root_bones: roots,
        })
    }
    /// The bones of `s` that belong to `stage`, in order.
    fn stage_bones(&self, s: &Vec<usize>, stage: bool) -> (r: Vec<usize>)
        requires
            self.wf(),
            forall|j: int| 0 <= j < s@.len() ==> #[trigger] s@[j] < self.arena().bones().len(),
        ensures
            r@ == in_stage(self.arena().bones(), s@, stage),
            forall|j: int| 0 <= j < r@.len() ==> #[trigger] r@[j] < self.arena().bones().len(),
    {
        let bones = self.bone_arena.bone_arena();
        let mut r: Vec<usize> = Vec::new();
        let mut i: usize = 0;
        while i < s.len()
            invariant
                bones@ == self.arena().bones(),
                forall|j: int| 0 <= j < s@.len() ==> #[trigger] s@[j] < bones@.len(),
                i <= s@.len(),
                r@ == in_stage(bones@, s@.subrange(0, i as int), stage),
                forall|j: int| 0 <= j < r@.len() ==> #[trigger] r@[j] < bones@.len(),
            decreases s.len() - i,
        {
            proof {
                assert(s@.subrange(0, i + 1).drop_last() =~= s@.subrange(0, i as int));
            }
            let b = s[i];
            if bones[b].transform_after_physics == stage {
                r.push(b);
            }
            i = i + 1;
        }
        assert(s@.subrange(0, s@.len() as int) =~= s@);
        r
    }

    /// The work of one stage update, in order: `after_physics_stage` selects
    /// the bones evaluated after physics, `ik_enabled` holds this frame's
    /// enable flag of each IK solver.
    pub fn update(&self, after_physics_stage: bool, ik_enabled: &Vec<bool>) -> (r: Vec<UpdateStep>)
        requires
            self.wf(),
            ik_enabled@.len() == self.iks().len(),
        ensures
            r@ == stage_schedule(self.arena().bones(), self.sorted(), self.roots(), after_physics_stage, ik_enabled@),
    {
        proof {
            lemma_roots_in_range(self.arena().bones(), self.sorted());
        }
        let staged = self.stage_bones(&self.sorted_runtime_bones, after_physics_stage);
        let staged_roots = self.stage_bones(&self.sorted_runtime_root_bones, after_physics_stage);
        let ghost bones = self.arena().bones();
        let mut r: Vec<UpdateStep> = Vec::new();
        let mut i: usize = 0;
        while i < staged.len()
            invariant
                i <= staged@.len(),
                r@ == local_steps(staged@.subrange(0, i as int)),
            decreases staged.len() - i,
        {
            r.push(UpdateStep::LocalMatrix { bone: staged[i] });
            i = i + 1;
            assert(r@ =~= local_steps(staged@.subrange(0, i as int)));
        }
        assert(staged@.subrange(0, staged@.len() as int) =~= staged@);
        let ghost part1 = r@;
        let mut i: usize = 0;
        while i < staged_roots.len()
            invariant
                i <= staged_roots@.len(),
                r@ == part1 + world_steps(staged_roots@.subrange(0, i as int)),
            decreases staged_roots.len() - i,
        {
            r.push(UpdateStep::WorldMatrix { bone: staged_roots[i] });
            i = i + 1;
            assert(r@ =~= part1 + world_steps(staged_roots@.subrange(0, i as int)));
        }
        assert(staged_roots@.subrange(0, staged_roots@.len() as int) =~= staged_roots@);
        let ghost part2 = r@;
        let bone_list = self.bone_arena.bone_arena();
        let mut i: usize = 0;
        while i < staged.len()
            invariant
                self.wf(),
                bone_list@ == bones,
                bones == self.arena().bones(),
                ik_enabled@.len() == self.iks().len(),
                forall|j: int| 0 <= j < staged@.len() ==> #[trigger] staged@[j] < bones.len(),
                i <= staged@.len(),
                r@ == part2 + correction_steps(bones, ik_enabled@, staged@.subrange(0, i as int)),
            decreases staged.len() - i,
        {
            proof {
                assert(staged@.subrange(0, i + 1).drop_last() =~= staged@.subrange(0, i as int));
            }
            let b = staged[i];
            let ghost before = r@;
            if let Some(a) = bone_list[b].append_transform_solver {
                r.push(UpdateStep::AppendTransform { solver: a, bone: b });
                r.push(UpdateStep::LocalMatrix { bone: b });
                r.push(UpdateStep::WorldMatrix { bone: b });
            }
            if let Some(k) = bone_list[b].ik_solver {
                if ik_enabled[k] {
                    r.push(UpdateStep::Ik { solver: k, bone: b });
                    r.push(UpdateStep::WorldMatrix { bone: b });
                }
            }
            assert(r@ =~= before + correction_steps_of(bones, ik_enabled@, b));
            i = i + 1;
        }
        let ghost part3 = r@;
        let mut i: usize = 0;
        while i < staged_roots.len()
            invariant
                i <= staged_roots@.len(),
                r@ == part3 + world_steps(staged_roots@.subrange(0, i as int)),
            decreases staged_roots.len() - i,
        {
            r.push(UpdateStep::WorldMatrix { bone: staged_roots[i] });
            i = i + 1;
            assert(r@ =~= part3 + world_steps(staged_roots@.subrange(0, i as int)));
        }
        assert(staged@.subrange(0, staged@.len() as int) =~= staged@);
        assert(r@ =~= stage_schedule(bones, self.sorted(), self.roots(), after_physics_stage, ik_enabled@));
        r
    }
    /// Starts a frame before physics: the morph update for this frame's
    /// non-zero weights, then the work of the stage of bones evaluated
    /// before physics.
    pub fn before_physics(&mut self, weight_nonzero: &Vec<bool>, ik_enabled: &Vec<bool>) -> (r: (
        MorphUpdate,
        Vec<UpdateStep>,
    ))
        requires
            old(self).wf(),
            weight_nonzero@.len() == old(self).morph_state().spec_morphs().len(),
            ik_enabled@.len() == old(self).iks().len(),
        ensures
            final(self).wf(),
            final(self).arena() == old(self).arena(),
            final(self).sorted() == old(self).sorted(),
            final(self).roots() == old(self).roots(),
            final(self).appends() == old(self).appends(),
            final(self).iks() == old(self).iks(),
            final(self).morph_state().spec_morphs() == old(self).morph_state().spec_morphs(),
            final(self).morph_state().spec_active_morphs() == weight_nonzero@,
            r.0.resets@ == indices_where(old(self).morph_state().spec_active_morphs()),
            r.0.applies@ == indices_where(weight_nonzero@),
            r.1@ == stage_schedule(old(self).arena().bones(), old(self).sorted(), old(self).roots(), false, ik_enabled@),
    {
        let morph_update = self.morph_controller.update(weight_nonzero);
        let steps = self.update(false, ik_enabled);
        (morph_update, steps)
    }

    /// The work of the stage of bones evaluated after physics.
    pub fn after_physics(&self, ik_enabled: &Vec<bool>) -> (r: Vec<UpdateStep>)
        requires
            self.wf(),
            ik_enabled@.len() == self.iks().len(),
        ensures
            r@ == stage_schedule(self.arena().bones(), self.sorted(), self.roots(), true, ik_enabled@),
    {
        self.update(true, ik_enabled)
    }

    /// Local-transform work for every bone in evaluation order, whatever its
    /// stage.
    pub fn update_local_matrices(&self) -> (r: Vec<UpdateStep>)
        requires
            self.wf(),
        ensures
            r@ == local_steps(self.sorted()),
    {
        let mut r: Vec<UpdateStep> = Vec::new();
        let mut i: usize = 0;
        while i < self.sorted_runtime_bones.len()
            invariant
                i <= self.sorted().len(),
                r@ == local_steps(self.sorted().subrange(0, i as int)),
            decreases self.sorted().len() - i,
        {
            r.push(UpdateStep::LocalMatrix { bone: self.sorted_runtime_bones[i] });
            i = i + 1;
            assert(r@ =~= local_steps(self.sorted().subrange(0, i as int)));
        }
        assert(self.sorted().subrange(0, self.sorted().len() as int) =~= self.sorted());
        r
    }

    pub fn bone_arena(&self) -> (r: &MmdRuntimeBoneArena<M>)
        ensures
            *r == self.arena(),
    {
        &self.bone_arena
    }

    pub fn morph_controller(&self) -> (r: &MmdMorphController)
        ensures
            *r == self.morph_state(),
    {
        &self.morph_controller
    }

    pub fn append_transform_solvers(&self) -> (r: &[AppendTransformSolver])
        ensures
            r@ == self.appends(),
    {
        self.append_transform_solvers.as_slice()
    }

    pub fn ik_solvers(&self) -> (r: &[IkSolver])
        ensures
            r@ == self.iks(),
    {
        self.ik_solvers.as_slice()
    }

    pub fn sorted_runtime_bones(&self) -> (r: &[usize])
        ensures
            r@ == self.sorted(),
    {
        self.sorted_runtime_bones.as_slice()
    }

    pub fn sorted_runtime_root_bones(&self) -> (r: &[usize])
        ensures
            r@ == self.roots(),
    {
        self.sorted_runtime_root_bones.as_slice()
    }

    /// Replaces the local transform of a bone.
    pub fn set_local_matrix(&mut self, bone: usize, m: M)
        requires
            old(self).wf(),
            bone < old(self).arena().bones().len(),
        ensures
            final(self).wf(),
            final(self).arena().bones() == old(self).arena().bones(),
            final(self).arena().worlds() == old(self).arena().worlds(),
            final(self).arena().locals() == old(self).arena().locals().update(bone as int, m),
            final(self).sorted() == old(self).sorted(),
            final(self).roots() == old(self).roots(),
            final(self).appends() == old(self).appends(),
            final(self).iks() == old(self).iks(),
            final(self).morph_state() == old(self).morph_state(),
    {
        self.bone_arena.set_local_matrix(bone, m);
    }

    /// Recomputes the world transforms of `bone` and of its subtree.
    pub fn update_world_matrix<F: Fn(M, M) -> M>(&mut self, bone: usize, compose: &F)
        requires
            old(self).wf(),
            bone < old(self).arena().bones().len(),
            forall|a: M, b: M| compose.requires((a, b)),
        ensures
            final(self).wf(),
            final(self).arena().bones() == old(self).arena().bones(),
            final(self).arena().locals() == old(self).arena().locals(),
            exists|visited: Set<int>| #[trigger] visited.contains(bone as int) && MmdRuntimeBoneArena::<M>::propagated(
                final(self).arena().bones(), final(self).arena().locals(), old(self).arena().worlds(),
                final(self).arena().worlds(), *compose, bone as int, visited)
                && closed_under_children(final(self).arena().bones(), visited),
            final(self).sorted() == old(self).sorted(),
            final(self).roots() == old(self).roots(),
            final(self).appends() == old(self).appends(),
            final(self).iks() == old(self).iks(),
            final(self).morph_state() == old(self).morph_state(),
    {
        self.bone_arena.update_world_matrix(bone, compose);
    }
}

/// The positions `s` marks `true` are exactly what `indices_where` lists.
pub proof fn lemma_indices_where(s: Seq<bool>)
    requires
        s.len() <= usize::MAX,
    ensures
        forall|i: int| 0 <= i < s.len() ==> (indices_where(s).contains(i as usize) <==> #[trigger] s[i]),
        forall|j: int| 0 <= j < indices_where(s).len() ==> #[trigger] indices_where(s)[j] < s.len(),
    decreases s.len(),
{
    if s.len() > 0 {
        let rest = s.drop_last();
        lemma_indices_where(rest);
        let r = indices_where(s);
        let rr = indices_where(rest);
        assert(r == if s.last() { rr.push((s.len() - 1) as usize) } else { rr });
        assert forall|j: int| 0 <= j < r.len() implies #[trigger] r[j] < s.len() by {
            if j < rr.len() {
                assert(r[j] == rr[j]);
            }
        }
        assert forall|i: int| 0 <= i < s.len() implies (r.contains(i as usize) <==> #[trigger] s[i]) by {
            if i < rest.len() {
                assert(rest[i] == s[i]);
                assert(rr.contains(i as usize) <==> rest[i]);
                if rr.contains(i as usize) {
                    let j = choose|j: int| 0 <= j < rr.len() && rr[j] == i as usize;
                    assert(r[j] == i as usize);
                }
                if r.contains(i as usize) {
                    let j = choose|j: int| 0 <= j < r.len() && r[j] == i as usize;
                    if j < rr.len() {
                        assert(rr[j] == i as usize);
                        assert(rr.contains(i as usize));
                    } else {
                        assert(r[j] == (s.len() - 1) as usize);
                    }
                }
            } else {
                assert(s[i] == s.last());
                if s.last() {
                    assert(r == rr.push(i as usize));
                    assert(r[r.len() - 1] == i as usize);
                } else {
                    if r.contains(i as usize) {
                        let j = choose|j: int| 0 <= j < r.len() && r[j] == i as usize;
                        assert(rr[j] < rest.len());
                    }
                }
            }
        }
    }
}

/// A morph applied in one frame (non-zero weight) is reset at the start of
/// the next frame, and if its weight there is zero it is not applied again:
/// the bone offsets it set are cleared and stay cleared.
pub proof fn lemma_morph_reset_after_apply(first: Seq<bool>, second: Seq<bool>, i: int)
    requires
        0 <= i < first.len(),
        first.len() <= usize::MAX,
        second.len() == first.len(),
        first[i],
        !second[i],
    ensures
        indices_where(first).contains(i as usize),
        !indices_where(second).contains(i as usize),
{
    lemma_indices_where(first);
    lemma_indices_where(second);
}

/// An IK solver disabled this frame is never run by a stage update, so the
/// IK rotations it wrote in an earlier frame are left as they are.
pub proof fn lemma_disabled_ik_not_run(
    bones: Seq<MmdRuntimeBone>,
    sorted: Seq<usize>,
    roots: Seq<usize>,
    stage: bool,
    ik_enabled: Seq<bool>,
    k: usize,
)
    requires
        k < ik_enabled.len(),
        !ik_enabled[k as int],
    ensures
        forall|j: int| 0 <= j < stage_schedule(bones, sorted, roots, stage, ik_enabled).len()
            ==> !(#[trigger] stage_schedule(bones, sorted, roots, stage, ik_enabled)[j] matches UpdateStep::Ik { solver, .. } && solver == k),
{
    let staged = in_stage(bones, sorted, stage);
    let staged_roots = in_stage(bones, roots, stage);
    lemma_corrections_skip_disabled(bones, ik_enabled, staged, k);
    let a = local_steps(staged);
    let b = world_steps(staged_roots);
    let c = correction_steps(bones, ik_enabled, staged);
    let all = stage_schedule(bones, sorted, roots, stage, ik_enabled);
    assert(all == a + b + c + b);
    assert forall|j: int| 0 <= j < all.len() implies !(#[trigger] all[j] matches UpdateStep::Ik { solver, .. } && solver == k) by {
        if j < a.len() {
            assert(all[j] == a[j]);
        } else if j < a.len() + b.len() {
            assert(all[j] == b[j - a.len()]);
        } else if j < a.len() + b.len() + c.len() {
            assert(all[j] == c[j - a.len() - b.len()]);
        } else {
            assert(all[j] == b[j - a.len() - b.len() - c.len()]);
        }
    }
}

proof fn lemma_corrections_skip_disabled(bones: Seq<MmdRuntimeBone>, ik_enabled: Seq<bool>, s: Seq<usize>, k: usize)
    requires
        k < ik_enabled.len(),
        !ik_enabled[k as int],
    ensures
        forall|j: int| 0 <= j < correction_steps(bones, ik_enabled, s).len()
            ==> !(#[trigger] correction_steps(bones, ik_enabled, s)[j] matches UpdateStep::Ik { solver, .. } && solver == k),
    decreases s.len(),
{
    if s.len() > 0 {
        lemma_corrections_skip_disabled(bones, ik_enabled, s.drop_last(), k);
        let c = correction_steps(bones, ik_enabled, s);
        let rest = correction_steps(bones, ik_enabled, s.drop_last());
        let last = correction_steps_of(bones, ik_enabled, s.last());
        assert(c == rest + last);
        assert forall|j: int| 0 <= j < c.len() implies !(#[trigger] c[j] matches UpdateStep::Ik { solver, .. } && solver == k) by {
            if j < rest.len() {
                assert(c[j] == rest[j]);
            } else {
                assert(c[j] == last[j - rest.len()]);
            }
        }
    }
}



proof fn lemma_roots_in_range(bones: Seq<MmdRuntimeBone>, sorted: Seq<usize>)
    requires
        forall|j: int| 0 <= j < sorted.len() ==> #[trigger] sorted[j] < bones.len(),
    ensures
        forall|j: int| 0 <= j < roots_in(bones, sorted).len() ==> #[trigger] roots_in(bones, sorted)[j] < bones.len(),
    decreases sorted.len(),
{
    if sorted.len() > 0 {
        let rest = sorted.drop_last();
        assert forall|j: int| 0 <= j < rest.len() implies #[trigger] rest[j] < bones.len() by {
            assert(rest[j] == sorted[j]);
        }
        lemma_roots_in_range(bones, rest);
        assert(sorted.last() == sorted[sorted.len() - 1]);
        let r = roots_in(bones, sorted);
        let rr = roots_in(bones, rest);
        assert forall|j: int| 0 <= j < r.len() implies #[trigger] r[j] < bones.len() by {
            if j < rr.len() {
                assert(r[j] == rr[j]);
            }
        }
    }
}

} // verus!
