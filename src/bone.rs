use vstd::prelude::*;
use vstd::set_lib::{lemma_int_range, lemma_len_subset, set_int_range};

verus! {

/// A node of the skeleton: its links to other bones and solvers, by index.
pub struct MmdRuntimeBone {
    pub index: usize,
    pub parent_bone: Option<usize>,
    /// Bones whose parent is this one, in increasing index order.
    pub child_bones: Vec<usize>,
    pub transform_order: i32,
    pub transform_after_physics: bool,
    pub append_transform_solver: Option<usize>,
    pub ik_solver: Option<usize>,
}

impl MmdRuntimeBone {
    /// A root bone with no children, no solvers, transform order 0, evaluated
    /// before physics.
    pub fn new(index: usize) -> (r: Self)
        ensures
            r.index == index,
            r.parent_bone is None,
            r.child_bones@.len() == 0,
            r.transform_order == 0,
            !r.transform_after_physics,
            r.append_transform_solver is None,
            r.ik_solver is None,
    {
        MmdRuntimeBone {
            index,
            parent_bone: None,
            child_bones: Vec::new(),
            transform_order: 0,
            transform_after_physics: false,
            append_transform_solver: None,
            ik_solver: None,
        }
    }
}

/// The parent link of each bone.
pub open spec fn parent_links(bones: Seq<MmdRuntimeBone>) -> Seq<Option<usize>> {
    bones.map_values(|b: MmdRuntimeBone| b.parent_bone)
}

/// Number of parent links from bone `b` up to a root, if a root is reached
/// within `fuel` links.
pub open spec fn root_distance(parents: Seq<Option<usize>>, b: int, fuel: nat) -> Option<nat>
    decreases fuel,
{
    if !(0 <= b < parents.len()) {
        None
    } else {
        match parents[b] {
            None => Some(0),
            Some(p) => if fuel == 0 {
                None
            } else {
                match root_distance(parents, p as int, (fuel - 1) as nat) {
                    Some(d) => Some(d + 1),
                    None => None,
                }
            },
        }
    }
}

/// Every bone reaches a root by parent links: the hierarchy is a forest.
pub open spec fn is_acyclic(parents: Seq<Option<usize>>) -> bool {
    forall|b: int| 0 <= b < parents.len() ==> (#[trigger] root_distance(parents, b, parents.len())) is Some
}

/// Depth of bone `b` in its tree (0 for a root).
pub open spec fn depth(bones: Seq<MmdRuntimeBone>, b: int) -> nat {
    root_distance(parent_links(bones), b, bones.len()).unwrap()
}

pub open spec fn is_parent_of(bones: Seq<MmdRuntimeBone>, p: int, c: int) -> bool {
    0 <= c < bones.len() && bones[c].parent_bone == Some(p as usize)
}

/// The bones form a forest whose child lists agree with the parent links.
pub open spec fn bones_wf(bones: Seq<MmdRuntimeBone>) -> bool {
    &&& forall|b: int| 0 <= b < bones.len() ==> (#[trigger] bones[b]).index == b
    &&& forall|b: int|
        0 <= b < bones.len() && (#[trigger] bones[b]).parent_bone is Some
            ==> bones[b].parent_bone.unwrap() < bones.len()
    &&& is_acyclic(parent_links(bones))
    &&& forall|p: int, j: int|
        0 <= p < bones.len() && 0 <= j < bones[p].child_bones@.len() ==> is_parent_of(
            bones,
            p,
            #[trigger] bones[p].child_bones@[j] as int,
        )
    &&& forall|p: int, c: int|
        0 <= p < bones.len() && #[trigger] is_parent_of(bones, p, c)
            ==> bones[p].child_bones@.contains(c as usize)
    &&& forall|p: int, j: int, k: int|
        0 <= p < bones.len() && 0 <= j < k < bones[p].child_bones@.len()
            ==> #[trigger] bones[p].child_bones@[j] < #[trigger] bones[p].child_bones@[k]
}

pub proof fn lemma_root_distance_fuel(parents: Seq<Option<usize>>, b: int, f: nat, g: nat)
    requires
        root_distance(parents, b, f) is Some,
        f <= g,
    ensures
        root_distance(parents, b, g) == root_distance(parents, b, f),
    decreases f,
{
    if let Some(p) = parents[b] {
        lemma_root_distance_fuel(parents, p as int, (f - 1) as nat, (g - 1) as nat);
    }
}

/// A parent is strictly shallower than its child.
proof fn lemma_parent_shallower(bones: Seq<MmdRuntimeBone>, b: int)
    requires
        bones_wf(bones),
        0 <= b < bones.len(),
        bones[b].parent_bone is Some,
    ensures
        depth(bones, bones[b].parent_bone.unwrap() as int) < depth(bones, b),
        bones[b].parent_bone.unwrap() != b,
{
    let p = bones[b].parent_bone.unwrap() as int;
    let n = bones.len();
    let parents = parent_links(bones);
    assert(parents[b] == bones[b].parent_bone);
    assert(root_distance(parents, b, n) is Some);
    lemma_root_distance_fuel(parents, p, (n - 1) as nat, n);
}

/// A set that holds every root and every child of its members holds every bone.
proof fn lemma_in_closed_set(bones: Seq<MmdRuntimeBone>, s: Set<int>, b: int)
    requires
        bones_wf(bones),
        0 <= b < bones.len(),
        closed_under_children(bones, s),
        forall|v: int| 0 <= v < bones.len() && (#[trigger] bones[v]).parent_bone is None ==> s.contains(v),
    ensures
        s.contains(b),
    decreases depth(bones, b),
{
    if let Some(p) = bones[b].parent_bone {
        lemma_parent_shallower(bones, b);
        lemma_in_closed_set(bones, s, p as int);
        assert(is_parent_of(bones, p as int, b));
    }
}

/// World transform of bone `v` agrees with its parent's world transform and
/// its own local transform: `world == parent.world * local`, or
/// `world == local` for a root.
pub open spec fn world_consistent<M, F: Fn(M, M) -> M>(
    bones: Seq<MmdRuntimeBone>,
    locals: Seq<M>,
    worlds: Seq<M>,
    compose: F,
    v: int,
) -> bool {
    match bones[v].parent_bone {
        Some(p) => compose.ensures((worlds[p as int], locals[v]), worlds[v]),
        None => worlds[v] == locals[v],
    }
}

/// Every child of a bone of `s` is in `s`.
pub open spec fn closed_under_children(bones: Seq<MmdRuntimeBone>, s: Set<int>) -> bool {
    forall|v: int, c: int| #[trigger] s.contains(v) && #[trigger] is_parent_of(bones, v, c) ==> s.contains(c)
}

/// The bones of a skeleton with a local and a world transform of type `M` each.
pub struct MmdRuntimeBoneArena<M> {
    arena: Vec<MmdRuntimeBone>,
    local_matrices: Vec<M>,
    world_matrices: Vec<M>,
    bone_stack: Vec<usize>,
}

impl<M: Copy> MmdRuntimeBoneArena<M> {
    pub closed spec fn bones(&self) -> Seq<MmdRuntimeBone> {
        self.arena@
    }

    pub closed spec fn locals(&self) -> Seq<M> {
        self.local_matrices@
    }

    pub closed spec fn worlds(&self) -> Seq<M> {
        self.world_matrices@
    }

    pub open spec fn wf(&self) -> bool {
        &&& bones_wf(self.bones())
        &&& self.locals().len() == self.bones().len()
        &&& self.worlds().len() == self.bones().len()
    }

    /// An arena over well-formed bones whose local and world transforms all
    /// start as `initial`.
    pub fn new(arena: Vec<MmdRuntimeBone>, bone_stack: Vec<usize>, initial: M) -> (r: Self)
        requires
            bones_wf(arena@),
        ensures
            r.wf(),
            r.bones() == arena@,
            forall|b: int| 0 <= b < arena@.len() ==> r.locals()[b] == initial,
            forall|b: int| 0 <= b < arena@.len() ==> r.worlds()[b] == initial,
    {
        let n = arena.len();
        let mut local_matrices: Vec<M> = Vec::with_capacity(n);
        let mut world_matrices: Vec<M> = Vec::with_capacity(n);
        let mut i: usize = 0;
        while i < n
            invariant
                i <= n,
                local_matrices@.len() == i,
                world_matrices@.len() == i,
                forall|b: int| 0 <= b < i ==> local_matrices@[b] == initial,
                forall|b: int| 0 <= b < i ==> world_matrices@[b] == initial,
            decreases n - i,
        {
            local_matrices.push(initial);
            world_matrices.push(initial);
            i = i + 1;
        }
        MmdRuntimeBoneArena { arena, local_matrices, world_matrices, bone_stack }
    }

    pub fn bone_arena(&self) -> (r: &[MmdRuntimeBone])
        ensures
            r@ == self.bones(),
    {
        self.arena.as_slice()
    }

    pub fn len(&self) -> (r: usize)
        ensures
            r == self.bones().len(),
    {
        self.arena.len()
    }

    pub fn local_matrix(&self, bone: usize) -> (r: M)
        requires
            self.wf(),
            bone < self.bones().len(),
        ensures
            r == self.locals()[bone as int],
    {
        self.local_matrices[bone]
    }

    pub fn world_matrix(&self, bone: usize) -> (r: M)
        requires
            self.wf(),
            bone < self.bones().len(),
        ensures
            r == self.worlds()[bone as int],
    {
        self.world_matrices[bone]
    }

    pub fn set_local_matrix(&mut self, bone: usize, m: M)
        requires
            old(self).wf(),
            bone < old(self).bones().len(),
        ensures
            final(self).wf(),
            final(self).bones() == old(self).bones(),
            final(self).worlds() == old(self).worlds(),
            final(self).locals() == old(self).locals().update(bone as int, m),
    {
        self.local_matrices.set(bone, m);
    }
    /// Recomputes the world transforms of `root` and of every bone below it,
    /// parents before children, with an explicit stack. Every other bone keeps
    /// its world transform.
    pub fn update_world_matrix<F: Fn(M, M) -> M>(&mut self, root: usize, compose: &F)
        requires
            old(self).wf(),
            root < old(self).bones().len(),
            forall|a: M, b: M| compose.requires((a, b)),
        ensures
            final(self).wf(),
            final(self).bones() == old(self).bones(),
            final(self).locals() == old(self).locals(),
            exists|visited: Set<int>| #[trigger] visited.contains(root as int) && Self::propagated(
                final(self).bones(), final(self).locals(), old(self).worlds(),
                final(self).worlds(), *compose, root as int, visited)
                && closed_under_children(final(self).bones(), visited),
    {
        let ghost bones = self.arena@;
        let ghost n = bones.len();
        let ghost old_worlds = self.world_matrices@;
        let ghost locals = self.local_matrices@;
        let ghost mut visited: Set<int> = Set::empty();
        self.bone_stack.clear();
        self.bone_stack.push(root);
        proof {
            lemma_int_range(0, n as int);
        }
        while self.bone_stack.len() > 0
            invariant
                self.wf(),
                self.arena@ == bones,
                self.local_matrices@ == locals,
                n == bones.len(),
                root < n,
                self.local_matrices@.len() == n,
                forall|a: M, b: M| compose.requires((a, b)),
                set_int_range(0, n as int).finite(),
                set_int_range(0, n as int).len() == n,
                visited.subset_of(set_int_range(0, n as int)),
                visited.contains(root as int) || self.bone_stack@ == seq![root],
                Self::stack_ok(bones, self.bone_stack@, visited, root as int),
                Self::propagated(bones, self.local_matrices@, old_worlds, self.world_matrices@,
                    *compose, root as int, visited),
                forall|v: int, c: int| #[trigger] visited.contains(v) && #[trigger] is_parent_of(bones, v, c)
                    ==> visited.contains(c) || self.bone_stack@.contains(c as usize),
            decreases n - visited.len(),
        {
            let ghost stack_before = self.bone_stack@;
            let bone = self.bone_stack.pop().unwrap();
            let ghost stack_after_pop = self.bone_stack@;
            let ghost worlds_before = self.world_matrices@;
            proof {
                lemma_len_subset(visited, set_int_range(0, n as int));
                assert(stack_before =~= stack_after_pop.push(bone));
                assert(stack_before[stack_before.len() - 1] == bone);
                assert(!visited.contains(bone as int));
            }
            let local = self.local_matrices[bone];
            match self.arena[bone].parent_bone {
                Some(p) => {
                    let parent_world = self.world_matrices[p];
                    let world = compose(parent_world, local);
                    self.world_matrices.set(bone, world);
                },
                None => {
                    self.world_matrices.set(bone, local);
                },
            }
            let ghost visited_before = visited;
            let ghost worlds_after = self.world_matrices@;
            proof {
                visited = visited.insert(bone as int);
            }
            let n_children = self.arena[bone].child_bones.len();
            let mut j: usize = 0;
            while j < n_children
                invariant
                    self.arena@ == bones,
                    self.local_matrices@ == locals,
                    self.world_matrices@ == worlds_after,
                    bone < n,
                    n == bones.len(),
                    n_children == bones[bone as int].child_bones@.len(),
                    j <= n_children,
                    self.bone_stack@ == stack_after_pop + bones[bone as int].child_bones@.subrange(0, j as int),
                decreases n_children - j,
            {
                let c = self.arena[bone].child_bones[j];
                self.bone_stack.push(c);
                j = j + 1;
                proof {
                    assert(bones[bone as int].child_bones@.subrange(0, j as int) =~= bones[bone as int].child_bones@.subrange(0, j - 1).push(c));
                }
            }
            proof {
                let children = bones[bone as int].child_bones@;
                assert(children.subrange(0, n_children as int) =~= children);
                let new_stack = self.bone_stack@;
                assert(new_stack == stack_after_pop + children);
                let vb = bone as int;
                let r = root as int;
                // the stack stays well formed
                assert forall|k: int| 0 <= k < children.len() implies {
                    let c = #[trigger] children[k] as int;
                    &&& is_parent_of(bones, vb, c)
                    &&& 0 <= c < n
                    &&& !visited.contains(c)
                    &&& depth(bones, c) >= depth(bones, r)
                    &&& c != r
                } by {
                    let c = children[k] as int;
                    assert(is_parent_of(bones, vb, c));
                    lemma_parent_shallower(bones, c);
                    if visited_before.contains(c) {
                        if c == r {
                            assert(depth(bones, vb) >= depth(bones, r));
                        }
                    }
                }
                assert forall|a: int, b: int| 0 <= a < new_stack.len() && 0 <= b < new_stack.len() && a != b
                    implies new_stack[a] != new_stack[b] by {
                    let sl = stack_after_pop.len() as int;
                    if a < sl && b < sl {
                        assert(stack_before[a] == new_stack[a] && stack_before[b] == new_stack[b]);
                    } else if a >= sl && b >= sl {
                        if a < b {
                            assert(children[a - sl] < children[b - sl]);
                        } else {
                            assert(children[b - sl] < children[a - sl]);
                        }
                    } else {
                        let (x, y) = if a < sl { (a, b) } else { (b, a) };
                        let s0 = stack_before[x] as int;
                        let c = children[y - sl] as int;
                        assert(new_stack[x] as int == s0 && new_stack[y] as int == c);
                        assert(is_parent_of(bones, vb, c));
                        if s0 == c {
                            if s0 == r {
                                assert(c != r);
                            } else {
                                assert(visited_before.contains(bones[s0].parent_bone.unwrap() as int));
                            }
                        }
                    }
                }
                assert forall|k: int| 0 <= k < new_stack.len() implies {
                    let s = #[trigger] new_stack[k] as int;
                    &&& 0 <= s < bones.len()
                    &&& !visited.contains(s)
                    &&& depth(bones, s) >= depth(bones, r)
                    &&& (s == r || (bones[s].parent_bone is Some
                        && visited.contains(bones[s].parent_bone.unwrap() as int)))
                } by {
                    let sl = stack_after_pop.len() as int;
                    if k < sl {
                        assert(stack_before[k] == new_stack[k]);
                        assert(stack_before[sl] == bone);
                    } else {
                        assert(children[k - sl] == new_stack[k]);
                    }
                }
                assert(Self::stack_ok(bones, new_stack, visited, r));
                // world transforms
                let worlds = self.world_matrices@;
                assert forall|v: int| #[trigger] visited.contains(v) implies {
                    &&& 0 <= v < bones.len()
                    &&& depth(bones, v) >= depth(bones, r)
                    &&& (v == r || (bones[v].parent_bone is Some
                        && visited.contains(bones[v].parent_bone.unwrap() as int)))
                    &&& world_consistent(bones, self.local_matrices@, worlds, *compose, v)
                } by {
                    if v != vb {
                        assert(visited_before.contains(v));
                        if let Some(p) = bones[v].parent_bone {
                            if p as int == vb {
                                if v == r {
                                    lemma_parent_shallower(bones, v);
                                } else {
                                    assert(visited_before.contains(p as int));
                                }
                            }
                        }
                    } else {
                        if let Some(p) = bones[v].parent_bone {
                            lemma_parent_shallower(bones, v);
                        }
                        if v != r {
                            assert(visited_before.contains(r));
                        }
                    }
                }
                assert forall|v: int, c: int| #[trigger] visited.contains(v) && #[trigger] is_parent_of(bones, v, c)
                    implies visited.contains(c) || new_stack.contains(c as usize) by {
                    if v == vb {
                        assert(bones[vb].child_bones@.contains(c as usize));
                        let k = choose|k: int| 0 <= k < children.len() && children[k] == c as usize;
                        assert(new_stack[stack_after_pop.len() + k] == c as usize);
                    } else {
                        assert(visited_before.contains(v));
                        if !visited_before.contains(c) && c != vb {
                            assert(stack_before.contains(c as usize));
                            let k = choose|k: int| 0 <= k < stack_before.len() && stack_before[k] == c as usize;
                            assert(new_stack[k] == c as usize);
                        }
                    }
                }
                lemma_len_subset(visited, set_int_range(0, n as int));
            }
        }
    }

    /// Recomputes every world transform, starting from each root bone; then
    /// every bone satisfies `world == parent.world * local` (`world == local`
    /// for a root).
    pub fn update_all_world_matrices<F: Fn(M, M) -> M>(&mut self, compose: &F)
        requires
            old(self).wf(),
            forall|a: M, b: M| compose.requires((a, b)),
        ensures
            final(self).wf(),
            final(self).bones() == old(self).bones(),
            final(self).locals() == old(self).locals(),
            forall|b: int| 0 <= b < final(self).bones().len() ==> #[trigger] world_consistent(
                final(self).bones(), final(self).locals(), final(self).worlds(), *compose, b),
    {
        let ghost bones = self.arena@;
        let ghost locals = self.local_matrices@;
        let ghost mut done: Set<int> = Set::empty();
        let n = self.arena.len();
        let mut r: usize = 0;
        while r < n
            invariant
                self.wf(),
                self.arena@ == bones,
                self.local_matrices@ == locals,
                n == bones.len(),
                r <= n,
                forall|a: M, b: M| compose.requires((a, b)),
                closed_under_children(bones, done),
                forall|v: int| #[trigger] done.contains(v) ==> 0 <= v < n
                    && world_consistent(bones, locals, self.world_matrices@, *compose, v),
                forall|v: int| 0 <= v < r && (#[trigger] bones[v]).parent_bone is None ==> done.contains(v),
            decreases n - r,
        {
            if self.arena[r].parent_bone.is_none() {
                let ghost before = self.world_matrices@;
                self.update_world_matrix(r, compose);
                let ghost visited = choose|visited: Set<int>| #[trigger] visited.contains(r as int) && Self::propagated(
                    bones, locals, before, self.world_matrices@, *compose, r as int, visited)
                    && closed_under_children(bones, visited);
                proof {
                    let worlds = self.world_matrices@;
                    assert forall|v: int| #[trigger] done.contains(v) && !visited.contains(v) implies
                        world_consistent(bones, locals, worlds, *compose, v) by {
                        assert(worlds[v] == before[v]);
                        if let Some(p) = bones[v].parent_bone {
                            if visited.contains(p as int) {
                                assert(is_parent_of(bones, p as int, v));
                            }
                            assert(worlds[p as int] == before[p as int]);
                        }
                    }
                    done = done.union(visited);
                }
            }
            r = r + 1;
        }
        proof {
            assert forall|b: int| 0 <= b < n implies #[trigger] world_consistent(
                bones, locals, self.world_matrices@, *compose, b) by {
                lemma_in_closed_set(bones, done, b);
            }
        }
    }

    /// The stack holds distinct unvisited bones, each `root` or a child of a
    /// visited bone, none shallower than `root`.
    pub open spec fn stack_ok(bones: Seq<MmdRuntimeBone>, stack: Seq<usize>, visited: Set<int>, root: int) -> bool {
        &&& stack.no_duplicates()
        &&& forall|j: int| 0 <= j < stack.len() ==> {
            let s = #[trigger] stack[j] as int;
            &&& 0 <= s < bones.len()
            &&& !visited.contains(s)
            &&& depth(bones, s) >= depth(bones, root)
            &&& (s == root || (bones[s].parent_bone is Some
                && visited.contains(bones[s].parent_bone.unwrap() as int)))
        }
    }

    /// After visiting the bones of `visited` from `root`: each visited bone is
    /// `root` or a child of a visited bone, and its world transform is
    /// consistent; every other bone keeps its old world transform.
    pub open spec fn propagated<F: Fn(M, M) -> M>(
        bones: Seq<MmdRuntimeBone>,
        locals: Seq<M>,
        old_worlds: Seq<M>,
        worlds: Seq<M>,
        compose: F,
        root: int,
        visited: Set<int>,
    ) -> bool {
        &&& worlds.len() == bones.len()
        &&& forall|v: int| #[trigger] visited.contains(v) ==> {
            &&& 0 <= v < bones.len()
            &&& depth(bones, v) >= depth(bones, root)
            &&& (v == root || (bones[v].parent_bone is Some
                && visited.contains(bones[v].parent_bone.unwrap() as int)))
            &&& world_consistent(bones, locals, worlds, compose, v)
        }
        &&& forall|v: int| 0 <= v < bones.len() && !visited.contains(v) ==> #[trigger] worlds[v] == old_worlds[v]
    }
}

} // verus!
