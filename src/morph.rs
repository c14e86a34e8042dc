use vstd::prelude::*;

verus! {

/// A morph, by the indices it references; -1 or any other out-of-range index
/// contributes nothing.
pub enum MorphMetadata {
    /// Offsets the bones at these indices.
    Bone { indices: Vec<i32> },
    /// Blends the morphs at these indices.
    Group { indices: Vec<i32> },
}

/// One bone morph reached from a group morph, with the (group, slot) edges
/// that lead to it; its weight is the product of those slots' ratios.
pub struct FlatMorph {
    pub morph: usize,
    pub path: Vec<(usize, usize)>,
}

pub open spec fn flat_view(v: Seq<FlatMorph>) -> Seq<(usize, Seq<(usize, usize)>)> {
    v.map_values(|f: FlatMorph| (f.morph, f.path@))
}

pub open spec fn member_indices(m: MorphMetadata) -> Seq<i32> {
    match m {
        MorphMetadata::Bone { indices } => indices@,
        MorphMetadata::Group { indices } => indices@,
    }
}

/// The bone morphs reached from morph `m` by expanding group members, last
/// slot first, never re-entering a morph on the current expansion `path`;
/// `edges` leads from the start of the expansion to `m`.
pub open spec fn flat(
    morphs: Seq<MorphMetadata>,
    m: int,
    path: Seq<usize>,
    edges: Seq<(usize, usize)>,
) -> Seq<(usize, Seq<(usize, usize)>)>
    decreases morphs.len() + 1 - path.len(), 0nat,
{
    if !(0 <= m < morphs.len()) || path.contains(m as usize) || path.len() >= morphs.len() {
        Seq::empty()
    } else {
        match morphs[m] {
            MorphMetadata::Bone { .. } => seq![(m as usize, edges)],
            MorphMetadata::Group { indices } => flat_slots(
                morphs,
                m,
                indices@,
                indices@.len() as nat,
                path.push(m as usize),
                edges,
            ),
        }
    }
}

/// Expansion of slots `k - 1` down to `0` of group `g`.
pub open spec fn flat_slots(
    morphs: Seq<MorphMetadata>,
    g: int,
    members: Seq<i32>,
    k: nat,
    path: Seq<usize>,
    edges: Seq<(usize, usize)>,
) -> Seq<(usize, Seq<(usize, usize)>)>
    decreases morphs.len() + 1 - path.len(), k,
{
    if k == 0 || k > members.len() || path.len() > morphs.len() {
        Seq::empty()
    } else {
        flat(morphs, members[k - 1] as int, path, edges.push((g as usize, (k - 1) as usize)))
            + flat_slots(morphs, g, members, (k - 1) as nat, path, edges)
    }
}

/// Going from `a` to `b`, only group slots that referenced a group morph
/// leading back to their own group may have been cleared to -1; nothing else
/// differs.
pub open spec fn slots_cleared_only(a: Seq<MorphMetadata>, b: Seq<MorphMetadata>) -> bool {
    &&& a.len() == b.len()
    &&& forall|i: int| 0 <= i < a.len() ==> #[trigger] slot_cleared_only(a, b, i)
}

/// Some slot of group `g` references morph `t`.
pub open spec fn has_edge(a: Seq<MorphMetadata>, g: int, t: int) -> bool {
    &&& 0 <= g < a.len()
    &&& a[g] is Group
    &&& exists|j: int| 0 <= j < member_indices(a[g]).len() && #[trigger] member_indices(a[g])[j] as int == t
}

/// Each morph of `w` is referenced by a slot of the one before it.
pub open spec fn is_walk(a: Seq<MorphMetadata>, w: Seq<usize>) -> bool {
    forall|k: int| 0 <= k < w.len() - 1 ==> #[trigger] has_edge(a, w[k] as int, w[k + 1] as int)
}

/// Morph `t` leads back to group `g` through group slots.
pub open spec fn closes_cycle(a: Seq<MorphMetadata>, g: int, t: int) -> bool {
    exists|w: Seq<usize>| w.len() >= 1 && w[0] as int == t && w.last() as int == g && #[trigger] is_walk(a, w)
}

/// No walk of one or more slots leads from morph `s` to a morph of `targets`.
pub open spec fn no_return(a: Seq<MorphMetadata>, s: int, targets: Seq<usize>) -> bool {
    forall|w: Seq<usize>| #[trigger] is_walk(a, w) && w.len() >= 2 && w[0] as int == s
        ==> !targets.contains(w.last())
}

/// No walk of one or more group slots leads from a morph back to itself.
pub open spec fn morphs_acyclic(a: Seq<MorphMetadata>) -> bool {
    forall|i: int| 0 <= i < a.len() ==> #[trigger] no_return(a, i, seq![i as usize])
}

/// Every slot reference of `b` to a morph is one of `a` too.
pub open spec fn edges_within(a: Seq<MorphMetadata>, b: Seq<MorphMetadata>) -> bool {
    forall|g: int, t: int| t >= 0 && #[trigger] has_edge(b, g, t) ==> has_edge(a, g, t)
}

/// A slot of `a` that references a group morph.
pub open spec fn references_group(a: Seq<MorphMetadata>, target: int) -> bool {
    0 <= target < a.len() && a[target as int] is Group
}

pub open spec fn slot_cleared_only(a: Seq<MorphMetadata>, b: Seq<MorphMetadata>, i: int) -> bool {
    match a[i] {
        MorphMetadata::Bone { .. } => b[i] == a[i],
        MorphMetadata::Group { indices } => b[i] is Group && member_indices(b[i]).len() == indices@.len()
            && forall|j: int| 0 <= j < indices@.len() ==> #[trigger] member_indices(b[i])[j] == indices@[j]
                || (member_indices(b[i])[j] == -1 && references_group(a, indices@[j] as int)
                    && closes_cycle(a, i, indices@[j] as int)),
    }
}

fn contains_index(v: &Vec<usize>, x: usize) -> (r: bool)
    ensures
        r == v@.contains(x),
{
    let mut i: usize = 0;
    while i < v.len()
        invariant
            i <= v@.len(),
            forall|j: int| 0 <= j < i ==> v@[j] != x,
        decreases v.len() - i,
    {
        if v[i] == x {
            return true;
        }
        i = i + 1;
    }
    false
}

fn copy_edges(v: &Vec<(usize, usize)>) -> (r: Vec<(usize, usize)>)
    ensures
        r@ == v@,
{
    let mut r: Vec<(usize, usize)> = Vec::with_capacity(v.len());
    let mut i: usize = 0;
    while i < v.len()
        invariant
            i <= v@.len(),
            r@ == v@.subrange(0, i as int),
        decreases v.len() - i,
    {
        r.push(v[i]);
        i = i + 1;
    }
    r
}

fn copy_members(v: &Vec<i32>) -> (r: Vec<i32>)
    ensures
        r@ == v@,
{
    let mut r: Vec<i32> = Vec::with_capacity(v.len());
    let mut i: usize = 0;
    while i < v.len()
        invariant
            i <= v@.len(),
            r@ == v@.subrange(0, i as int),
        decreases v.len() - i,
    {
        r.push(v[i]);
        i = i + 1;
    }
    r
}

/// Appends to `out` the bone morphs reached from morph `m`.
fn flatten_into(
    morphs: &Vec<MorphMetadata>,
    m: i32,
    path: &mut Vec<usize>,
    edges: &mut Vec<(usize, usize)>,
    out: &mut Vec<FlatMorph>,
)
    ensures
        final(path)@ == old(path)@,
        final(edges)@ == old(edges)@,
        flat_view(final(out)@) == flat_view(old(out)@) + flat(morphs@, m as int, old(path)@, old(edges)@),
    decreases morphs@.len() + 1 - old(path)@.len(), 1nat,
{
    if m < 0 || m as usize >= morphs.len() {
        assert(flat_view(out@) =~= flat_view(out@) + Seq::<(usize, Seq<(usize, usize)>)>::empty());
        return;
    }
    flatten_index(morphs, m as usize, path, edges, out);
}

/// Appends to `out` the bone morphs reached from morph `m`, an index of
/// the list.
fn flatten_index(
    morphs: &Vec<MorphMetadata>,
    mu: usize,
    path: &mut Vec<usize>,
    edges: &mut Vec<(usize, usize)>,
    out: &mut Vec<FlatMorph>,
)
    requires
        mu < morphs@.len(),
    ensures
        final(path)@ == old(path)@,
        final(edges)@ == old(edges)@,
        flat_view(final(out)@) == flat_view(old(out)@) + flat(morphs@, mu as int, old(path)@, old(edges)@),
    decreases morphs@.len() + 1 - old(path)@.len(), 0nat,
{
    if path.len() >= morphs.len() || contains_index(path, mu) {
        assert(flat_view(out@) =~= flat_view(out@) + Seq::<(usize, Seq<(usize, usize)>)>::empty());
        return;
    }
    match &morphs[mu] {
        MorphMetadata::Bone { .. } => {
            let ghost before = out@;
            out.push(FlatMorph { morph: mu, path: copy_edges(edges) });
            assert(flat_view(out@) =~= flat_view(before) + seq![(mu, edges@)]);
        },
        MorphMetadata::Group { indices } => {
            path.push(mu);
            flatten_slots_into(morphs, mu, indices, indices.len(), path, edges, out);
            path.pop();
        },
    }
}

/// Appends to `out` the expansion of slots `k - 1` down to `0` of group `g`.
fn flatten_slots_into(
    morphs: &Vec<MorphMetadata>,
    g: usize,
    members: &Vec<i32>,
    k: usize,
    path: &mut Vec<usize>,
    edges: &mut Vec<(usize, usize)>,
    out: &mut Vec<FlatMorph>,
)
    requires
        k <= members@.len(),
        old(path)@.len() <= morphs@.len(),
    ensures
        final(path)@ == old(path)@,
        final(edges)@ == old(edges)@,
        flat_view(final(out)@) == flat_view(old(out)@) + flat_slots(morphs@, g as int, members@, k as nat, old(path)@, old(edges)@),
    decreases morphs@.len() + 1 - old(path)@.len(), k + 2,
{
    if k == 0 {
        assert(flat_view(out@) =~= flat_view(out@) + Seq::<(usize, Seq<(usize, usize)>)>::empty());
        return;
    }
    let ghost out0 = out@;
    let ghost edges0 = edges@;
    edges.push((g, k - 1));
    flatten_into(morphs, members[k - 1], path, edges, out);
    edges.pop();
    assert(edges@ =~= edges0);
    let ghost out1 = out@;
    flatten_slots_into(morphs, g, members, k - 1, path, edges, out);
    assert(flat_view(out@) =~= flat_view(out0) + flat_slots(morphs@, g as int, members@, k as nat, path@, edges@));
}

/// Clears every slot of group `m` (and, recursively, of the groups it
/// reaches) that would lead back into the current expansion `path` or to `m`
/// itself.
fn fix_looping_group_morphs(morphs: &mut Vec<MorphMetadata>, m: usize, path: &mut Vec<usize>)
    requires
        m < old(morphs)@.len(),
        !old(path)@.contains(m),
        forall|k: int| 0 <= k < old(path)@.len() ==> references_group(old(morphs)@, #[trigger] old(path)@[k] as int),
        is_walk(old(morphs)@, old(path)@.push(m)),
        old(path)@.no_duplicates(),
        old(morphs)@.len() <= i32::MAX,
    ensures
        final(path)@ == old(path)@,
        slots_cleared_only(old(morphs)@, final(morphs)@),
        forall|x: int| 0 <= x < old(morphs)@.len() && old(path)@.contains(x as usize) ==> #[trigger] final(morphs)@[x] == old(morphs)@[x],
        old(path)@.len() < old(morphs)@.len() ==> no_return(final(morphs)@, m as int, old(path)@.push(m)),
    decreases old(morphs)@.len() + 1 - old(path)@.len(),
{
    let ghost m0 = morphs@;
    let ghost path0 = path@;
    let n = morphs.len();
    proof {
        lemma_slots_refl(m0);
    }
    // An expansion path holds distinct morphs, so it never outgrows the list.
    if path.len() >= n {
        return;
    }
    let members = match &morphs[m] {
        MorphMetadata::Group { indices } => copy_members(indices),
        MorphMetadata::Bone { .. } => {
            proof {
                assert forall|w: Seq<usize>| #[trigger] is_walk(m0, w) && w.len() >= 2 && w[0] as int == m
                    implies !path0.push(m).contains(w.last()) by {
                    let k = 0int;
                    assert(has_edge(m0, w[k] as int, w[k + 1] as int));
                }
            }
            return;
        },
    };
    let mut local = copy_members(&members);
    path.push(m);
    let mut j: usize = 0;
    while j < members.len()
        invariant
            morphs@.len() == n,
            old(morphs)@.len() == n,
            old(path)@ == path0,
            m < n,
            !path0.contains(m),
            path@ == path0.push(m),
            path0.len() < n,
            j <= members@.len(),
            m0[m as int] is Group,
            member_indices(m0[m as int]) == members@,
            slots_cleared_only(m0, morphs@),
            morphs@[m as int] == m0[m as int],
            forall|x: int| 0 <= x < n && path0.contains(x as usize) ==> #[trigger] morphs@[x] == m0[x],
            local@.len() == members@.len(),
            forall|t: int| 0 <= t < members@.len() ==> #[trigger] local@[t] == members@[t]
                || (local@[t] == -1 && references_group(m0, members@[t] as int)
                    && closes_cycle(m0, m as int, members@[t] as int)),
            is_walk(m0, path0.push(m)),
            path0.no_duplicates(),
            forall|t: int| 0 <= t < j && #[trigger] local@[t] >= 0 ==> !path@.contains(local@[t] as usize)
                && (local@[t] < n ==> no_return(morphs@, local@[t] as int, path@)),
            forall|k: int| 0 <= k < path0.len() ==> references_group(m0, #[trigger] path0[k] as int),
            n <= i32::MAX,
        decreases members.len() - j,
    {
        let c = members[j];
        if 0 <= c && (c as usize) < n {
            if contains_index(path, c as usize) {
                proof {
                    assert(path@[path0.len() as int] == m);
                    let k = choose|k: int| 0 <= k < path@.len() && path@[k] == c as usize;
                    if c as usize != m {
                        assert(path0[k] == c as usize);
                        assert(references_group(m0, path0[k] as int));
                    }
                    let w = path@.subrange(k, path@.len() as int);
                    assert(w[0] == c as usize);
                    assert(w.last() == m);
                    assert forall|q: int| 0 <= q < w.len() - 1 implies #[trigger] has_edge(m0, w[q] as int, w[q + 1] as int) by {
                        assert(w[q] == path@[k + q] && w[q + 1] == path@[k + q + 1]);
                        assert(has_edge(m0, path@[k + q] as int, path@[k + q + 1] as int));
                    }
                    assert(is_walk(m0, w));
                }
                local.set(j, -1);
            } else {
                let ghost before = morphs@;
                proof {
                    let w = path@.push(c as usize);
                    assert(member_indices(m0[m as int])[j as int] as int == c as int);
                    assert forall|q: int| 0 <= q < w.len() - 1 implies #[trigger] has_edge(morphs@, w[q] as int, w[q + 1] as int) by {
                        let x = w[q] as int;
                        if q < path0.len() {
                            assert(path0[q] == w[q]);
                            assert(path0.contains(x as usize));
                            assert(has_edge(m0, path@[q] as int, path@[q + 1] as int));
                        } else {
                            assert(x == m);
                            assert(member_indices(morphs@[x])[j as int] as int == w[q + 1] as int);
                        }
                    }
                    assert forall|k: int| 0 <= k < path@.len() implies references_group(morphs@, #[trigger] path@[k] as int) by {
                        let x = path@[k] as int;
                        if k < path0.len() {
                            assert(path0[k] == path@[k]);
                            assert(slot_cleared_only(m0, morphs@, x));
                        } else {
                            assert(x == m);
                        }
                    }
                }
                assert(path@.len() == path0.len() + 1);
                assert(morphs@.len() + 1 - path@.len() < m0.len() + 1 - path0.len());
                proof {
                    assert(path@.no_duplicates()) by {
                        assert forall|a: int, b: int| 0 <= a < path@.len() && 0 <= b < path@.len() && a != b
                            implies path@[a] != path@[b] by {
                            if a < path0.len() && b < path0.len() {
                                assert(path0[a] == path@[a] && path0[b] == path@[b]);
                            } else if a < path0.len() {
                                assert(path0[a] == path@[a]);
                                assert(path0.contains(path@[a]));
                            } else if b < path0.len() {
                                assert(path0[b] == path@[b]);
                                assert(path0.contains(path@[b]));
                            }
                        }
                    }
                    let pc = path@.push(c as usize);
                    assert forall|a: int, b: int| 0 <= a < pc.len() && 0 <= b < pc.len() && a != b
                        implies pc[a] != pc[b] by {
                        if a < path@.len() && b < path@.len() {
                            assert(pc[a] == path@[a] && pc[b] == path@[b]);
                        } else if a < path@.len() {
                            assert(pc[a] == path@[a]);
                        } else if b < path@.len() {
                            assert(pc[b] == path@[b]);
                        }
                    }
                    assert forall|k: int| 0 <= k < pc.len() implies #[trigger] pc[k] < n by {
                        if k < path0.len() {
                            assert(pc[k] == path0[k]);
                            assert(references_group(m0, path0[k] as int));
                        } else if k == path0.len() {
                            assert(pc[k] == m);
                        }
                    }
                    lemma_distinct_bounded(pc, n as nat);
                }
                fix_looping_group_morphs(morphs, c as usize, path);
                proof {
                    lemma_slots_trans(m0, before, morphs@);
                    lemma_cleared_edges_within(before, morphs@);
                    assert forall|t: int| 0 <= t < j && #[trigger] local@[t] >= 0 implies !path@.contains(local@[t] as usize)
                        && (local@[t] < n ==> no_return(morphs@, local@[t] as int, path@)) by {
                        if local@[t] < n {
                            lemma_no_return_within(before, morphs@, local@[t] as int, path@);
                        }
                    }
                    assert forall|w: Seq<usize>| #[trigger] is_walk(morphs@, w) && w.len() >= 2 && w[0] as int == c as int
                        implies !path@.contains(w.last()) by {
                        assert(!path@.push(c as usize).contains(w.last()));
                        if path@.contains(w.last()) {
                            let k = choose|k: int| 0 <= k < path@.len() && path@[k] == w.last();
                            assert(path@.push(c as usize)[k] == w.last());
                        }
                    }
                    assert(path@[path0.len() as int] == m);
                    assert forall|x: int| 0 <= x < n && path0.contains(x as usize) implies #[trigger] morphs@[x] == m0[x] by {
                        let k = choose|k: int| 0 <= k < path0.len() && path0[k] == x as usize;
                        assert(path@[k] == x as usize);
                    }
                }
            }
        }
        j = j + 1;
    }
    path.pop();
    let ghost before = morphs@;
    morphs.set(m, MorphMetadata::Group { indices: local });
    proof {
        assert forall|i: int| 0 <= i < n implies #[trigger] slot_cleared_only(m0, morphs@, i) by {
            if i != m {
                assert(slot_cleared_only(m0, before, i));
            }
        }
        let f = morphs@;
        let pm = path0.push(m);
        assert(member_indices(f[m as int]) == local@);
        assert forall|g: int, t: int| t >= 0 && #[trigger] has_edge(f, g, t) implies has_edge(before, g, t) by {
            if g == m {
                let jj = choose|jj: int| 0 <= jj < member_indices(f[g]).len() && #[trigger] member_indices(f[g])[jj] as int == t;
                assert(local@[jj] == members@[jj]);
                assert(member_indices(before[g])[jj] as int == t);
            } else {
                assert(f[g] == before[g]);
            }
        }
        assert(edges_within(before, f));
        assert forall|w: Seq<usize>| #[trigger] is_walk(f, w) && w.len() >= 2 && w[0] as int == m as int
            implies !pm.contains(w.last()) by {
            let k0 = 0int;
            assert(has_edge(f, w[k0] as int, w[k0 + 1] as int));
            let t = w[1] as int;
            let jj = choose|jj: int| 0 <= jj < member_indices(f[m as int]).len() && #[trigger] member_indices(f[m as int])[jj] as int == t;
            assert(local@[jj] >= 0);
            assert(!pm.contains(local@[jj] as usize));
            if w.len() > 2 {
                let k1 = 1int;
                assert(has_edge(f, w[k1] as int, w[k1 + 1] as int));
                assert(local@[jj] < n);
                assert(no_return(before, t, pm));
                let w2 = w.subrange(1, w.len() as int);
                assert forall|q: int| 0 <= q < w2.len() - 1 implies #[trigger] has_edge(f, w2[q] as int, w2[q + 1] as int) by {
                    assert(w2[q] == w[q + 1] && w2[q + 1] == w[q + 2]);
                    assert(has_edge(f, w[q + 1] as int, w[(q + 1) + 1] as int));
                }
                lemma_walk_within(before, f, w2);
                assert(w2.last() == w.last());
                assert(w2[0] as int == t);
            } else {
                assert(w.last() == w[1]);
            }
        }
    }
}

proof fn lemma_cleared_edges_within(a: Seq<MorphMetadata>, b: Seq<MorphMetadata>)
    requires
        slots_cleared_only(a, b),
    ensures
        edges_within(a, b),
{
    assert forall|g: int, t: int| t >= 0 && #[trigger] has_edge(b, g, t) implies has_edge(a, g, t) by {
        assert(slot_cleared_only(a, b, g));
        let j = choose|j: int| 0 <= j < member_indices(b[g]).len() && #[trigger] member_indices(b[g])[j] as int == t;
        assert(member_indices(a[g])[j] as int == t);
    }
}

proof fn lemma_walk_within(a: Seq<MorphMetadata>, b: Seq<MorphMetadata>, w: Seq<usize>)
    requires
        edges_within(a, b),
        is_walk(b, w),
    ensures
        is_walk(a, w),
{
    assert forall|k: int| 0 <= k < w.len() - 1 implies #[trigger] has_edge(a, w[k] as int, w[k + 1] as int) by {
        assert(has_edge(b, w[k] as int, w[k + 1] as int));
    }
}

proof fn lemma_no_return_within(a: Seq<MorphMetadata>, b: Seq<MorphMetadata>, s: int, targets: Seq<usize>)
    requires
        edges_within(a, b),
        no_return(a, s, targets),
    ensures
        no_return(b, s, targets),
{
    assert forall|w: Seq<usize>| #[trigger] is_walk(b, w) && w.len() >= 2 && w[0] as int == s
        implies !targets.contains(w.last()) by {
        lemma_walk_within(a, b, w);
    }
}

/// Distinct indices below `n` number at most `n`.
proof fn lemma_distinct_bounded(s: Seq<usize>, n: nat)
    requires
        s.no_duplicates(),
        forall|k: int| 0 <= k < s.len() ==> #[trigger] s[k] < n,
    ensures
        s.len() <= n,
    decreases n,
{
    if n == 0 {
        if s.len() > 0 {
            assert(s[0] < n);
        }
    } else {
        let top = (n - 1) as usize;
        if s.contains(top) {
            let k = choose|k: int| 0 <= k < s.len() && s[k] == top;
            let r = s.remove(k);
            assert forall|i: int| 0 <= i < r.len() implies #[trigger] r[i] < n - 1 by {
                let o = if i < k { i } else { i + 1 };
                assert(r[i] == s[o]);
                assert(o != k);
            }
            assert forall|i: int, j: int| 0 <= i < r.len() && 0 <= j < r.len() && i != j implies r[i] != r[j] by {
                let oi = if i < k { i } else { i + 1 };
                let oj = if j < k { j } else { j + 1 };
                assert(r[i] == s[oi] && r[j] == s[oj]);
            }
            lemma_distinct_bounded(r, (n - 1) as nat);
        } else {
            assert forall|i: int| 0 <= i < s.len() implies #[trigger] s[i] < n - 1 by {
                assert(s[i] != top);
            }
            lemma_distinct_bounded(s, (n - 1) as nat);
        }
    }
}

proof fn lemma_cycle_before_clearing(a: Seq<MorphMetadata>, b: Seq<MorphMetadata>, g: int, t: int)
    requires
        slots_cleared_only(a, b),
        closes_cycle(b, g, t),
    ensures
        closes_cycle(a, g, t),
{
    let w = choose|w: Seq<usize>| w.len() >= 1 && w[0] as int == t && w.last() as int == g && #[trigger] is_walk(b, w);
    lemma_cleared_edges_within(a, b);
    lemma_walk_within(a, b, w);
}

proof fn lemma_slots_trans(a: Seq<MorphMetadata>, b: Seq<MorphMetadata>, c: Seq<MorphMetadata>)
    requires
        slots_cleared_only(a, b),
        slots_cleared_only(b, c),
    ensures
        slots_cleared_only(a, c),
{
    assert forall|i: int| 0 <= i < a.len() implies #[trigger] slot_cleared_only(a, c, i) by {
        assert(slot_cleared_only(a, b, i));
        assert(slot_cleared_only(b, c, i));
        if let MorphMetadata::Group { indices } = a[i] {
            let bm = member_indices(b[i]);
            let cm = member_indices(c[i]);
            assert(b[i] is Group);
            assert(c[i] is Group);
            assert forall|j: int| 0 <= j < indices@.len() implies #[trigger] cm[j] == indices@[j]
                || (cm[j] == -1 && references_group(a, indices@[j] as int)
                    && closes_cycle(a, i, indices@[j] as int)) by {
                let t = bm[j];
                assert(bm[j] == indices@[j] || (bm[j] == -1 && references_group(a, indices@[j] as int)
                    && closes_cycle(a, i, indices@[j] as int)));
                assert(cm[j] == bm[j] || (cm[j] == -1 && references_group(b, bm[j] as int)
                    && closes_cycle(b, i, bm[j] as int)));
                if cm[j] != t && t == indices@[j] {
                    assert(slot_cleared_only(a, b, t as int));
                    lemma_cycle_before_clearing(a, b, i, t as int);
                }
            }
            assert(cm.len() == indices@.len());
        }
    }
}

proof fn lemma_slots_refl(a: Seq<MorphMetadata>)
    ensures
        slots_cleared_only(a, a),
{
    assert forall|i: int| 0 <= i < a.len() implies #[trigger] slot_cleared_only(a, a, i) by {
        match a[i] {
            MorphMetadata::Bone { .. } => {},
            MorphMetadata::Group { indices } => {},
        }
    }
}

/// Positions of the `true` entries of `s`, in increasing order.
pub open spec fn indices_where(s: Seq<bool>) -> Seq<usize>
    decreases s.len(),
{
    if s.len() == 0 {
        Seq::empty()
    } else if s.last() {
        indices_where(s.drop_last()).push((s.len() - 1) as usize)
    } else {
        indices_where(s.drop_last())
    }
}

/// What one frame's morph update does: first every morph of `resets` has its
/// bone offsets cleared, then every morph of `applies` is applied at its weight.
pub struct MorphUpdate {
    pub resets: Vec<usize>,
    pub applies: Vec<usize>,
}

/// The morph list, repaired so that group expansion never loops, and which
/// morphs were applied in the previous frame.
pub struct MmdMorphController {
    morphs: Vec<MorphMetadata>,
    active_morphs: Vec<bool>,
}

fn indices_of_true(s: &Vec<bool>) -> (r: Vec<usize>)
    ensures
        r@ == indices_where(s@),
{
    let mut r: Vec<usize> = Vec::new();
    let mut i: usize = 0;
    while i < s.len()
        invariant
            i <= s@.len(),
            r@ == indices_where(s@.subrange(0, i as int)),
        decreases s.len() - i,
    {
        proof {
            assert(s@.subrange(0, i + 1).drop_last() =~= s@.subrange(0, i as int));
        }
        if s[i] {
            r.push(i);
        }
        i = i + 1;
    }
    assert(s@.subrange(0, s@.len() as int) =~= s@);
    r
}

impl MmdMorphController {
    pub closed spec fn spec_morphs(&self) -> Seq<MorphMetadata> {
        self.morphs@
    }

    pub closed spec fn spec_active_morphs(&self) -> Seq<bool> {
        self.active_morphs@
    }

    /// Takes the morph list, clearing each group slot that would make group
    /// expansion re-enter a morph already being expanded; no morph is active.
    pub fn new(morphs: Vec<MorphMetadata>) -> (r: Self)
        requires
            morphs@.len() <= i32::MAX,
        ensures
            slots_cleared_only(morphs@, r.spec_morphs()),
            morphs_acyclic(r.spec_morphs()),
            r.spec_active_morphs() == Seq::new(morphs@.len(), |i: int| false),
    {
        let mut morphs = morphs;
        let ghost m0 = morphs@;
        let n = morphs.len();
        let mut path: Vec<usize> = Vec::new();
        let mut i: usize = 0;
        proof {
            lemma_slots_refl(m0);
        }
        while i < n
            invariant
                morphs@.len() == n,
                n <= i32::MAX,
                i <= n,
                path@.len() == 0,
                slots_cleared_only(m0, morphs@),
                forall|k: int| 0 <= k < i ==> #[trigger] no_return(morphs@, k, seq![k as usize]),
            decreases n - i,
        {
            let ghost before = morphs@;
            proof {
                assert forall|k: int| 0 <= k < path@.push(i).len() - 1 implies #[trigger] has_edge(
                    morphs@, path@.push(i)[k] as int, path@.push(i)[k + 1] as int) by {}
                assert(path@.push(i) =~= seq![i]);
            }
            fix_looping_group_morphs(&mut morphs, i, &mut path);
            proof {
                lemma_slots_trans(m0, before, morphs@);
                lemma_cleared_edges_within(before, morphs@);
                assert forall|k: int| 0 <= k <= i implies #[trigger] no_return(morphs@, k, seq![k as usize]) by {
                    if k < i {
                        lemma_no_return_within(before, morphs@, k, seq![k as usize]);
                    } else {
                        assert(path@.push(i) =~= seq![k as usize]);
                    }
                }
            }
            i = i + 1;
        }
        let mut active_morphs: Vec<bool> = Vec::with_capacity(n);
        let mut k: usize = 0;
        while k < n
            invariant
                k <= n,
                active_morphs@ == Seq::new(k as nat, |i: int| false),
            decreases n - k,
        {
            active_morphs.push(false);
            k = k + 1;
            assert(active_morphs@ =~= Seq::new(k as nat, |i: int| false));
        }
        MmdMorphController { morphs, active_morphs }
    }

    pub fn morphs(&self) -> (r: &[MorphMetadata])
        ensures
            r@ == self.spec_morphs(),
    {
        self.morphs.as_slice()
    }

    pub fn active_morphs(&self) -> (r: &[bool])
        ensures
            r@ == self.spec_active_morphs(),
    {
        self.active_morphs.as_slice()
    }

    /// The bone morphs that morph `i` reaches, in the order they are applied,
    /// each with the group slots that lead to it. A bone morph reaches itself.
    pub fn group_morph_flat_foreach(&self, i: usize) -> (r: Vec<FlatMorph>)
        ensures
            flat_view(r@) == flat(self.spec_morphs(), i as int, Seq::empty(), Seq::empty()),
    {
        let mut path: Vec<usize> = Vec::new();
        let mut edges: Vec<(usize, usize)> = Vec::new();
        let mut out: Vec<FlatMorph> = Vec::new();
        if i >= self.morphs.len() {
            return out;
        }
        flatten_index(&self.morphs, i, &mut path, &mut edges, &mut out);
        assert(flat_view(out@) =~= flat(self.spec_morphs(), i as int, Seq::empty(), Seq::empty()));
        out
    }

    /// Starts a frame: every morph active in the previous frame is reset,
    /// and every morph whose weight is non-zero becomes active and is applied.
    pub fn update(&mut self, weight_nonzero: &Vec<bool>) -> (r: MorphUpdate)
        requires
            weight_nonzero@.len() == old(self).spec_morphs().len(),
        ensures
            r.resets@ == indices_where(old(self).spec_active_morphs()),
            r.applies@ == indices_where(weight_nonzero@),
            final(self).spec_active_morphs() == weight_nonzero@,
            final(self).spec_morphs() == old(self).spec_morphs(),
    {
        let resets = indices_of_true(&self.active_morphs);
        let applies = indices_of_true(weight_nonzero);
        let mut active: Vec<bool> = Vec::with_capacity(weight_nonzero.len());
        let mut i: usize = 0;
        while i < weight_nonzero.len()
            invariant
                i <= weight_nonzero@.len(),
                active@ == weight_nonzero@.subrange(0, i as int),
            decreases weight_nonzero.len() - i,
        {
            active.push(weight_nonzero[i]);
            i = i + 1;
        }
        assert(active@ =~= weight_nonzero@);
        self.active_morphs = active;
        MorphUpdate { resets, applies }
    }
}

} // verus!
