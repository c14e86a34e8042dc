use vstd::prelude::*;

verus! {

/// Bone `a` is evaluated before bone `b`: a smaller transform order first,
/// and among equal transform orders the smaller index first.
pub open spec fn evaluated_before(orders: Seq<i32>, a: usize, b: usize) -> bool {
    orders[a as int] < orders[b as int] || (orders[a as int] == orders[b as int] && a < b)
}

/// `s` lists every bone exactly once, in evaluation order.
pub open spec fn is_evaluation_order(orders: Seq<i32>, s: Seq<usize>) -> bool {
    &&& s.len() == orders.len()
    &&& forall|j: int| 0 <= j < s.len() ==> s[j] < orders.len()
    &&& forall|j: int, k: int|
        0 <= j < k < s.len() ==> #[trigger] evaluated_before(orders, s[j], s[k])
}

/// All bone indices sorted by transform order, ascending; bones with equal
/// transform order keep their index order (a stable sort).
pub fn sorted_bone_order(orders: &Vec<i32>) -> (r: Vec<usize>)
    ensures
        is_evaluation_order(orders@, r@),
{
    let n = orders.len();
    let mut r: Vec<usize> = Vec::with_capacity(n);
    let mut i: usize = 0;
    while i < n
        invariant
            n == orders.len(),
            i <= n,
            r.len() == i,
            forall|j: int| 0 <= j < r.len() ==> r[j] < i,
            forall|j: int, k: int|
                0 <= j < k < r.len() ==> #[trigger] evaluated_before(orders@, r[j], r[k]),
        decreases n - i,
    {
        let key = orders[i];
        let mut pos: usize = r.len();
        while pos > 0 && orders[r[pos - 1]] > key
            invariant
                n == orders.len(),
                i < n,
                key == orders[i as int],
                pos <= r.len(),
                r.len() == i,
                forall|j: int| 0 <= j < r.len() ==> r[j] < i,
                forall|j: int| pos <= j < r.len() ==> orders@[r[j] as int] > key,
            decreases pos,
        {
            pos = pos - 1;
        }
        proof {
            assert forall|j: int| 0 <= j < pos implies evaluated_before(orders@, r[j], i) by {
                if j < pos - 1 {
                    assert(evaluated_before(orders@, r[j], r[pos - 1]));
                }
            }
        }
        let ghost old_r = r@;
        r.insert(pos, i);
        proof {
            assert forall|j: int, k: int| 0 <= j < k < r.len() implies #[trigger] evaluated_before(
                orders@,
                r[j],
                r[k],
            ) by {
                if k < pos {
                    assert(evaluated_before(orders@, old_r[j], old_r[k]));
                } else if k == pos {
                } else if j < pos {
                    assert(evaluated_before(orders@, old_r[j], old_r[k - 1]));
                } else if j == pos {
                } else {
                    assert(evaluated_before(orders@, old_r[j - 1], old_r[k - 1]));
                }
            }
        }
        i = i + 1;
    }
    r
}

} // verus!
