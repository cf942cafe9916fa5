//! The class labels that naive Bayes models (and class-wise statistics) are
//! fitted over.

use vstd::prelude::*;

verus! {

/// `s` is strictly increasing.
pub open spec fn increasing_i32(s: Seq<i32>) -> bool {
    forall|a: int, b: int| 0 <= a < b < s.len() ==> #[trigger] s[a] < #[trigger] s[b]
}

/// The distinct class labels of `labels`, in increasing order.
pub fn class_labels(labels: &Vec<i32>) -> (classes: Vec<i32>)
    ensures
        increasing_i32(classes@),
        forall|c: i32| #[trigger] classes@.contains(c) <==> labels@.contains(c),
{
    let mut classes: Vec<i32> = Vec::new();
    let mut i: usize = 0;
    while i < labels.len()
        invariant
            i <= labels@.len(),
            increasing_i32(classes@),
            forall|c: i32| #[trigger] classes@.contains(c) <==> labels@.subrange(0, i as int).contains(c),
        decreases labels@.len() - i,
    {
        let ghost pre = labels@.subrange(0, i as int);
        insert_sorted_i32(&mut classes, labels[i]);
        proof {
            let next = labels@.subrange(0, i + 1);
            assert(next =~= pre.push(labels@[i as int]));
            assert forall|c: i32| #[trigger] next.contains(c) <==> (pre.contains(c) || c == labels@[i as int]) by {
                if next.contains(c) {
                    let k = choose|k: int| 0 <= k < next.len() && next[k] == c;
                    if k < i {
                        assert(pre[k] == c);
                    }
                }
                if pre.contains(c) {
                    let k = choose|k: int| 0 <= k < pre.len() && pre[k] == c;
                    assert(next[k] == c);
                }
                if c == labels@[i as int] {
                    assert(next[i as int] == c);
                }
            }
        }
        i = i + 1;
    }
    proof {
        assert(labels@.subrange(0, labels@.len() as int) =~= labels@);
    }
    classes
}

/// Inserts `x` into the strictly increasing `v`, unless it is there already.
fn insert_sorted_i32(v: &mut Vec<i32>, x: i32)
    requires
        increasing_i32(old(v)@),
    ensures
        increasing_i32(final(v)@),
        forall|y: i32| #[trigger] final(v)@.contains(y) <==> (old(v)@.contains(y) || y == x),
{
    let mut p: usize = 0;
    while p < v.len() && v[p] < x
        invariant
            v@ == old(v)@,
            p <= v@.len(),
            forall|k: int| 0 <= k < p ==> #[trigger] v@[k] < x,
        decreases v@.len() - p,
    {
        p = p + 1;
    }
    if p < v.len() && v[p] == x {
        proof {
            assert(v@[p as int] == x);
        }
        return;
    }
    let ghost v0 = v@;
    v.insert(p, x);
    proof {
        assert(v@ =~= v0.insert(p as int, x));
        assert forall|a: int, b: int| 0 <= a < b < v@.len() implies #[trigger] v@[a] < #[trigger] v@[b] by {
            if b < p {
                assert(v@[a] == v0[a] && v@[b] == v0[b]);
            } else if b == p as int {
                assert(v@[a] == v0[a]);
            } else if a < p {
                assert(v@[a] == v0[a] && v@[b] == v0[b - 1]);
                if b - 1 > p {
                    assert(v0[p as int] < v0[b - 1]);
                }
            } else if a == p as int {
                assert(v@[b] == v0[b - 1]);
                if b - 1 > p {
                    assert(v0[p as int] < v0[b - 1]);
                }
            } else {
                assert(v@[a] == v0[a - 1] && v@[b] == v0[b - 1]);
            }
        }
        assert forall|y: i32| #[trigger] v@.contains(y) <==> (v0.contains(y) || y == x) by {
            if v@.contains(y) {
                let k = choose|k: int| 0 <= k < v@.len() && v@[k] == y;
                if k < p {
                    assert(v0[k] == y);
                } else if k > p {
                    assert(v0[k - 1] == y);
                }
            }
            if v0.contains(y) {
                let k = choose|k: int| 0 <= k < v0.len() && v0[k] == y;
                if k < p {
                    assert(v@[k] == y);
                } else {
                    assert(v@[k + 1] == y);
                }
            }
            if y == x {
                assert(v@[p as int] == x);
            }
        }
    }
}

} // verus!
