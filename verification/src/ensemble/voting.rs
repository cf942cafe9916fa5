//! Majority voting.

use vstd::prelude::*;

verus! {

/// Voting type of a voting classifier.
#[derive(Debug, Clone, Copy)]
pub enum VotingType {
    /// Majority voting on predicted class labels
    Hard,
    /// Average predicted probabilities (requires predict_proba)
    Soft,
}

/// The number of votes for class `c`.
pub open spec fn votes(classes: Seq<i32>, c: i32) -> nat {
    classes.to_multiset().count(c)
}

/// `r` wins the vote: no class has more votes, and among the classes with as
/// many votes it is the first to appear.
pub open spec fn vote_winner(classes: Seq<i32>, r: i32) -> bool {
    exists|k: int| 0 <= k < classes.len() && #[trigger] classes[k] == r
        && (forall|j: int| 0 <= j < classes.len() ==> #[trigger] votes(classes, classes[j]) <= votes(classes, r))
        && (forall|j: int| 0 <= j < k ==> #[trigger] votes(classes, classes[j]) < votes(classes, r))
}

/// Majority vote over class labels: the class with the most votes, ties
/// going to the class that appears first; 0 when there are no votes.
pub fn majority_vote(classes: &Vec<i32>) -> (r: i32)
    ensures
        classes@.len() == 0 ==> r == 0,
        classes@.len() > 0 ==> vote_winner(classes@, r),
{
    broadcast use vstd::seq_lib::group_to_multiset_ensures;
    let n = classes.len();
    if n == 0 {
        return 0;
    }
    // distinct classes in order of first appearance, with their counts
    let mut distinct: Vec<i32> = Vec::new();
    let mut first: Vec<usize> = Vec::new();
    let mut counts: Vec<usize> = Vec::new();
    let mut i: usize = 0;
    while i < n
        invariant
            n == classes@.len(),
            n > 0,
            i <= n,
            i > 0 ==> distinct@.len() > 0,
            distinct@.len() == counts@.len(),
            distinct@.len() == first@.len(),
            forall|g: int| 0 <= g < distinct@.len() ==>
                (#[trigger] counts@[g]) == classes@.subrange(0, i as int).to_multiset().count(distinct@[g]),
            forall|g: int| 0 <= g < distinct@.len() ==> (#[trigger] first@[g]) < i && classes@[first@[g] as int] == distinct@[g],
            forall|g: int| 0 <= g < distinct@.len() ==>
                forall|j: int| 0 <= j < first@[g] ==> classes@[j] != #[trigger] distinct@[g],
            forall|g1: int, g2: int| 0 <= g1 < g2 < distinct@.len() ==> #[trigger] first@[g1] < #[trigger] first@[g2],
            forall|j: int| #![trigger classes@[j]] 0 <= j < i ==> exists|g: int| 0 <= g < distinct@.len() && #[trigger] distinct@[g] == classes@[j],
            forall|g1: int, g2: int| 0 <= g1 < distinct@.len() && 0 <= g2 < distinct@.len() && g1 != g2 ==>
                #[trigger] distinct@[g1] != #[trigger] distinct@[g2],
        decreases n - i,
    {
        let c = classes[i];
        let ghost distinct0 = distinct@;
        let ghost pre = classes@.subrange(0, i as int);
        let ghost post = classes@.subrange(0, i + 1);
        proof {
            assert(post =~= pre.push(c));
        }
        let mut g: usize = 0;
        while g < distinct.len() && distinct[g] != c
            invariant
                g <= distinct@.len(),
                forall|h: int| 0 <= h < g ==> distinct@[h] != c,
            decreases distinct@.len() - g,
        {
            g = g + 1;
        }
        if g == distinct.len() {
            proof {
                assert(!pre.contains(c)) by {
                    if pre.contains(c) {
                        let j = choose|j: int| 0 <= j < pre.len() && pre[j] == c;
                        assert(classes@[j] == c);
                        let h = choose|h: int| 0 <= h < distinct@.len() && #[trigger] distinct@[h] == classes@[j];
                    }
                }
                vstd::seq_lib::to_multiset_contains(pre, c);
                assert(pre.to_multiset().count(c) == 0);
            }
            let ghost counts0 = counts@;
            distinct.push(c);
            first.push(i);
            counts.push(1);
            proof {
                vstd::seq_lib::to_multiset_build(pre, c);
                assert forall|h: int| 0 <= h < distinct@.len() implies
                    (#[trigger] counts@[h]) == post.to_multiset().count(distinct@[h]) by {
                    if h < counts0.len() {
                        assert(counts@[h] == counts0[h]);
                        assert(distinct@[h] != c);
                    }
                }
            }
        } else {
            let old_count = counts[g];
            proof {
                assert(counts@[g as int] == pre.to_multiset().count(c));
                assert(pre.to_multiset().count(c) <= pre.len()) by {
                    vstd::seq_lib::to_multiset_len(pre);
                    assert(pre.to_multiset().count(c) <= pre.to_multiset().len());
                }
            }
            let ghost counts0 = counts@;
            counts.set(g, old_count + 1);
            proof {
                vstd::seq_lib::to_multiset_build(pre, c);
                assert forall|h: int| 0 <= h < distinct@.len() implies
                    (#[trigger] counts@[h]) == post.to_multiset().count(distinct@[h]) by {
                    if h != g as int {
                        assert(counts@[h] == counts0[h]);
                        assert(distinct@[h] != c);
                    }
                }
            }
        }
        proof {
            assert forall|j: int| #![trigger classes@[j]] 0 <= j < i + 1 implies exists|h: int| 0 <= h < distinct@.len() && #[trigger] distinct@[h] == classes@[j] by {
                if j == i as int {
                    assert(distinct@[g as int] == c);
                } else {
                    let h = choose|h: int| 0 <= h < distinct0.len() && #[trigger] distinct0[h] == classes@[j];
                    assert(distinct@[h] == distinct0[h]);
                }
            }
        }
        i = i + 1;
    }
    proof {
        assert(classes@.subrange(0, n as int) =~= classes@);
    }
    // first class with the largest count
    let mut best: usize = 0;
    let mut g: usize = 1;
    while g < distinct.len()
        invariant
            1 <= g <= distinct@.len(),
            best < g,
            distinct@.len() == counts@.len(),
            distinct@.len() == first@.len(),
            forall|h: int| 0 <= h < distinct@.len() ==> (#[trigger] counts@[h]) == classes@.to_multiset().count(distinct@[h]),
            forall|h: int| 0 <= h < g ==> #[trigger] counts@[h] <= counts@[best as int],
            forall|h: int| 0 <= h < best ==> #[trigger] counts@[h] < counts@[best as int],
        decreases distinct@.len() - g,
    {
        if counts[g] > counts[best] {
            best = g;
        }
        g = g + 1;
    }
    let r = distinct[best];
    proof {
        let k = first@[best as int] as int;
        assert(classes@[k] == r);
        assert forall|j: int| 0 <= j < classes@.len() implies #[trigger] votes(classes@, classes@[j]) <= votes(classes@, r) by {
            let h = choose|h: int| 0 <= h < distinct@.len() && #[trigger] distinct@[h] == classes@[j];
            assert(counts@[h] <= counts@[best as int]);
        }
        assert forall|j: int| 0 <= j < k implies #[trigger] votes(classes@, classes@[j]) < votes(classes@, r) by {
            let h = choose|h: int| 0 <= h < distinct@.len() && #[trigger] distinct@[h] == classes@[j];
            if h >= best as int {
                // class at j first appears at or before j < k = first[best]
                assert(first@[h] <= j);
                if h > best as int {
                    assert(first@[best as int] < first@[h]);
                } else {
                    assert(classes@[j] != distinct@[best as int]);
                }
            }
            assert(counts@[h] < counts@[best as int]);
        }
    }
    r
}

} // verus!
