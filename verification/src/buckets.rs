//! Size buckets: the scanned files grouped by byte count.
//!
//! A scan may hold very many files, nearly all of them with a size of their
//! own, so the sizes seen so far are looked up in a hash map instead of being
//! compared one by one.

use crate::grouping::alike;
use crate::grouping::firsts;
use crate::grouping::grouping;
use crate::grouping::is_first;
use crate::grouping::key_ids;
use crate::grouping::lemma_filter_positions;
use crate::grouping::lemma_grouping_by_firsts;
use crate::grouping::members;
use crate::grouping::members_at;
use crate::grouping::peers_of;
use crate::grouping::plural;
use crate::grouping::positions;
use std::collections::HashMap;
use vstd::prelude::*;

verus! {

/// The first position of each group of `all`.
spec fn heads(all: Seq<Vec<usize>>) -> Seq<usize> {
    Seq::new(all.len(), |a: int| all[a]@[0])
}

/// How far the bucketing has come after the first `i` positions: `all` holds,
/// for each size seen, the positions seen with it, in the order in which the
/// sizes were first seen, and `index` tells where each size's positions are.
spec fn bucketed(
    ids: Seq<Option<u64>>,
    i: int,
    index: Map<u64, usize>,
    all: Seq<Vec<usize>>,
) -> bool {
    &&& forall|a: int|
        0 <= a < all.len() ==> {
            &&& (#[trigger] all[a])@.len() >= 1
            &&& all[a]@[0] < i
            &&& ids[all[a]@[0] as int] is Some
            &&& index.contains_key(ids[all[a]@[0] as int].unwrap())
            &&& index[ids[all[a]@[0] as int].unwrap()] == a
            &&& all[a]@ == positions(ids.len()).take(i).filter(peers_of(ids, all[a]@[0] as int))
        }
    &&& forall|size: u64| #[trigger]
        index.contains_key(size) ==> index[size] < all.len() && ids[all[index[size] as int]@[0] as int]
            == Some(size)
    &&& forall|j: int| 0 <= j < i && (#[trigger] ids[j]) is Some ==> index.contains_key(ids[j].unwrap())
    &&& heads(all) == positions(ids.len()).take(i).filter(firsts(ids))
}

proof fn lemma_next_position(n: nat, i: int, pred: spec_fn(usize) -> bool)
    requires
        0 <= i < n <= usize::MAX,
    ensures
        positions(n).take(i + 1).filter(pred) == if pred(i as usize) {
            positions(n).take(i).filter(pred).push(i as usize)
        } else {
            positions(n).take(i).filter(pred)
        },
        forall|k: int|
            0 <= k < positions(n).take(i).filter(pred).len() ==> (#[trigger] positions(n).take(
                i,
            ).filter(pred)[k]) < i && pred(positions(n).take(i).filter(pred)[k]),
{
    let before = positions(n).take(i);
    assert(positions(n).take(i + 1) =~= before.push(i as usize));
    before.lemma_filter_push(i as usize, pred);
    assert(before =~= positions(i as nat));
    lemma_filter_positions(i as nat, pred);
}

/// Buckets the positions of `sizes` by size: for each size that at least two
/// positions bear, those positions in ascending order, the buckets in the
/// order of their first positions.
pub fn size_buckets(sizes: &Vec<Option<u64>>) -> (buckets: Vec<Vec<usize>>)
    ensures
        buckets.deep_view() == grouping(key_ids(sizes@)),
{
    broadcast use vstd::std_specs::hash::group_hash_axioms;

    let ghost ids = key_ids(sizes@);
    let n = sizes.len();
    let mut index: HashMap<u64, usize> = HashMap::new();
    let mut all: Vec<Vec<usize>> = Vec::new();
    let mut i: usize = 0;
    proof {
        reveal(Seq::filter);
        assert(positions(n as nat).take(0) =~= Seq::<usize>::empty());
        assert(heads(all@) =~= positions(n as nat).take(0).filter(firsts(ids)));
    }
    while i < n
        invariant
            i <= n,
            n == sizes.len(),
            ids == key_ids(sizes@),
            bucketed(ids, i as int, index@, all@),
        decreases n - i,
    {
        let ghost before = all@;
        let ghost known = index@;
        proof {
            assert(ids[i as int] == sizes@[i as int]);
            lemma_next_position(n as nat, i as int, firsts(ids));
            assert forall|a: int| 0 <= a < before.len() implies #[trigger] positions(
                n as nat,
            ).take(i as int + 1).filter(peers_of(ids, before[a]@[0] as int)) == if alike(
                ids,
                before[a]@[0] as int,
                i as int,
            ) {
                before[a]@.push(i)
            } else {
                before[a]@
            } by {
                lemma_next_position(n as nat, i as int, peers_of(ids, before[a]@[0] as int));
            }
        }
        match sizes[i] {
            None => {
                assert(!is_first(ids, i as int));
            },
            Some(size) => {
                let place = match index.get(&size) {
                    Some(at) => Some(*at),
                    None => None,
                };
                match place {
                    Some(at) => {
                        all[at].push(i);
                        proof {
                            assert(!is_first(ids, i as int)) by {
                                assert(ids[before[at as int]@[0] as int] == ids[i as int]);
                            }
                            assert(heads(all@) =~= heads(before));
                            assert forall|a: int| 0 <= a < all@.len() implies (#[trigger] all@[a])@
                                == positions(n as nat).take(i as int + 1).filter(
                                peers_of(ids, all@[a]@[0] as int),
                            ) by {
                                assert(before[a]@[0] == all@[a]@[0]);
                                if a != at {
                                    assert(all@[a] == before[a]);
                                }
                            }
                        }
                    },
                    None => {
                        index.insert(size, all.len());
                        let mut group: Vec<usize> = Vec::new();
                        group.push(i);
                        all.push(group);
                        proof {
                            lemma_next_position(n as nat, i as int, peers_of(ids, i as int));
                            let earlier = positions(n as nat).take(i as int).filter(
                                peers_of(ids, i as int),
                            );
                            if earlier.len() > 0 {
                                let x = earlier[0];
                                assert(peers_of(ids, i as int)(x));
                                assert(ids[x as int] is Some);
                                assert(false);
                            }
                            assert(group@ =~= earlier.push(i));
                            assert(is_first(ids, i as int)) by {
                                assert forall|k: int| 0 <= k < i implies #[trigger] ids[k]
                                    != ids[i as int] by {
                                    if ids[k] == ids[i as int] {
                                        assert(known.contains_key(ids[k].unwrap()));
                                    }
                                }
                            }
                            assert(heads(all@) =~= heads(before).push(i));
                            assert forall|a: int| 0 <= a < all@.len() implies (#[trigger] all@[a])@
                                == positions(n as nat).take(i as int + 1).filter(
                                peers_of(ids, all@[a]@[0] as int),
                            ) by {
                                if a < before.len() {
                                    assert(all@[a] == before[a]);
                                }
                            }
                        }
                    },
                }
            },
        }
        i = i + 1;
    }
    let mut buckets: Vec<Vec<usize>> = Vec::new();
    let mut a: usize = 0;
    proof {
        reveal(Seq::filter);
        assert(positions(n as nat).take(n as int) =~= positions(n as nat));
        assert(heads(all@).take(0) =~= Seq::<usize>::empty());
        assert(buckets.deep_view() =~= heads(all@).take(0).filter(plural(ids)).map_values(
            members_at(ids),
        ));
    }
    while a < all.len()
        invariant
            a <= all.len(),
            n == ids.len(),
            forall|b: int|
                0 <= b < all@.len() ==> (#[trigger] all@[b])@ == members(ids, heads(all@)[b] as int),
            buckets.deep_view() == heads(all@).take(a as int).filter(plural(ids)).map_values(
                members_at(ids),
            ),
        decreases all.len() - a,
    {
        proof {
            let seen = heads(all@).take(a as int);
            let head = heads(all@)[a as int];
            assert(heads(all@).take(a as int + 1) =~= seen.push(head));
            seen.lemma_filter_push(head, plural(ids));
            seen.filter(plural(ids)).lemma_push_map_commute(members_at(ids), head);
        }
        if all[a].len() >= 2 {
            let bucket = all[a].clone();
            let ghost earlier = buckets.deep_view();
            assert(bucket@ =~= all@[a as int]@);
            assert(bucket.deep_view() =~= bucket@);
            buckets.push(bucket);
            assert(buckets.deep_view() =~= earlier.push(all@[a as int]@));
        }
        a = a + 1;
    }
    proof {
        assert(heads(all@).take(a as int) =~= heads(all@));
        lemma_grouping_by_firsts(ids);
    }
    buckets
}

} // verus!
