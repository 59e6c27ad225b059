use vstd::prelude::*;
use crate::text::str_eq;

verus! {

/// The values paired with `key` in `pairs`, in their order.
pub open spec fn values_for<V>(pairs: Seq<(Seq<char>, V)>, key: Seq<char>) -> Seq<V>
    decreases pairs.len(),
{
    if pairs.len() == 0 {
        seq![]
    } else {
        let rest = values_for(pairs.drop_last(), key);
        if pairs.last().0 == key {
            rest.push(pairs.last().1)
        } else {
            rest
        }
    }
}

/// `groups` holds one entry per key of `pairs`: no key twice, every key of
/// `pairs` present, and with each key the values paired with it, in order.
pub open spec fn is_grouping<V>(pairs: Seq<(Seq<char>, V)>, groups: Seq<(Seq<char>, Seq<V>)>) -> bool {
    &&& forall|a: int, b: int| 0 <= a < b < groups.len() ==> groups[a].0 != groups[b].0
    &&& forall|a: int|
        0 <= a < groups.len() ==> #[trigger] groups[a].1 == values_for(pairs, groups[a].0)
            && groups[a].1.len() > 0
    &&& forall|j: int|
        0 <= j < pairs.len() ==> exists|a: int| 0 <= a < groups.len() && #[trigger] groups[a].0 == #[trigger] pairs[j].0
}

/// The pairs seen through the view of their keys.
pub open spec fn keyed<'a, V>(pairs: Seq<(&'a str, V)>) -> Seq<(Seq<char>, V)> {
    pairs.map_values(|p: (&'a str, V)| (p.0@, p.1))
}

/// The groups seen through the views of their keys and value vectors.
pub open spec fn grouped<'a, V>(groups: Seq<(&'a str, Vec<V>)>) -> Seq<(Seq<char>, Seq<V>)> {
    groups.map_values(|g: (&'a str, Vec<V>)| (g.0@, g.1@))
}

/// A key that does not occur in `pairs` has no values.
pub proof fn lemma_values_for_absent<V>(pairs: Seq<(Seq<char>, V)>, key: Seq<char>)
    requires
        forall|j: int| 0 <= j < pairs.len() ==> pairs[j].0 != key,
    ensures
        values_for(pairs, key) == Seq::<V>::empty(),
    decreases pairs.len(),
{
    if pairs.len() > 0 {
        lemma_values_for_absent(pairs.drop_last(), key);
    }
}

/// Gathers the values of `pairs` by key.
pub fn group_by_key<'a, V>(pairs: Vec<(&'a str, V)>) -> (groups: Vec<(&'a str, Vec<V>)>)
    ensures
        is_grouping(keyed(pairs@), grouped(groups@)),
{
    let ghost all = keyed(pairs@);
    let mut groups: Vec<(&'a str, Vec<V>)> = Vec::new();
    let n = pairs.len();
    let mut idx: usize = 0;
    for p in it: pairs.into_iter()
        invariant
            idx == it.index@,
            it.seq() == pairs@,
            all == keyed(pairs@),
            n == pairs@.len(),
            is_grouping(all.take(idx as int), grouped(groups@)),
    {
        let ghost before = all.take(idx as int);
        let ghost after = all.take(idx + 1);
        assert(after.drop_last() =~= before);
        let (k, v) = p;
        assert(all[idx as int] == (k@, v));
        let ghost old_groups = grouped(groups@);
        let mut j: usize = 0;
        while j < groups.len() && !str_eq(groups[j].0, k)
            invariant
                j <= groups.len(),
                forall|a: int| 0 <= a < j ==> groups@[a].0@ != k@,
            decreases groups.len() - j,
        {
            j = j + 1;
        }
        proof {
            assert forall|key: Seq<char>|
                #[trigger] values_for(after, key) == if key == k@ {
                    values_for(before, key).push(v)
                } else {
                    values_for(before, key)
                } by {
                assert(after.last() == (k@, v));
            }
        }
        if j < groups.len() {
            groups[j].1.push(v);
            proof {
                let ng = grouped(groups@);
                assert(ng.len() == old_groups.len());
                assert forall|a: int| 0 <= a < ng.len() && a != j implies ng[a] == old_groups[a] by {}
                assert(ng[j as int].0 == k@);
                assert(ng[j as int].1 == old_groups[j as int].1.push(v));
                assert(is_grouping(after, ng)) by {
                    assert forall|a: int| 0 <= a < ng.len() implies #[trigger] ng[a].1 == values_for(after, ng[a].0)
                        && ng[a].1.len() > 0 by {
                        if a != j {
                            assert(old_groups[a].0 != old_groups[j as int].0);
                        }
                    }
                    assert forall|jj: int| 0 <= jj < after.len() implies exists|a: int| 0 <= a < ng.len() && #[trigger] ng[a].0 == #[trigger] after[jj].0 by {
                        if jj < idx {
                            assert(after[jj] == before[jj]);
                            let a = choose|a: int| 0 <= a < old_groups.len() && #[trigger] old_groups[a].0 == #[trigger] before[jj].0;
                            assert(ng[a].0 == after[jj].0);
                        } else {
                            assert(ng[j as int].0 == after[jj].0);
                        }
                    }
                }
            }
        } else {
            let ghost before_groups = groups@;
            let mut vs: Vec<V> = Vec::new();
            vs.push(v);
            groups.push((k, vs));
            proof {
                let ng = grouped(groups@);
                assert(ng.len() == old_groups.len() + 1);
                assert forall|a: int| 0 <= a < old_groups.len() implies ng[a] == old_groups[a] by {
                    assert(groups@[a] == before_groups[a]);
                }
                assert forall|jj: int| 0 <= jj < before.len() implies before[jj].0 != k@ by {
                    let a = choose|a: int| 0 <= a < old_groups.len() && #[trigger] old_groups[a].0 == #[trigger] before[jj].0;
                }
                lemma_values_for_absent(before, k@);
                assert(ng[old_groups.len() as int].1 =~= seq![v]);
                assert(is_grouping(after, ng)) by {
                    assert forall|a: int| 0 <= a < ng.len() implies #[trigger] ng[a].1 == values_for(after, ng[a].0)
                        && ng[a].1.len() > 0 by {
                        if a < old_groups.len() {
                        }
                    }
                    assert forall|jj: int| 0 <= jj < after.len() implies exists|a: int| 0 <= a < ng.len() && #[trigger] ng[a].0 == #[trigger] after[jj].0 by {
                        if jj < idx {
                            assert(after[jj] == before[jj]);
                            let a = choose|a: int| 0 <= a < old_groups.len() && #[trigger] old_groups[a].0 == #[trigger] before[jj].0;
                            assert(ng[a].0 == after[jj].0);
                        } else {
                            assert(ng[old_groups.len() as int].0 == after[jj].0);
                        }
                    }
                }
            }
        }
        idx = idx + 1;
    }
    assert(all.take(all.len() as int) =~= all);
    groups
}

} // verus!
