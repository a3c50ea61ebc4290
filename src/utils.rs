use vstd::prelude::*;

use crate::path::strings_view;

verus! {

/// `r` groups the positions of `keys` by equal key: each group holds its
/// key and the positions with that key in increasing order, and the groups
/// come in the order of their first positions.
pub open spec fn is_grouping(keys: Seq<Seq<char>>, r: Seq<(String, Vec<usize>)>) -> bool {
    &&& forall|g: int| 0 <= g < r.len() ==> (#[trigger] r[g]).1@.len() > 0
    &&& forall|g: int, k: int|
        0 <= g < r.len() && 0 <= k < r[g].1@.len() ==> (#[trigger] r[g].1@[k]) < keys.len()
            && keys[r[g].1@[k] as int] == r[g].0@
    &&& forall|g: int, k1: int, k2: int|
        0 <= g < r.len() && 0 <= k1 < k2 < r[g].1@.len() ==> (#[trigger] r[g].1@[k1]) < (
        #[trigger] r[g].1@[k2])
    &&& forall|g1: int, g2: int|
        0 <= g1 < g2 < r.len() ==> (#[trigger] r[g1]).0@ != (#[trigger] r[g2]).0@ && r[g1].1@[0]
            < r[g2].1@[0]
    &&& forall|i: int| 0 <= i < keys.len() ==> #[trigger] in_some_group(r, i)
}

/// Position `i` is in one of the groups.
pub open spec fn in_some_group(r: Seq<(String, Vec<usize>)>, i: int) -> bool {
    exists|g: int, k: int| 0 <= g < r.len() && 0 <= k < r[g].1@.len() && #[trigger] r[g].1@[k] == i
}

/// Groups the positions of `keys` by equal key.
pub fn group_equal_by_key(keys: &Vec<String>) -> (r: Vec<(String, Vec<usize>)>)
    ensures
        is_grouping(strings_view(keys@), r@),
{
    let ghost kv = strings_view(keys@);
    let mut groups: Vec<(String, Vec<usize>)> = Vec::new();
    let mut i: usize = 0;
    while i < keys.len()
        invariant
            i <= keys.len(),
            kv == strings_view(keys@),
            is_grouping(kv.subrange(0, i as int), groups@),
            forall|g: int, k: int|
                0 <= g < groups@.len() && 0 <= k < groups@[g].1@.len() ==> (
                #[trigger] groups@[g].1@[k]) < i,
        decreases keys.len() - i,
    {
        assert(kv[i as int] == keys@[i as int]@);
        let mut g: usize = 0;
        while g < groups.len()
            invariant
                g <= groups.len(),
                i < keys.len(),
                kv == strings_view(keys@),
                kv[i as int] == keys@[i as int]@,
                forall|h: int| 0 <= h < g ==> (#[trigger] groups@[h]).0@ != kv[i as int],
            ensures
                g <= groups.len(),
                g < groups.len() ==> groups@[g as int].0@ == kv[i as int],
                forall|h: int| 0 <= h < g ==> (#[trigger] groups@[h]).0@ != kv[i as int],
            decreases groups.len() - g,
        {
            if groups[g].0 == keys[i] {
                break;
            }
            g = g + 1;
        }
        let ghost before = groups@;
        let ghost pre = kv.subrange(0, i as int);
        let ghost post = kv.subrange(0, i + 1);
        assert forall|j: int| 0 <= j < i implies post[j] == pre[j] by {}
        if g < groups.len() {
            let mut members = groups[g].1.clone();
            let ghost old_members = members@;
            members.push(i);
            let key = groups[g].0.clone();
            groups.set(g, (key, members));
            proof {
                assert forall|h: int| 0 <= h < groups@.len() && h != g implies #[trigger] groups@[h]
                    == before[h] by {}
                assert(groups@[g as int].1@ == old_members.push(i));
                assert(is_grouping(post, groups@)) by {
                    assert forall|j: int| 0 <= j < post.len() implies #[trigger] in_some_group(
                        groups@,
                        j,
                    ) by {
                        if j < i {
                            assert(in_some_group(before, j));
                            let (h, k) = choose|h: int, k: int|
                                0 <= h < before.len() && 0 <= k < before[h].1@.len()
                                    && #[trigger] before[h].1@[k] == j;
                            if h == g {
                                assert(groups@[h].1@[k] == j);
                            } else {
                                assert(groups@[h] == before[h]);
                            }
                        } else {
                            assert(groups@[g as int].1@[old_members.len() as int] == j);
                        }
                    }
                }
            }
        } else {
            let mut members: Vec<usize> = Vec::new();
            members.push(i);
            groups.push((keys[i].clone(), members));
            proof {
                assert forall|h: int| 0 <= h < before.len() implies #[trigger] groups@[h]
                    == before[h] by {}
                assert(is_grouping(post, groups@)) by {
                    assert forall|j: int| 0 <= j < post.len() implies #[trigger] in_some_group(
                        groups@,
                        j,
                    ) by {
                        if j < i {
                            assert(in_some_group(before, j));
                            let (h, k) = choose|h: int, k: int|
                                0 <= h < before.len() && 0 <= k < before[h].1@.len()
                                    && #[trigger] before[h].1@[k] == j;
                            assert(groups@[h] == before[h]);
                        } else {
                            assert(groups@[before.len() as int].1@[0] == j);
                        }
                    }
                }
            }
        }
        i = i + 1;
    }
    assert(kv.subrange(0, i as int) =~= kv);
    groups
}

} // verus!
