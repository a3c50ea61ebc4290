//! Reconciling a stored profile with the game's live mod list.

use vstd::prelude::*;

use crate::mod_config::{views_of, Mod, ModView, Mods};

verus! {

/// Some entry of `l` is named `name`.
pub open spec fn has_name(l: Seq<ModView>, name: Seq<char>) -> bool {
    exists|k: int| 0 <= k < l.len() && (#[trigger] l[k]).name == name
}

/// No earlier entry of `l` shares the name of entry `i`.
pub open spec fn is_first(l: Seq<ModView>, i: int) -> bool {
    forall|k: int| 0 <= k < i ==> (#[trigger] l[k]).name != l[i].name
}

/// No two entries of `l` share a name.
pub open spec fn unique_names(l: Seq<ModView>) -> bool {
    forall|a: int, b: int| 0 <= a < b < l.len() ==> (#[trigger] l[a]).name != (#[trigger] l[b]).name
}

/// `r` with the state of `src`: its flags and its workshop id.
pub open spec fn with_state_of(r: ModView, src: ModView) -> ModView {
    ModView {
        enabled: src.enabled,
        name: r.name,
        settings_fold_open: src.settings_fold_open,
        workshop_item_id: src.workshop_item_id,
    }
}

/// A stored entry after the live entries of `live` were applied in order:
/// the last live entry of the same name decides its state.
pub open spec fn updated_by(r: ModView, live: Seq<ModView>) -> ModView
    decreases live.len(),
{
    if live.len() == 0 {
        r
    } else if live.last().name == r.name {
        with_state_of(r, live.last())
    } else {
        updated_by(r, live.drop_last())
    }
}

/// The live entries whose names the stored list lacks, in live order.
pub open spec fn new_entries(stored: Seq<ModView>, live: Seq<ModView>) -> Seq<ModView>
    decreases live.len(),
{
    if live.len() == 0 {
        Seq::empty()
    } else if has_name(stored, live.last().name) {
        new_entries(stored, live.drop_last())
    } else {
        new_entries(stored, live.drop_last()).push(live.last())
    }
}

/// The stored entries, each first entry of a name updated from the live list.
pub open spec fn updated_stored(stored: Seq<ModView>, live: Seq<ModView>) -> Seq<ModView> {
    Seq::new(
        stored.len(),
        |i: int|
            if is_first(stored, i) {
                updated_by(stored[i], live)
            } else {
                stored[i]
            },
    )
}

/// The merge of a stored list with the live list: the stored entries in
/// their order, updated from the live list, then the live entries that the
/// stored list lacks.
pub open spec fn merged(stored: Seq<ModView>, live: Seq<ModView>) -> Seq<ModView> {
    updated_stored(stored, live) + new_entries(stored, live)
}

proof fn lemma_updated_name(r: ModView, live: Seq<ModView>)
    ensures
        updated_by(r, live).name == r.name,
    decreases live.len(),
{
    if live.len() > 0 && live.last().name != r.name {
        lemma_updated_name(r, live.drop_last());
    }
}

proof fn lemma_updated_absent(r: ModView, live: Seq<ModView>)
    requires
        !has_name(live, r.name),
    ensures
        updated_by(r, live) == r,
    decreases live.len(),
{
    if live.len() > 0 {
        assert(live.last() == live[live.len() - 1]);
        assert forall|k: int| 0 <= k < live.drop_last().len() implies (
        #[trigger] live.drop_last()[k]).name != r.name by {
            assert(live.drop_last()[k] == live[k]);
        }
        lemma_updated_absent(r, live.drop_last());
    }
}

proof fn lemma_updated_same(x: ModView, y: ModView, live: Seq<ModView>)
    requires
        x.name == y.name,
        has_name(live, x.name),
    ensures
        updated_by(x, live) == updated_by(y, live),
    decreases live.len(),
{
    let k = choose|k: int| 0 <= k < live.len() && (#[trigger] live[k]).name == x.name;
    if live.last().name != x.name {
        assert(k != live.len() - 1);
        assert(live.drop_last()[k] == live[k]);
        lemma_updated_same(x, y, live.drop_last());
    }
}

/// Where `live[j]` is the only live entry of its name, it alone decides.
proof fn lemma_updated_unique(r: ModView, live: Seq<ModView>, j: int)
    requires
        0 <= j < live.len(),
        live[j].name == r.name,
        forall|k: int| 0 <= k < live.len() && k != j ==> (#[trigger] live[k]).name != r.name,
    ensures
        updated_by(r, live) == with_state_of(r, live[j]),
    decreases live.len(),
{
    if j != live.len() - 1 {
        assert(live.last() == live[live.len() - 1]);
        assert forall|k: int| 0 <= k < live.drop_last().len() && k != j implies (
        #[trigger] live.drop_last()[k]).name != r.name by {
            assert(live.drop_last()[k] == live[k]);
        }
        assert(live.drop_last()[j] == live[j]);
        lemma_updated_unique(r, live.drop_last(), j);
    }
}

proof fn lemma_new_entries_facts(stored: Seq<ModView>, live: Seq<ModView>)
    ensures
        forall|k: int|
            0 <= k < new_entries(stored, live).len() ==> !has_name(
                stored,
                (#[trigger] new_entries(stored, live)[k]).name,
            ) && has_name(live, new_entries(stored, live)[k].name),
        forall|k: int|
            0 <= k < new_entries(stored, live).len() ==> exists|j: int|
                0 <= j < live.len() && live[j] == #[trigger] new_entries(stored, live)[k],
        forall|j: int|
            0 <= j < live.len() && !has_name(stored, (#[trigger] live[j]).name) ==> has_name(
                new_entries(stored, live),
                live[j].name,
            ),
    decreases live.len(),
{
    if live.len() > 0 {
        let d = live.drop_last();
        lemma_new_entries_facts(stored, d);
        let nd = new_entries(stored, d);
        let n = new_entries(stored, live);
        assert forall|k: int| 0 <= k < n.len() implies !has_name(stored, (#[trigger] n[k]).name)
            && has_name(live, n[k].name) && exists|j: int| 0 <= j < live.len() && live[j] == n[k] by {
            if k < nd.len() {
                assert(n[k] == nd[k]);
                let j = choose|j: int| 0 <= j < d.len() && d[j] == nd[k];
                assert(live[j] == d[j]);
            } else {
                assert(n[k] == live[live.len() - 1]);
            }
        }
        assert forall|j: int|
            0 <= j < live.len() && !has_name(stored, (#[trigger] live[j]).name) implies has_name(
            n,
            live[j].name,
        ) by {
            if j < d.len() {
                assert(d[j] == live[j]);
                let k = choose|k: int| 0 <= k < nd.len() && (#[trigger] nd[k]).name == live[j].name;
                assert(n[k] == nd[k]);
            } else {
                assert(n[n.len() - 1] == live[j]);
            }
        }
    }
}

/// Merging a second time with the same live list changes nothing, where the
/// live list holds each name once.
pub proof fn lemma_merge_idempotent(stored: Seq<ModView>, live: Seq<ModView>)
    requires
        unique_names(live),
    ensures
        merged(merged(stored, live), live) == merged(stored, live),
{
    let m = merged(stored, live);
    let u = updated_stored(stored, live);
    let n = new_entries(stored, live);
    lemma_new_entries_facts(stored, live);
    lemma_new_entries_facts(m, live);
    // every live name is in `m`, so the second merge adds nothing
    assert forall|j: int| 0 <= j < live.len() implies has_name(m, (#[trigger] live[j]).name) by {
        if has_name(stored, live[j].name) {
            let k = choose|k: int| 0 <= k < stored.len() && (#[trigger] stored[k]).name
                == live[j].name;
            lemma_updated_name(stored[k], live);
            assert(m[k] == u[k]);
            if is_first(stored, k) {
                assert(m[k].name == stored[k].name);
            }
        } else {
            let k = choose|k: int| 0 <= k < n.len() && (#[trigger] n[k]).name == live[j].name;
            assert(m[u.len() + k] == n[k]);
        }
    }
    assert(new_entries(m, live).len() == 0) by {
        if new_entries(m, live).len() > 0 {
            let x = new_entries(m, live)[0];
            let j = choose|j: int| 0 <= j < live.len() && live[j] == x;
        }
    }
    assert(new_entries(m, live) =~= Seq::<ModView>::empty());
    // names in `m` keep their positions
    assert forall|i: int| 0 <= i < u.len() implies (#[trigger] u[i]).name == stored[i].name by {
        lemma_updated_name(stored[i], live);
    }
    let um = updated_stored(m, live);
    assert forall|i: int| 0 <= i < m.len() implies #[trigger] um[i] == m[i] by {
        if is_first(m, i) {
            let x = m[i];
            if has_name(live, x.name) {
                if i < u.len() {
                    assert(is_first(stored, i)) by {
                        assert forall|k: int| 0 <= k < i implies (#[trigger] stored[k]).name
                            != stored[i].name by {
                            assert(m[k] == u[k]);
                        }
                    }
                    lemma_updated_name(stored[i], live);
                    lemma_updated_same(x, stored[i], live);
                } else {
                    let j = choose|j: int| 0 <= j < live.len() && live[j] == n[i - u.len()];
                    assert(m[i] == n[i - u.len()]);
                    assert forall|k: int| 0 <= k < live.len() && k != j implies (
                    #[trigger] live[k]).name != x.name by {
                        if k < j {
                            assert(live[k].name != live[j].name);
                        } else {
                            assert(live[j].name != live[k].name);
                        }
                    }
                    lemma_updated_unique(x, live, j);
                    assert(with_state_of(x, live[j]) == x);
                }
            } else {
                lemma_updated_absent(x, live);
            }
        }
    }
    assert(um =~= m);
    assert(merged(m, live) =~= m);
}

impl Mods {
    /// Merges the game's live list into this stored list: each live entry
    /// updates the first stored entry of its name (flags and workshop id),
    /// and the live entries whose names the stored list lacks are appended
    /// in live order. Stored entries absent from the live list stay.
    pub fn sync_with_noita(&mut self, live: &Mods)
        ensures
            final(self)@ == merged(old(self)@, live@),
    {
        let ghost stored = self@;
        let len = self.mods.len();
        let mut new_mods: Vec<Mod> = Vec::new();
        let mut j: usize = 0;
        while j < live.mods.len()
            invariant
                len == self.mods.len() == stored.len(),
                j <= live.mods.len(),
                forall|i: int|
                    0 <= i < len ==> (#[trigger] self@[i]) == if is_first(stored, i) {
                        updated_by(stored[i], live@.subrange(0, j as int))
                    } else {
                        stored[i]
                    },
                views_of(new_mods@) == new_entries(stored, live@.subrange(0, j as int)),
            decreases live.mods.len() - j,
        {
            let lm = &live.mods[j];
            let ghost lv = live@.subrange(0, j as int + 1);
            assert(lv.drop_last() =~= live@.subrange(0, j as int));
            assert(lv.last() == lm@);
            proof {
                assert forall|i: int| 0 <= i < len implies (#[trigger] self@[i]).name
                    == stored[i].name by {
                    if is_first(stored, i) {
                        lemma_updated_name(stored[i], live@.subrange(0, j as int));
                    }
                }
            }
            let mut k: usize = 0;
            while k < len
                invariant
                    len == self.mods.len() == stored.len(),
                    k <= len,
                    forall|i: int| 0 <= i < len ==> (#[trigger] self@[i]).name == stored[i].name,
                    forall|i: int| 0 <= i < k ==> (#[trigger] stored[i]).name != lm@.name,
                ensures
                    k <= len,
                    k < len ==> stored[k as int].name == lm@.name,
                    forall|i: int| 0 <= i < k ==> (#[trigger] stored[i]).name != lm@.name,
                decreases len - k,
            {
                assert(self@[k as int] == self.mods@[k as int]@);
                if self.mods[k].name == lm.name {
                    break;
                }
                k = k + 1;
            }
            let found = k < len;
            if found {
                proof {
                    assert(is_first(stored, k as int));
                }
                let ghost pre = self.mods@;
                let ghost prev = self@;
                assert(prev == views_of(pre));
                let name = self.mods[k].name.clone();
                self.mods[k] = Mod {
                    enabled: lm.enabled,
                    name,
                    settings_fold_open: lm.settings_fold_open,
                    workshop_item_id: lm.workshop_item_id,
                };
                proof {
                    assert forall|i: int| 0 <= i < len implies (#[trigger] self@[i]) == if is_first(
                        stored,
                        i,
                    ) {
                        updated_by(stored[i], lv)
                    } else {
                        stored[i]
                    } by {
                        if i != k {
                            assert(self.mods@[i] == pre[i]);
                            assert(self@[i] == pre[i]@);
                            assert(prev[i] == pre[i]@);
                            assert(prev[i] == if is_first(stored, i) {
                                updated_by(stored[i], live@.subrange(0, j as int))
                            } else {
                                stored[i]
                            });
                        } else {
                            assert(self.mods@[i].name@ == pre[i].name@);
                            assert(prev[i].name == stored[i].name);
                            assert(views_of(pre)[i] == pre[i]@);
                            assert(pre[i].name@ == stored[i].name);
                            assert(self@[i] == self.mods@[i]@);
                            assert(self@[i] == with_state_of(stored[i], lm@));
                            assert(lv.last().name == stored[i].name);
                            assert(updated_by(stored[i], lv) == with_state_of(stored[i], lv.last()));
                        }
                        if i != k && is_first(stored, i) {
                            if i > k {
                                assert(stored[k as int].name != stored[i].name);
                            }
                            assert(lv.last().name != stored[i].name);
                        }
                    }
                    assert(has_name(stored, lm@.name));
                    assert(new_entries(stored, lv) == new_entries(stored, live@.subrange(0, j as int)));
                }
            } else {
                let ghost before = new_mods@;
                new_mods.push(lm.duplicate());
                proof {
                    assert forall|i: int| 0 <= i < len implies (#[trigger] self@[i]) == if is_first(
                        stored,
                        i,
                    ) {
                        updated_by(stored[i], lv)
                    } else {
                        stored[i]
                    } by {
                        assert(lv.last().name != stored[i].name);
                    }
                    assert(!has_name(stored, lm@.name));
                    assert(views_of(new_mods@) =~= views_of(before).push(lm@));
                }
            }
            j = j + 1;
        }
        let mut t: usize = 0;
        let ghost base = self@;
        while t < new_mods.len()
            invariant
                t <= new_mods.len(),
                self@ == base + views_of(new_mods@).subrange(0, t as int),
            decreases new_mods.len() - t,
        {
            let ghost before = self.mods@;
            let x = new_mods[t].duplicate();
            self.mods.push(x);
            assert(views_of(self.mods@) =~= views_of(before).push(new_mods@[t as int]@));
            t = t + 1;
            assert(self@ =~= base + views_of(new_mods@).subrange(0, t as int));
        }
        assert(live@.subrange(0, j as int) =~= live@);
        assert(base =~= updated_stored(stored, live@));
        assert(views_of(new_mods@).subrange(0, t as int) =~= views_of(new_mods@));
    }
}

} // verus!
