use vstd::prelude::*;

verus! {

/// What the library knows of one mod entry.
pub struct ModView {
    pub enabled: bool,
    pub name: Seq<char>,
    pub settings_fold_open: bool,
    pub workshop_item_id: usize,
}

/// One entry of the game's mod-activation list.
#[derive(Clone, Debug, PartialEq, Eq)]
pub struct Mod {
    pub enabled: bool,
    pub name: String,
    pub settings_fold_open: bool,
    /// `0` marks a locally authored mod.
    pub workshop_item_id: usize,
}

impl View for Mod {
    type V = ModView;

    open spec fn view(&self) -> ModView {
        ModView {
            enabled: self.enabled,
            name: self.name@,
            settings_fold_open: self.settings_fold_open,
            workshop_item_id: self.workshop_item_id,
        }
    }
}

impl Mod {
    pub fn new(enabled: bool, name: String, settings_fold_open: bool, workshop_item_id: usize) -> (r: Mod)
        ensures
            r.enabled == enabled,
            r.name@ == name@,
            r.settings_fold_open == settings_fold_open,
            r.workshop_item_id == workshop_item_id,
    {
        Mod { enabled, name, settings_fold_open, workshop_item_id }
    }

    /// A copy with the same view.
    pub fn duplicate(&self) -> (r: Mod)
        ensures
            r@ == self@,
    {
        Mod {
            enabled: self.enabled,
            name: self.name.clone(),
            settings_fold_open: self.settings_fold_open,
            workshop_item_id: self.workshop_item_id,
        }
    }

    /// A mod that does not come from the workshop.
    pub fn is_local(&self) -> (r: bool)
        ensures
            r == (self.workshop_item_id == 0),
    {
        self.workshop_item_id == 0
    }
}

/// The game's mod-activation list, in activation order.
#[derive(Clone, Debug, PartialEq, Eq)]
pub struct Mods {
    pub mods: Vec<Mod>,
}

pub open spec fn views_of(v: Seq<Mod>) -> Seq<ModView> {
    v.map_values(|m: Mod| m@)
}

impl View for Mods {
    type V = Seq<ModView>;

    open spec fn view(&self) -> Seq<ModView> {
        views_of(self.mods@)
    }
}

/// How an entry is shown for selection.
#[derive(Clone, Debug, PartialEq, Eq)]
pub struct ModItem {
    pub index: usize,
    pub name: String,
    pub is_local: bool,
}

impl ModItem {
    /// `name (Local)` or `name (Steam)`.
    pub fn label(&self) -> (r: String)
        ensures
            r@ == self.name@ + if self.is_local {
                " (Local)"@
            } else {
                " (Steam)"@
            },
    {
        let mut r = self.name.clone();
        if self.is_local {
            r.append(" (Local)");
        } else {
            r.append(" (Steam)");
        }
        r
    }
}

/// The positions of the enabled entries, in order.
pub open spec fn enabled_positions(l: Seq<ModView>) -> Seq<usize>
    decreases l.len(),
{
    if l.len() == 0 {
        Seq::empty()
    } else if l.last().enabled {
        enabled_positions(l.drop_last()).push((l.len() - 1) as usize)
    } else {
        enabled_positions(l.drop_last())
    }
}

impl Mods {
    pub fn new(mods: Vec<Mod>) -> (r: Mods)
        ensures
            r.mods == mods,
    {
        Mods { mods }
    }

    /// The entries as offered for selection, and the positions of those
    /// enabled now.
    pub fn display_items(&self) -> (r: (Vec<ModItem>, Vec<usize>))
        ensures
            r.0@.len() == self.mods@.len(),
            forall|i: int|
                0 <= i < r.0@.len() ==> (#[trigger] r.0@[i]).index == i && r.0@[i].name@
                    == self.mods@[i].name@ && r.0@[i].is_local == (self.mods@[i].workshop_item_id
                    == 0),
            r.1@ == enabled_positions(self@),
    {
        let mut items: Vec<ModItem> = Vec::new();
        let mut enabled: Vec<usize> = Vec::new();
        let mut i: usize = 0;
        while i < self.mods.len()
            invariant
                i <= self.mods.len(),
                items@.len() == i,
                forall|k: int|
                    0 <= k < i ==> (#[trigger] items@[k]).index == k && items@[k].name@
                        == self.mods@[k].name@ && items@[k].is_local == (
                    self.mods@[k].workshop_item_id == 0),
                enabled@ == enabled_positions(self@.subrange(0, i as int)),
            decreases self.mods.len() - i,
        {
            let m = &self.mods[i];
            items.push(ModItem { index: i, name: m.name.clone(), is_local: m.is_local() });
            proof {
                let sub = self@.subrange(0, i + 1);
                assert(sub.drop_last() =~= self@.subrange(0, i as int));
                assert(sub.last() == m@);
            }
            if m.enabled {
                enabled.push(i);
            }
            i = i + 1;
        }
        assert(self@.subrange(0, i as int) =~= self@);
        (items, enabled)
    }
}

} // verus!
