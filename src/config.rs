//! The manager's state and the operations on it: add, switch, edit, remove
//! and list profiles. Each operation decides and returns the file writes it
//! needs; the caller reads the files it is handed the text of, and performs
//! the writes.

use vstd::prelude::*;

use crate::codec::{encoded_doc, parse_doc};
use crate::error::NoitadError;
use crate::mod_config::{views_of, Mod, ModView, Mods};
use crate::path::{joined, opt_view, NoitaPath};
use crate::profiles::{path_in, profile_file_path, profile_path, registered, FileWrite, ModProfiles};
use crate::sync::merged;
use crate::utils::group_equal_by_key;

verus! {

/// The state that persists between runs.
#[derive(Clone, Debug, PartialEq, Eq)]
pub struct Config {
    pub noita_path: NoitaPath,
    pub profiles: ModProfiles,
    /// The profile in effect in the game's live mod file.
    pub active_profile: Option<String>,
    /// Merge the live list into a profile before switching to or editing it.
    pub active_profile_sync: bool,
}

pub open spec fn writes_view(w: Seq<FileWrite>) -> Seq<(Seq<char>, Seq<char>)> {
    w.map_values(|f: FileWrite| (f.path@, f.contents@))
}

/// The game's live mod file in a save directory.
pub open spec fn live_file(save_dir: Seq<char>) -> Seq<char> {
    joined(save_dir, "mod_config.xml"@)
}

/// The list that switching to or editing a profile works on: the stored
/// list, merged with the live one where syncing is on.
pub open spec fn working_list(sync: bool, profile_text: Seq<char>, live_text: Seq<char>) -> Option<
    Seq<ModView>,
> {
    match parse_doc(profile_text) {
        None => None,
        Some(stored) => if sync {
            match parse_doc(live_text) {
                None => None,
                Some(live) => Some(merged(stored, live)),
            }
        } else {
            Some(stored)
        },
    }
}

/// The writes of a successful switch: with syncing, the merged list goes
/// back to the profile's file; the list then goes to the live file.
pub open spec fn switch_writes(
    profiles: Seq<(Seq<char>, Seq<char>)>,
    sync: bool,
    profile: Seq<char>,
    save_dir: Seq<char>,
    profile_text: Seq<char>,
    live_text: Seq<char>,
) -> Option<Seq<(Seq<char>, Seq<char>)>> {
    match (path_in(profiles, profile), working_list(sync, profile_text, live_text)) {
        (Some(p), Some(l)) => if sync {
            Some(seq![(p, encoded_doc(l)), (live_file(save_dir), encoded_doc(l))])
        } else {
            Some(seq![(live_file(save_dir), encoded_doc(l))])
        },
        _ => None,
    }
}

/// Entry `i` is among the selected positions.
pub open spec fn selected(sel: Seq<usize>, i: int) -> bool {
    exists|k: int| 0 <= k < sel.len() && sel[k] == i
}

/// The list with exactly the selected entries enabled.
pub open spec fn with_selection(l: Seq<ModView>, sel: Seq<usize>) -> Seq<ModView> {
    Seq::new(
        l.len(),
        |i: int|
            ModView {
                enabled: selected(sel, i),
                name: l[i].name,
                settings_fold_open: l[i].settings_fold_open,
                workshop_item_id: l[i].workshop_item_id,
            },
    )
}

/// Two distinct selected entries are named `name`.
pub open spec fn duplicated_name(l: Seq<ModView>, sel: Seq<usize>, name: Seq<char>) -> bool {
    exists|a: int, b: int|
        0 <= a < b < l.len() && selected(sel, a) && selected(sel, b) && (#[trigger] l[a]).name == name
            && (#[trigger] l[b]).name == name
}

/// Two distinct selected entries share a name.
pub open spec fn has_duplicate_selected(l: Seq<ModView>, sel: Seq<usize>) -> bool {
    exists|a: int, b: int|
        0 <= a < b < l.len() && selected(sel, a) && selected(sel, b) && (#[trigger] l[a]).name == (
        #[trigger] l[b]).name
}

/// With syncing off, switching to a profile a second time writes the same
/// live file as the first switch did, whatever the live file then holds;
/// the first switch keeps the registry, so the second sees the same one.
pub proof fn lemma_switch_twice(
    profiles: Seq<(Seq<char>, Seq<char>)>,
    profile: Seq<char>,
    save_dir: Seq<char>,
    profile_text: Seq<char>,
    live_first: Seq<char>,
    live_second: Seq<char>,
)
    requires
        switch_writes(profiles, false, profile, save_dir, profile_text, live_first) is Some,
    ensures
        switch_writes(profiles, false, profile, save_dir, profile_text, live_second)
            == switch_writes(profiles, false, profile, save_dir, profile_text, live_first),
{
}

impl Config {
    pub open spec fn wf(&self) -> bool {
        &&& self.profiles.wf()
        &&& self.active_profile matches Some(a) ==> registered(self.profiles.view(), a@)
    }

    /// A fresh state: no profiles, none active, syncing on.
    pub fn new(noita_path: NoitaPath) -> (r: Config)
        ensures
            r.wf(),
            r.noita_path == noita_path,
            r.profiles.view().len() == 0,
            r.active_profile is None,
            r.active_profile_sync,
    {
        Config {
            noita_path,
            profiles: ModProfiles::new(),
            active_profile: None,
            active_profile_sync: true,
        }
    }

    /// Add: captures the live list (`live_text`, read from `save_dir`) as
    /// profile `profile`, stored in `profiles_dir`; the new profile becomes
    /// the active one where none is.
    pub fn add(
        &mut self,
        profile: &str,
        save_dir: &Option<String>,
        profiles_dir: &str,
        live_text: &str,
    ) -> (r: Result<Vec<FileWrite>, NoitadError>)
        requires
            old(self).wf(),
        ensures
            final(self).wf(),
            r is Err ==> *final(self) == *old(self),
            save_dir is None ==> r == Err::<Vec<FileWrite>, NoitadError>(NoitadError::SaveDirNotFound),
            save_dir is Some && registered(old(self).profiles.view(), profile@) ==> (r matches Err(
                NoitadError::ProfileExists(n),
            ) && n@ == profile@),
            save_dir is Some && !registered(old(self).profiles.view(), profile@) && parse_doc(
                live_text@,
            ) is None ==> r == Err::<Vec<FileWrite>, NoitadError>(NoitadError::Decode),
            r is Ok <==> save_dir is Some && !registered(old(self).profiles.view(), profile@)
                && parse_doc(live_text@) is Some,
            r matches Ok(w) ==> {
                &&& writes_view(w@) == seq![
                    (
                        profile_path(profiles_dir@, profile@),
                        encoded_doc(parse_doc(live_text@)->Some_0),
                    ),
                ]
                &&& final(self).profiles.view() == old(self).profiles.view().push(
                    (profile@, profile_path(profiles_dir@, profile@)),
                )
                &&& opt_view(final(self).active_profile) == if old(self).active_profile is None {
                    Some(profile@)
                } else {
                    opt_view(old(self).active_profile)
                }
                &&& final(self).noita_path == old(self).noita_path
                &&& final(self).active_profile_sync == old(self).active_profile_sync
            },
    {
        if save_dir.is_none() {
            return Err(NoitadError::SaveDirNotFound);
        }
        let ghost before = *self;
        let (_mods, write) = match self.profiles.add_profile(profile, profiles_dir, live_text) {
            Ok(x) => x,
            Err(e) => {
                return Err(e);
            },
        };
        if self.active_profile.is_none() {
            self.active_profile = Some(String::from_str(profile));
        }
        proof {
            assert forall|i: int| 0 <= i < before.profiles.view().len() implies #[trigger] self.profiles.view()[i]
                == before.profiles.view()[i] by {}
            if let Some(a) = before.active_profile {
                let k = choose|k: int| 0 <= k < before.profiles.view().len() && (
                #[trigger] before.profiles.view()[k]).0 == a@;
                assert(self.profiles.view()[k] == before.profiles.view()[k]);
            } else {
                assert(self.profiles.view()[before.profiles.view().len() as int].0 == profile@);
            }
        }
        let mut writes: Vec<FileWrite> = Vec::new();
        writes.push(write);
        assert(writes_view(writes@) =~= seq![
            (profile_path(profiles_dir@, profile@), encoded_doc(parse_doc(live_text@)->Some_0)),
        ]);
        Ok(writes)
    }

    /// Switch: makes `profile` the active one. `profile_text` is the text of
    /// its file and `live_text` that of the live file (read only where
    /// syncing is on). With syncing the live list is merged in and the
    /// result stored back; the list then replaces the live file.
    pub fn switch(
        &mut self,
        profile: &str,
        save_dir: &Option<String>,
        profile_text: &str,
        live_text: &str,
    ) -> (r: Result<Vec<FileWrite>, NoitadError>)
        requires
            old(self).wf(),
        ensures
            final(self).wf(),
            r is Err ==> *final(self) == *old(self),
            save_dir is None ==> r == Err::<Vec<FileWrite>, NoitadError>(NoitadError::SaveDirNotFound),
            save_dir is Some && !registered(old(self).profiles.view(), profile@) ==> (r matches Err(
                NoitadError::ProfileNotFound(n),
            ) && n@ == profile@),
            save_dir is Some && registered(old(self).profiles.view(), profile@) && working_list(
                old(self).active_profile_sync,
                profile_text@,
                live_text@,
            ) is None ==> r == Err::<Vec<FileWrite>, NoitadError>(NoitadError::Decode),
            r is Ok <==> save_dir is Some && registered(old(self).profiles.view(), profile@)
                && working_list(old(self).active_profile_sync, profile_text@, live_text@) is Some,
            r matches Ok(w) ==> {
                &&& Some(writes_view(w@)) == switch_writes(
                    old(self).profiles.view(),
                    old(self).active_profile_sync,
                    profile@,
                    save_dir->Some_0@,
                    profile_text@,
                    live_text@,
                )
                &&& opt_view(final(self).active_profile) == Some(profile@)
                &&& final(self).profiles == old(self).profiles
                &&& final(self).noita_path == old(self).noita_path
                &&& final(self).active_profile_sync == old(self).active_profile_sync
            },
    {
        let dir = match save_dir {
            None => return Err(NoitadError::SaveDirNotFound),
            Some(d) => d,
        };
        let path = match self.profiles.path_of(profile) {
            Ok(p) => p,
            Err(e) => return Err(e),
        };
        let mut list = match Mods::from_xml(profile_text) {
            Ok(m) => m,
            Err(e) => return Err(e),
        };
        let mut writes: Vec<FileWrite> = Vec::new();
        if self.active_profile_sync {
            let live = match Mods::from_xml(live_text) {
                Ok(m) => m,
                Err(e) => return Err(e),
            };
            list.sync_with_noita(&live);
            writes.push(FileWrite { path, contents: list.to_xml() });
        }
        let live_path = crate::path::join(dir, "mod_config.xml");
        writes.push(FileWrite { path: live_path, contents: list.to_xml() });
        self.active_profile = Some(String::from_str(profile));
        proof {
            let k = choose|k: int| 0 <= k < self.profiles.view().len() && (
            #[trigger] self.profiles.view()[k]).0 == profile@;
        }
        assert(Some(writes_view(writes@)) =~= switch_writes(
            self.profiles.view(),
            self.active_profile_sync,
            profile@,
            dir@,
            profile_text@,
            live_text@,
        ));
        Ok(writes)
    }

    /// Remove: unregisters `profile` and gives the path of its file, to be
    /// deleted. The active profile cannot be removed.
    pub fn remove(&mut self, profile: &str) -> (r: Result<String, NoitadError>)
        requires
            old(self).wf(),
        ensures
            final(self).wf(),
            r is Err ==> *final(self) == *old(self),
            opt_view(old(self).active_profile) == Some(profile@) ==> (r matches Err(
                NoitadError::ProfileActive(n),
            ) && n@ == profile@),
            opt_view(old(self).active_profile) != Some(profile@) && !registered(
                old(self).profiles.view(),
                profile@,
            ) ==> (r matches Err(NoitadError::ProfileNotFound(n)) && n@ == profile@),
            r is Ok <==> opt_view(old(self).active_profile) != Some(profile@) && registered(
                old(self).profiles.view(),
                profile@,
            ),
            r matches Ok(p) ==> {
                &&& path_in(old(self).profiles.view(), profile@) == Some(p@)
                &&& final(self).profiles.view() == crate::profiles::without(
                    old(self).profiles.view(),
                    profile@,
                )
                &&& final(self).active_profile == old(self).active_profile
                &&& final(self).noita_path == old(self).noita_path
                &&& final(self).active_profile_sync == old(self).active_profile_sync
            },
    {
        if let Some(a) = &self.active_profile {
            let p = String::from_str(profile);
            if *a == p {
                return Err(NoitadError::ProfileActive(p));
            }
        }
        let ghost before = self.profiles.view();
        let r = self.profiles.remove_profile(profile);
        proof {
            if r is Ok && self.active_profile is Some {
                let a = self.active_profile->Some_0;
                {
                    let k = choose|k: int| 0 <= k < before.len() && (#[trigger] before[k]).0 == a@;
                    crate::profiles::lemma_without_keeps(before, profile@, k);
                }
            }
        }
        r
    }

    /// The profile that an edit works on: the one named, else the active one.
    pub open spec fn edit_target(&self, profile: Option<Seq<char>>) -> Option<Seq<char>> {
        match profile {
            Some(p) => Some(p),
            None => opt_view(self.active_profile),
        }
    }

    /// Edit, first step: the profile to edit and its list, merged with the
    /// live list where syncing is on. `profile_text` is the text of the
    /// profile's file, `live_text` that of the live file.
    pub fn edit_begin(
        &self,
        profile: &Option<String>,
        save_dir: &Option<String>,
        profile_text: &str,
        live_text: &str,
    ) -> (r: Result<(String, Mods), NoitadError>)
        requires
            self.wf(),
        ensures
            self.edit_target(opt_view(*profile)) is None ==> r == Err::<(String, Mods), NoitadError>(
                NoitadError::NoProfileSelected,
            ),
            self.edit_target(opt_view(*profile)) is Some && !registered(self.profiles.view(), self.edit_target(opt_view(*profile))->Some_0) ==> (r matches Err(
                NoitadError::ProfileNotFound(n),
            ) && Some(n@) == self.edit_target(opt_view(*profile))),
            self.edit_target(opt_view(*profile)) is Some && registered(self.profiles.view(), self.edit_target(opt_view(*profile))->Some_0)
                && parse_doc(profile_text@) is None ==> r == Err::<(String, Mods), NoitadError>(
                NoitadError::Decode,
            ),
            self.edit_target(opt_view(*profile)) is Some && registered(self.profiles.view(), self.edit_target(opt_view(*profile))->Some_0)
                && parse_doc(profile_text@) is Some && save_dir is None ==> r == Err::<
                (String, Mods),
                NoitadError,
            >(NoitadError::SaveDirNotFound),
            r is Ok <==> self.edit_target(opt_view(*profile)) is Some && registered(self.profiles.view(), self.edit_target(opt_view(*profile))->Some_0) && save_dir is Some && working_list(
                self.active_profile_sync,
                profile_text@,
                live_text@,
            ) is Some,
            r matches Ok((name, list)) ==> Some(name@) == self.edit_target(opt_view(*profile))
                && Some(list@) == working_list(self.active_profile_sync, profile_text@, live_text@),
    {
        let name = match profile {
            Some(p) => p.clone(),
            None => match &self.active_profile {
                Some(a) => a.clone(),
                None => return Err(NoitadError::NoProfileSelected),
            },
        };
        let mut list = match self.profiles.get_profile(name.as_str(), profile_text) {
            Ok(m) => m,
            Err(e) => return Err(e),
        };
        if save_dir.is_none() {
            return Err(NoitadError::SaveDirNotFound);
        }
        if self.active_profile_sync {
            let live = match Mods::from_xml(live_text) {
                Ok(m) => m,
                Err(e) => return Err(e),
            };
            list.sync_with_noita(&live);
        }
        Ok((name, list))
    }

    /// Edit, second step: enables exactly the entries at the positions in
    /// `selection` and gives the writes that store the list, also to the
    /// live file in `save_dir` where `profile` is the active one. Fails, and
    /// writes nothing, where two selected entries share a name.
    pub fn edit_apply(
        &self,
        profile: &str,
        list: &Mods,
        selection: &Vec<usize>,
        save_dir: &String,
    ) -> (r: Result<Vec<FileWrite>, NoitadError>)
        requires
            self.wf(),
        ensures
            has_duplicate_selected(list@, selection@) <==> r matches Err(
                NoitadError::DuplicateEnabled(_),
            ),
            r matches Err(NoitadError::DuplicateEnabled(names)) ==> names@.len() > 0 && forall|i: int|
                0 <= i < names@.len() ==> duplicated_name(list@, selection@, #[trigger] names@[i]@),
            !has_duplicate_selected(list@, selection@) && !registered(self.profiles.view(), profile@)
                ==> (r matches Err(NoitadError::ProfileNotFound(n)) && n@ == profile@),
            r is Ok <==> !has_duplicate_selected(list@, selection@) && registered(
                self.profiles.view(),
                profile@,
            ),
            r matches Ok(w) ==> {
                let contents = encoded_doc(with_selection(list@, selection@));
                let p = path_in(self.profiles.view(), profile@)->Some_0;
                if opt_view(self.active_profile) == Some(profile@) {
                    writes_view(w@) == seq![(p, contents), (live_file(save_dir@), contents)]
                } else {
                    writes_view(w@) == seq![(p, contents)]
                }
            },
    {
        let n = list.mods.len();
        // which entries are selected
        let mut chosen: Vec<bool> = Vec::new();
        let mut i: usize = 0;
        while i < n
            invariant
                n == list.mods.len(),
                i <= n,
                chosen@.len() == i,
                forall|j: int| 0 <= j < i ==> !chosen@[j],
            decreases n - i,
        {
            chosen.push(false);
            i = i + 1;
        }
        let mut k: usize = 0;
        while k < selection.len()
            invariant
                n == list.mods.len(),
                chosen@.len() == n,
                k <= selection.len(),
                forall|j: int|
                    0 <= j < n ==> chosen@[j] == exists|m: int| 0 <= m < k && selection@[m] == j,
            decreases selection.len() - k,
        {
            let at = selection[k];
            if at < n {
                chosen.set(at, true);
            }
            proof {
                assert forall|j: int| 0 <= j < n implies chosen@[j] == exists|m: int|
                    0 <= m < k + 1 && selection@[m] == j by {
                    if selection@[k as int] == j {
                        assert(0 <= k < k + 1 && selection@[k as int] == j);
                    }
                    if exists|m: int| 0 <= m < k + 1 && selection@[m] == j {
                        let m = choose|m: int| 0 <= m < k + 1 && selection@[m] == j;
                        if m < k {
                            assert(exists|m2: int| 0 <= m2 < k && selection@[m2] == j);
                        }
                    }
                }
            }
            k = k + 1;
        }
        assert forall|j: int| 0 <= j < n implies chosen@[j] == selected(selection@, j) by {}
        // names of the selected entries, and their positions
        let mut keys: Vec<String> = Vec::new();
        let mut pos: Vec<usize> = Vec::new();
        let mut i: usize = 0;
        while i < n
            invariant
                n == list.mods.len(),
                chosen@.len() == n,
                i <= n,
                forall|j: int| 0 <= j < n ==> chosen@[j] == selected(selection@, j),
                keys@.len() == pos@.len(),
                forall|m: int| 0 <= m < pos@.len() ==> (#[trigger] pos@[m]) < i && chosen@[pos@[m] as int]
                    && keys@[m]@ == list@[pos@[m] as int].name,
                forall|m1: int, m2: int| 0 <= m1 < m2 < pos@.len() ==> (#[trigger] pos@[m1]) < (
                #[trigger] pos@[m2]),
                forall|j: int| 0 <= j < i && chosen@[j] ==> exists|m: int| 0 <= m < pos@.len() && #[trigger] pos@[m] == j,
            decreases n - i,
        {
            let ghost old_pos = pos@;
            if chosen[i] {
                keys.push(list.mods[i].name.clone());
                pos.push(i);
                assert(list@[i as int] == list.mods@[i as int]@);
                assert(pos@[old_pos.len() as int] == i);
            }
            assert forall|j: int| 0 <= j < i + 1 && chosen@[j] implies exists|m: int|
                0 <= m < pos@.len() && #[trigger] pos@[m] == j by {
                if j < i {
                    let m = choose|m: int| 0 <= m < old_pos.len() && #[trigger] old_pos[m] == j;
                    assert(pos@[m] == old_pos[m]);
                } else {
                    assert(pos@[old_pos.len() as int] == i);
                }
            }
            i = i + 1;
        }
        let ghost kv = crate::path::strings_view(keys@);
        assert forall|m: int| 0 <= m < keys@.len() implies #[trigger] kv[m] == keys@[m]@ by {}
        let groups = group_equal_by_key(&keys);
        let mut dups: Vec<String> = Vec::new();
        let mut g: usize = 0;
        while g < groups.len()
            invariant
                g <= groups.len(),
                forall|m: int| 0 <= m < dups@.len() ==> duplicated_name(list@, selection@, #[trigger] dups@[m]@),
                dups@.len() == 0 ==> forall|h: int| 0 <= h < g ==> (#[trigger] groups@[h]).1@.len() < 2,
                crate::utils::is_grouping(kv, groups@),
                kv == crate::path::strings_view(keys@),
                keys@.len() == pos@.len(),
                forall|m: int| 0 <= m < pos@.len() ==> (#[trigger] pos@[m]) < n && chosen@[pos@[m] as int]
                    && keys@[m]@ == list@[pos@[m] as int].name,
                forall|m1: int, m2: int| 0 <= m1 < m2 < pos@.len() ==> (#[trigger] pos@[m1]) < (
                #[trigger] pos@[m2]),
                forall|j: int| 0 <= j < n ==> chosen@[j] == selected(selection@, j),
                n == list@.len(),
                chosen@.len() == n,
            decreases groups.len() - g,
        {
            if groups[g].1.len() > 1 {
                proof {
                    let grp = groups@[g as int];
                    let p0 = grp.1@[0] as int;
                    let p1 = grp.1@[1] as int;
                    assert(grp.1@[0] < grp.1@[1]);
                    assert(kv[p0] == grp.0@ && kv[p1] == grp.0@);
                    assert(pos@[p0] < pos@[p1]);
                    assert(selected(selection@, pos@[p0] as int));
                    assert(selected(selection@, pos@[p1] as int));
                }
                let ghost old_dups = dups@;
                dups.push(groups[g].0.clone());
                proof {
                    let grp = groups@[g as int];
                    let p0 = grp.1@[0] as int;
                    let p1 = grp.1@[1] as int;
                    assert forall|m: int| 0 <= m < dups@.len() implies duplicated_name(
                        list@,
                        selection@,
                        #[trigger] dups@[m]@,
                    ) by {
                        if m < old_dups.len() {
                            assert(dups@[m] == old_dups[m]);
                        } else {
                            let a = pos@[p0] as int;
                            let b = pos@[p1] as int;
                            assert(dups@[m]@ == grp.0@);
                            assert(0 <= a < b < list@.len() && selected(selection@, a) && selected(
                                selection@,
                                b,
                            ) && dups@[m]@ == list@[a].name && list@[b].name == dups@[m]@);
                        }
                    }
                }
            }
            g = g + 1;
        }
        if dups.len() > 0 {
            proof {
                assert(duplicated_name(list@, selection@, dups@[0]@));
                let (a, b) = choose|a: int, b: int|
                    0 <= a < b < list@.len() && selected(selection@, a) && selected(selection@, b)
                        && (#[trigger] list@[a]).name == dups@[0]@ && (#[trigger] list@[b]).name
                        == dups@[0]@;
                assert(list@[a].name == list@[b].name);
            }
            return Err(NoitadError::DuplicateEnabled(dups));
        }
        proof {
            if has_duplicate_selected(list@, selection@) {
                let (a, b) = choose|a: int, b: int|
                    0 <= a < b < list@.len() && selected(selection@, a) && selected(selection@, b)
                        && (#[trigger] list@[a]).name == (#[trigger] list@[b]).name;
                assert(chosen@[a] && chosen@[b]);
                let ma = choose|m: int| 0 <= m < pos@.len() && #[trigger] pos@[m] == a;
                let mb = choose|m: int| 0 <= m < pos@.len() && #[trigger] pos@[m] == b;
                assert(crate::utils::in_some_group(groups@, ma));
                assert(crate::utils::in_some_group(groups@, mb));
                let (ga, ka) = choose|g: int, k: int|
                    0 <= g < groups@.len() && 0 <= k < groups@[g].1@.len() && #[trigger] groups@[g].1@[k] == ma;
                let (gb, kb) = choose|g: int, k: int|
                    0 <= g < groups@.len() && 0 <= k < groups@[g].1@.len() && #[trigger] groups@[g].1@[k] == mb;
                assert(kv[ma] == groups@[ga].0@);
                assert(kv[mb] == groups@[gb].0@);
                if ga < gb {
                    assert(groups@[ga].0@ != groups@[gb].0@);
                } else if gb < ga {
                    assert(groups@[gb].0@ != groups@[ga].0@);
                }
                assert(ka != kb);
                assert(groups@[ga].1@.len() >= 2);
            }
        }
        let mut out: Vec<Mod> = Vec::new();
        let mut i: usize = 0;
        while i < n
            invariant
                n == list.mods.len(),
                chosen@.len() == n,
                i <= n,
                views_of(out@) == with_selection(list@, selection@).subrange(0, i as int),
                forall|j: int| 0 <= j < n ==> chosen@[j] == selected(selection@, j),
                n == list@.len(),
                chosen@.len() == n,
            decreases n - i,
        {
            let m = &list.mods[i];
            let ghost old_out = out@;
            assert(list@[i as int] == m@);
            out.push(Mod {
                enabled: chosen[i],
                name: m.name.clone(),
                settings_fold_open: m.settings_fold_open,
                workshop_item_id: m.workshop_item_id,
            });
            assert(views_of(out@) =~= views_of(old_out).push(with_selection(list@, selection@)[i as int]));
            i = i + 1;
            assert(views_of(out@) =~= with_selection(list@, selection@).subrange(0, i as int));
        }
        assert(with_selection(list@, selection@).subrange(0, i as int) =~= with_selection(list@, selection@));
        let updated = Mods { mods: out };
        let write = match self.profiles.update_profile(profile, &updated) {
            Ok(w) => w,
            Err(e) => return Err(e),
        };
        let mut writes: Vec<FileWrite> = Vec::new();
        let contents = write.contents.clone();
        writes.push(write);
        if let Some(a) = &self.active_profile {
            if *a == String::from_str(profile) {
                let live_path = crate::path::join(save_dir, "mod_config.xml");
                writes.push(FileWrite { path: live_path, contents });
            }
        }
        Ok(writes)
    }

    /// A state as it was stored: the registry keeps the first entry of each
    /// name, and the active profile only where it is registered.
    pub fn restore(
        noita_path: NoitaPath,
        entries: Vec<crate::profiles::ProfileEntry>,
        active_profile: Option<String>,
        active_profile_sync: bool,
    ) -> (r: Config)
        ensures
            r.wf(),
            r.noita_path == noita_path,
            r.active_profile_sync == active_profile_sync,
            r.profiles.view() == crate::profiles::first_of_each(
                crate::profiles::entries_view(entries@),
            ),
            opt_view(r.active_profile) == match active_profile {
                Some(a) => if registered(r.profiles.view(), a@) {
                    Some(a@)
                } else {
                    None
                },
                None => None,
            },
    {
        let profiles = ModProfiles::from_entries(entries);
        let active = match active_profile {
            Some(a) => if profiles.contains(a.as_str()) {
                Some(a)
            } else {
                None
            },
            None => None,
        };
        Config { noita_path, profiles, active_profile: active, active_profile_sync }
    }

    /// List: the registered names, in the order they were added.
    pub fn list(&self) -> (r: Result<Vec<String>, NoitadError>)
        ensures
            self.profiles.view().len() == 0 ==> r == Err::<Vec<String>, NoitadError>(
                NoitadError::NoProfiles,
            ),
            r is Ok <==> self.profiles.view().len() > 0,
            r matches Ok(names) ==> names@.len() == self.profiles.view().len() && forall|i: int|
                0 <= i < names@.len() ==> (#[trigger] names@[i])@ == self.profiles.view()[i].0,
    {
        if self.profiles.len() == 0 {
            return Err(NoitadError::NoProfiles);
        }
        Ok(self.profiles.names())
    }
}

} // verus!
