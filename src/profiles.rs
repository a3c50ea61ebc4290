//! The registry of named profiles: each name maps to the file that holds its
//! mod list. The registry decides; the caller reads and writes the files.

use vstd::prelude::*;

use crate::codec::{encoded_doc, parse_doc};
use crate::error::NoitadError;
use crate::mod_config::Mods;
use crate::path::joined;

verus! {

/// A file to be written: its path and its whole new text.
#[derive(Clone, Debug, PartialEq, Eq)]
pub struct FileWrite {
    pub path: String,
    pub contents: String,
}

/// One registered profile.
#[derive(Clone, Debug, PartialEq, Eq)]
pub struct ProfileEntry {
    pub name: String,
    pub path: String,
}

/// Profile names and the paths of their mod-list files, in the order they
/// were added; no name appears twice.
#[derive(Clone, Debug, PartialEq, Eq)]
pub struct ModProfiles {
    entries: Vec<ProfileEntry>,
}

pub open spec fn entries_view(v: Seq<ProfileEntry>) -> Seq<(Seq<char>, Seq<char>)> {
    v.map_values(|e: ProfileEntry| (e.name@, e.path@))
}

/// The index of the entry named `name`.
pub open spec fn index_of(v: Seq<(Seq<char>, Seq<char>)>, name: Seq<char>) -> Option<int> {
    if exists|i: int| 0 <= i < v.len() && (#[trigger] v[i]).0 == name {
        Some(choose|i: int| 0 <= i < v.len() && (#[trigger] v[i]).0 == name)
    } else {
        None
    }
}

pub open spec fn registered(v: Seq<(Seq<char>, Seq<char>)>, name: Seq<char>) -> bool {
    exists|i: int| 0 <= i < v.len() && (#[trigger] v[i]).0 == name
}

/// The file of the profile named `name`, where it is registered.
pub open spec fn path_in(v: Seq<(Seq<char>, Seq<char>)>, name: Seq<char>) -> Option<Seq<char>> {
    match index_of(v, name) {
        Some(i) => Some(v[i].1),
        None => None,
    }
}

pub open spec fn unique_keys(v: Seq<(Seq<char>, Seq<char>)>) -> bool {
    forall|a: int, b: int| 0 <= a < b < v.len() ==> (#[trigger] v[a]).0 != (#[trigger] v[b]).0
}

/// `v` without the entry named `name`.
pub open spec fn without(v: Seq<(Seq<char>, Seq<char>)>, name: Seq<char>) -> Seq<(Seq<char>, Seq<char>)> {
    v.filter(not_named(name))
}

pub open spec fn not_named(name: Seq<char>) -> spec_fn((Seq<char>, Seq<char>)) -> bool {
    |e: (Seq<char>, Seq<char>)| e.0 != name
}

/// The file name of a profile: its name with `.xml`.
pub open spec fn profile_file_name(name: Seq<char>) -> Seq<char> {
    name + ".xml"@
}

/// Where the file of profile `name` lives in directory `dir`.
pub open spec fn profile_path(dir: Seq<char>, name: Seq<char>) -> Seq<char> {
    joined(dir, profile_file_name(name))
}

/// The entries of `v` whose names no earlier entry has.
pub open spec fn first_of_each(v: Seq<(Seq<char>, Seq<char>)>) -> Seq<(Seq<char>, Seq<char>)>
    decreases v.len(),
{
    if v.len() == 0 {
        v
    } else if registered(first_of_each(v.drop_last()), v.last().0) {
        first_of_each(v.drop_last())
    } else {
        first_of_each(v.drop_last()).push(v.last())
    }
}

/// After a profile is added under a name the name is registered, so adding
/// under the same name again fails.
pub proof fn lemma_add_twice(v: Seq<(Seq<char>, Seq<char>)>, name: Seq<char>, path: Seq<char>)
    ensures
        registered(v.push((name, path)), name),
{
    assert(v.push((name, path))[v.len() as int].0 == name);
}

/// Removing a name that is not registered fails, and so does removing a
/// name a second time.
pub proof fn lemma_remove_twice(v: Seq<(Seq<char>, Seq<char>)>, name: Seq<char>)
    ensures
        !registered(without(v, name), name),
{
    broadcast use Seq::lemma_filter_pred;

    if registered(without(v, name), name) {
        let k = choose|k: int| 0 <= k < without(v, name).len() && (#[trigger] without(v, name)[k]).0
            == name;
        assert(not_named(name)(without(v, name)[k]));
    }
}

proof fn lemma_index_unique(v: Seq<(Seq<char>, Seq<char>)>, name: Seq<char>, i: int)
    requires
        unique_keys(v),
        0 <= i < v.len(),
        v[i].0 == name,
    ensures
        index_of(v, name) == Some(i),
        path_in(v, name) == Some(v[i].1),
{
    let j = choose|j: int| 0 <= j < v.len() && (#[trigger] v[j]).0 == name;
    if j < i {
        assert(v[j].0 != v[i].0);
    } else if j > i {
        assert(v[i].0 != v[j].0);
    }
}

impl ModProfiles {
    pub closed spec fn view(&self) -> Seq<(Seq<char>, Seq<char>)> {
        entries_view(self.entries@)
    }

    pub closed spec fn wf(&self) -> bool {
        unique_keys(self.view())
    }

    /// An empty registry.
    pub fn new() -> (r: ModProfiles)
        ensures
            r.wf(),
            r.view() == Seq::<(Seq<char>, Seq<char>)>::empty(),
    {
        let r = ModProfiles { entries: Vec::new() };
        assert(r.view() =~= Seq::<(Seq<char>, Seq<char>)>::empty());
        r
    }

    /// A registry of the given entries, keeping the first of each name.
    pub fn from_entries(entries: Vec<ProfileEntry>) -> (r: ModProfiles)
        ensures
            r.wf(),
            r.view() == first_of_each(entries_view(entries@)),
    {
        let ghost ev = entries_view(entries@);
        let mut r = ModProfiles::new();
        let mut i: usize = 0;
        while i < entries.len()
            invariant
                i <= entries.len(),
                ev == entries_view(entries@),
                r.wf(),
                r.view() == first_of_each(ev.subrange(0, i as int)),
            decreases entries.len() - i,
        {
            let e = &entries[i];
            proof {
                let sub = ev.subrange(0, i + 1);
                assert(sub.drop_last() =~= ev.subrange(0, i as int));
                assert(sub.last() == (e.name@, e.path@));
            }
            if !r.contains(e.name.as_str()) {
                r.insert(e.name.as_str(), e.path.clone());
            }
            i = i + 1;
        }
        assert(ev.subrange(0, i as int) =~= ev);
        r
    }

    /// The entries, in the order they were added.
    pub fn entries(&self) -> (r: Vec<ProfileEntry>)
        ensures
            entries_view(r@) == self.view(),
    {
        let mut out: Vec<ProfileEntry> = Vec::new();
        let mut i: usize = 0;
        while i < self.entries.len()
            invariant
                i <= self.entries.len(),
                entries_view(out@) == self.view().subrange(0, i as int),
            decreases self.entries.len() - i,
        {
            let e = &self.entries[i];
            let ghost old_out = out@;
            out.push(ProfileEntry { name: e.name.clone(), path: e.path.clone() });
            assert(self.view()[i as int] == (e.name@, e.path@));
            assert(entries_view(out@) =~= entries_view(old_out).push((e.name@, e.path@)));
            assert(entries_view(out@) =~= self.view().subrange(0, i + 1));
            i = i + 1;
        }
        assert(self.view().subrange(0, i as int) =~= self.view());
        out
    }

    pub fn len(&self) -> (r: usize)
        ensures
            r == self.view().len(),
    {
        self.entries.len()
    }

    /// The position of the profile named `profile`.
    fn find(&self, profile: &str) -> (r: Option<usize>)
        requires
            self.wf(),
        ensures
            r is None <==> !registered(self.view(), profile@),
            r matches Some(i) ==> i < self.view().len() && index_of(self.view(), profile@) == Some(
                i as int,
            ) && self.view()[i as int].0 == profile@,
    {
        let name = String::from_str(profile);
        let mut i: usize = 0;
        while i < self.entries.len()
            invariant
                i <= self.entries.len(),
                self.wf(),
                name@ == profile@,
                forall|k: int| 0 <= k < i ==> (#[trigger] self.view()[k]).0 != profile@,
            decreases self.entries.len() - i,
        {
            assert(self.view()[i as int] == (self.entries@[i as int].name@, self.entries@[i as int].path@));
            if self.entries[i].name == name {
                proof {
                    lemma_index_unique(self.view(), profile@, i as int);
                }
                return Some(i);
            }
            i = i + 1;
        }
        None
    }

    /// Whether a profile of this name is registered.
    pub fn contains(&self, profile: &str) -> (r: bool)
        requires
            self.wf(),
        ensures
            r == registered(self.view(), profile@),
    {
        self.find(profile).is_some()
    }

    /// The path of the profile's file.
    pub fn path_of(&self, profile: &str) -> (r: Result<String, NoitadError>)
        requires
            self.wf(),
        ensures
            r is Ok <==> registered(self.view(), profile@),
            r matches Ok(p) ==> path_in(self.view(), profile@) == Some(p@),
            r matches Err(e) ==> (e matches NoitadError::ProfileNotFound(n) && n@ == profile@),
    {
        match self.find(profile) {
            Some(i) => Ok(self.entries[i].path.clone()),
            None => Err(NoitadError::ProfileNotFound(String::from_str(profile))),
        }
    }

    /// The registered names, in the order they were added.
    pub fn names(&self) -> (r: Vec<String>)
        ensures
            r@.len() == self.view().len(),
            forall|i: int| 0 <= i < r@.len() ==> (#[trigger] r@[i])@ == self.view()[i].0,
    {
        let mut out: Vec<String> = Vec::new();
        let mut i: usize = 0;
        while i < self.entries.len()
            invariant
                i <= self.entries.len(),
                out@.len() == i,
                forall|k: int| 0 <= k < i ==> (#[trigger] out@[k])@ == self.view()[k].0,
            decreases self.entries.len() - i,
        {
            out.push(self.entries[i].name.clone());
            i = i + 1;
        }
        out
    }

    fn insert(&mut self, profile: &str, path: String)
        requires
            old(self).wf(),
            !registered(old(self).view(), profile@),
        ensures
            final(self).wf(),
            final(self).view() == old(self).view().push((profile@, path@)),
    {
        let ghost before = self.entries@;
        self.entries.push(ProfileEntry { name: String::from_str(profile), path });
        assert(self.view() =~= entries_view(before).push((profile@, path@)));
        assert forall|a: int, b: int| 0 <= a < b < self.view().len() implies (
        #[trigger] self.view()[a]).0 != (#[trigger] self.view()[b]).0 by {
            if b == self.view().len() - 1 {
                assert(self.view()[a] == entries_view(before)[a]);
            } else {
                assert(self.view()[a] == entries_view(before)[a]);
                assert(self.view()[b] == entries_view(before)[b]);
            }
        }
    }

    /// Captures the live mod list as a new profile: registers `profile` with
    /// its file in `profiles_dir`, and gives the list read from `live_text`
    /// and the write that stores it.
    pub fn add_profile(&mut self, profile: &str, profiles_dir: &str, live_text: &str) -> (r: Result<
        (Mods, FileWrite),
        NoitadError,
    >)
        requires
            old(self).wf(),
        ensures
            final(self).wf(),
            registered(old(self).view(), profile@) ==> (r matches Err(NoitadError::ProfileExists(n)) && n@ == profile@),
            !registered(old(self).view(), profile@) && parse_doc(live_text@) is None ==> r
                == Err::<(Mods, FileWrite), NoitadError>(NoitadError::Decode),
            r is Ok <==> !registered(old(self).view(), profile@) && parse_doc(live_text@) is Some,
            r matches Ok((m, w)) ==> {
                &&& parse_doc(live_text@) == Some(m@)
                &&& w.path@ == profile_path(profiles_dir@, profile@)
                &&& w.contents@ == encoded_doc(m@)
                &&& final(self).view() == old(self).view().push((profile@, w.path@))
            },
            r is Err ==> *final(self) == *old(self),
    {
        if self.find(profile).is_some() {
            return Err(NoitadError::ProfileExists(String::from_str(profile)));
        }
        let mods = match Mods::from_xml(live_text) {
            Ok(m) => m,
            Err(e) => return Err(e),
        };
        let path = profile_file_path(profiles_dir, profile);
        let contents = mods.to_xml();
        self.insert(profile, path.clone());
        Ok((mods, FileWrite { path, contents }))
    }

    /// The stored list of a profile, read from `file_text`, the text of its
    /// file.
    pub fn get_profile(&self, profile: &str, file_text: &str) -> (r: Result<Mods, NoitadError>)
        requires
            self.wf(),
        ensures
            !registered(self.view(), profile@) ==> (r matches Err(NoitadError::ProfileNotFound(n)) && n@ == profile@),
            registered(self.view(), profile@) && parse_doc(file_text@) is None ==> r == Err::<
                Mods,
                NoitadError,
            >(NoitadError::Decode),
            r is Ok <==> registered(self.view(), profile@) && parse_doc(file_text@) is Some,
            r matches Ok(m) ==> parse_doc(file_text@) == Some(m@),
    {
        if self.find(profile).is_none() {
            return Err(NoitadError::ProfileNotFound(String::from_str(profile)));
        }
        Mods::from_xml(file_text)
    }

    /// The write that replaces a profile's stored list with `mods`.
    pub fn update_profile(&self, profile: &str, mods: &Mods) -> (r: Result<FileWrite, NoitadError>)
        requires
            self.wf(),
        ensures
            !registered(self.view(), profile@) ==> (r matches Err(NoitadError::ProfileNotFound(n)) && n@ == profile@),
            r is Ok <==> registered(self.view(), profile@),
            r matches Ok(w) ==> path_in(self.view(), profile@) == Some(w.path@) && w.contents@
                == encoded_doc(mods@),
    {
        match self.find(profile) {
            None => Err(NoitadError::ProfileNotFound(String::from_str(profile))),
            Some(i) => Ok(FileWrite { path: self.entries[i].path.clone(), contents: mods.to_xml() }),
        }
    }

    /// Unregisters a profile and gives the path of its file, to be deleted.
    pub fn remove_profile(&mut self, profile: &str) -> (r: Result<String, NoitadError>)
        requires
            old(self).wf(),
        ensures
            final(self).wf(),
            !registered(old(self).view(), profile@) ==> (r matches Err(NoitadError::ProfileNotFound(n)) && n@ == profile@),
            r is Ok <==> registered(old(self).view(), profile@),
            r matches Ok(p) ==> path_in(old(self).view(), profile@) == Some(p@) && final(self).view()
                == without(old(self).view(), profile@),
            r is Err ==> *final(self) == *old(self),
    {
        match self.find(profile) {
            None => Err(NoitadError::ProfileNotFound(String::from_str(profile))),
            Some(i) => {
                let ghost before = self.view();
                let e = self.entries.remove(i);
                proof {
                    lemma_remove_is_without(before, profile@, i as int);
                    assert(self.view() =~= before.remove(i as int));
                }
                Ok(e.path)
            },
        }
    }
}

proof fn lemma_remove_is_without(v: Seq<(Seq<char>, Seq<char>)>, name: Seq<char>, i: int)
    requires
        unique_keys(v),
        0 <= i < v.len(),
        v[i].0 == name,
    ensures
        without(v, name) == v.remove(i),
        unique_keys(v.remove(i)),
    decreases v.len(),
{
    reveal(Seq::filter);
    let f = not_named(name);
    let d = v.drop_last();
    if i == v.len() - 1 {
        assert(v.remove(i) =~= d);
        assert forall|k: int| 0 <= k < d.len() implies #[trigger] f(d[k]) by {
            assert(v[k].0 != v[i].0);
        }
        lemma_filter_all(d, f);
    } else {
        assert(unique_keys(d));
        assert(d[i] == v[i]);
        lemma_remove_is_without(d, name, i);
        assert(f(v.last())) by {
            assert(v[i].0 != v[v.len() - 1].0);
        }
        assert(v.remove(i) =~= d.remove(i).push(v.last()));
    }
}

/// An entry of another name survives the removal of `name`.
pub proof fn lemma_without_keeps(v: Seq<(Seq<char>, Seq<char>)>, name: Seq<char>, k: int)
    requires
        0 <= k < v.len(),
        v[k].0 != name,
    ensures
        registered(without(v, name), v[k].0),
    decreases v.len(),
{
    reveal(Seq::filter);
    let d = v.drop_last();
    if k == v.len() - 1 {
        assert(without(v, name) == without(d, name).push(v.last()));
        assert(without(v, name)[without(d, name).len() as int] == v[k]);
    } else {
        assert(d[k] == v[k]);
        lemma_without_keeps(d, name, k);
        let j = choose|j: int| 0 <= j < without(d, name).len() && (#[trigger] without(d, name)[j]).0 == v[k].0;
        if not_named(name)(v.last()) {
            assert(without(v, name)[j] == without(d, name)[j]);
        } else {
            assert(without(v, name) == without(d, name));
        }
    }
}

proof fn lemma_filter_all(v: Seq<(Seq<char>, Seq<char>)>, f: spec_fn((Seq<char>, Seq<char>)) -> bool)
    requires
        forall|k: int| 0 <= k < v.len() ==> #[trigger] f(v[k]),
    ensures
        v.filter(f) == v,
    decreases v.len(),
{
    reveal(Seq::filter);
    if v.len() > 0 {
        let d = v.drop_last();
        assert forall|k: int| 0 <= k < d.len() implies #[trigger] f(d[k]) by {
            assert(d[k] == v[k]);
        }
        lemma_filter_all(d, f);
        assert(f(v[v.len() - 1]));
        assert(d.push(v.last()) =~= v);
    }
}

/// The file of profile `profile` in directory `dir`: `<dir>/<profile>.xml`.
pub fn profile_file_path(dir: &str, profile: &str) -> (r: String)
    ensures
        r@ == profile_path(dir@, profile@),
{
    let mut file = String::from_str(profile);
    file.append(".xml");
    let d = String::from_str(dir);
    crate::path::join(&d, file.as_str())
}

} // verus!
