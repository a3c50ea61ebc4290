//! Where the game and its files are: the install root, the save directory,
//! the workshop directory and the local mods directory.
//!
//! What only the machine can answer (the Steam libraries, the home
//! directory, the entries of a directory, whether a directory exists) is
//! handed in as plain values; the rules that combine them are here.

use vstd::prelude::*;

use crate::codec::{decimal, push_decimal};

verus! {

/// The game's id in the Steam catalog.
pub const NOITA_STEAM_ID: usize = 881100;

/// A game install configured by hand.
#[derive(Clone, Debug, PartialEq, Eq)]
pub struct GamePath {
    pub game_root: String,
    /// The Wine or Proton prefix that the game runs in, on a host that is
    /// not Windows.
    pub wine_prefix: Option<String>,
}

/// How the game's location is found.
#[derive(Clone, Debug, PartialEq, Eq)]
pub enum NoitaPath {
    /// Through the Steam client's records.
    Steam,
    /// As configured, if it is.
    Other(Option<GamePath>),
}

/// The class of operating system the tool runs on.
#[derive(Clone, Copy, Debug, PartialEq, Eq, Structural)]
pub enum HostOs {
    Windows,
    Linux,
    Unsupported,
}

/// What the Steam client's records say, as read from disk.
#[derive(Clone, Debug, PartialEq, Eq)]
pub struct SteamInfo {
    /// The install directory of the game, if Steam has it.
    pub app_dir: Option<String>,
    /// The Steam library folders, in the client's order.
    pub libraries: Vec<String>,
}

/// `rel` appended to `base` as a path.
pub open spec fn joined(base: Seq<char>, rel: Seq<char>) -> Seq<char> {
    if base.len() == 0 {
        rel
    } else if base.last() == '/' || base.last() == '\\' {
        base + rel
    } else {
        base + seq!['/'] + rel
    }
}

pub open spec fn save_suffix() -> Seq<char> {
    "AppData/LocalLow/Nolla_Games_Noita/save00"@
}

/// The save directory inside the Proton prefix of one Steam library.
pub open spec fn steam_save_candidate(library: Seq<char>) -> Seq<char> {
    joined(
        joined(
            joined(joined(library, "compatdata"@), decimal(NOITA_STEAM_ID as nat)),
            "pfx/drive_c/users/steamuser"@,
        ),
        save_suffix(),
    )
}

/// The workshop content directory of one Steam library.
pub open spec fn workshop_candidate(library: Seq<char>) -> Seq<char> {
    joined(joined(library, "workshop/content"@), decimal(NOITA_STEAM_ID as nat))
}

/// A user directory that Wine or Proton creates, not the player's own.
pub open spec fn is_synthetic_user(name: Seq<char>) -> bool {
    name == "Public"@ || name == "steamuser"@
}

/// The first entry that is not a synthetic user directory.
pub open spec fn first_real_user(entries: Seq<Seq<char>>) -> Option<int> {
    if exists|i: int| 0 <= i < entries.len() && !is_synthetic_user(#[trigger] entries[i]) {
        Some(
            choose|i: int|
                0 <= i < entries.len() && !is_synthetic_user(#[trigger] entries[i]) && forall|k: int|
                    0 <= k < i ==> is_synthetic_user(#[trigger] entries[k]),
        )
    } else {
        None
    }
}

/// The first candidate that is marked as existing.
pub open spec fn first_existing(candidates: Seq<Seq<char>>, exists: Seq<bool>) -> Option<Seq<char>> {
    if exists|i: int| 0 <= i < candidates.len() && i < exists.len() && #[trigger] exists[i] {
        Some(
            candidates[choose|i: int|
                0 <= i < candidates.len() && i < exists.len() && #[trigger] exists[i] && forall|k: int|
                    0 <= k < i ==> !#[trigger] exists[k]],
        )
    } else {
        None
    }
}

pub open spec fn strings_view(v: Seq<String>) -> Seq<Seq<char>> {
    v.map_values(|s: String| s@)
}

pub open spec fn opt_view(o: Option<String>) -> Option<Seq<char>> {
    match o {
        Some(s) => Some(s@),
        None => None,
    }
}

impl GamePath {
    pub open spec fn users_dir_spec(&self) -> Option<Seq<char>> {
        match self.wine_prefix {
            Some(p) => Some(joined(p@, "drive_c/users"@)),
            None => None,
        }
    }
}

impl NoitaPath {
    pub open spec fn game_root_spec(&self, steam: SteamInfo) -> Option<Seq<char>> {
        match self {
            NoitaPath::Steam => opt_view(steam.app_dir),
            NoitaPath::Other(Some(g)) => Some(g.game_root@),
            NoitaPath::Other(None) => None,
        }
    }

    /// The directory whose entries are the users of the Wine prefix.
    pub open spec fn users_dir_spec(&self) -> Option<Seq<char>> {
        match self {
            NoitaPath::Other(Some(g)) => g.users_dir_spec(),
            _ => None,
        }
    }

    /// The places where the save directory may be, in the order tried.
    pub open spec fn save_dir_candidates_spec(
        &self,
        host: HostOs,
        home: Option<Seq<char>>,
        steam: SteamInfo,
        users: Seq<Seq<char>>,
    ) -> Seq<Seq<char>> {
        match self {
            NoitaPath::Steam => strings_view(steam.libraries@).map_values(
                |l: Seq<char>| steam_save_candidate(l),
            ),
            NoitaPath::Other(g) => if host == HostOs::Windows {
                match home {
                    Some(h) => seq![joined(h, save_suffix())],
                    None => Seq::empty(),
                }
            } else {
                match (self.users_dir_spec(), first_real_user(users)) {
                    (Some(d), Some(i)) => seq![joined(joined(d, users[i]), save_suffix())],
                    _ => Seq::empty(),
                }
            },
        }
    }

    pub open spec fn workshop_candidates_spec(&self, steam: SteamInfo) -> Seq<Seq<char>> {
        match self {
            NoitaPath::Steam => strings_view(steam.libraries@).map_values(
                |l: Seq<char>| workshop_candidate(l),
            ),
            _ => Seq::empty(),
        }
    }
}

pub(crate) fn join(base: &String, rel: &str) -> (r: String)
    ensures
        r@ == joined(base@, rel@),
{
    let mut out = base.clone();
    let n = base.as_str().unicode_len();
    if n > 0 {
        let last = base.as_str().get_char(n - 1);
        assert(base@.last() == last);
        if last != '/' && last != '\\' {
            out.append("/");
            proof {
                reveal_strlit("/");
            }
        }
    }
    out.append(rel);
    assert(out@ =~= joined(base@, rel@));
    out
}

fn copy_opt(o: &Option<String>) -> (r: Option<String>)
    ensures
        opt_view(r) == opt_view(*o),
{
    match o {
        Some(s) => Some(s.clone()),
        None => None,
    }
}

fn steam_save_path(library: &String) -> (r: String)
    ensures
        r@ == steam_save_candidate(library@),
{
    let a = join(library, "compatdata");
    let mut id = String::new();
    push_decimal(&mut id, NOITA_STEAM_ID);
    assert(id@ =~= decimal(NOITA_STEAM_ID as nat));
    let b = join(&a, id.as_str());
    let c = join(&b, "pfx/drive_c/users/steamuser");
    join(&c, "AppData/LocalLow/Nolla_Games_Noita/save00")
}

fn workshop_path(library: &String) -> (r: String)
    ensures
        r@ == workshop_candidate(library@),
{
    let a = join(library, "workshop/content");
    let mut id = String::new();
    push_decimal(&mut id, NOITA_STEAM_ID);
    assert(id@ =~= decimal(NOITA_STEAM_ID as nat));
    join(&a, id.as_str())
}

/// The index of the first entry that is neither `Public` nor `steamuser`.
pub fn pick_user_dir(entries: &Vec<String>) -> (r: Option<usize>)
    ensures
        r is None <==> first_real_user(strings_view(entries@)) is None,
        r matches Some(i) ==> i < entries.len() && first_real_user(strings_view(entries@)) == Some(
            i as int,
        ),
{
    let ghost names = strings_view(entries@);
    let public = String::from_str("Public");
    let steamuser = String::from_str("steamuser");
    let mut i: usize = 0;
    while i < entries.len()
        invariant
            i <= entries.len(),
            names == strings_view(entries@),
            public@ == "Public"@,
            steamuser@ == "steamuser"@,
            forall|k: int| 0 <= k < i ==> is_synthetic_user(#[trigger] names[k]),
        decreases entries.len() - i,
    {
        assert(names[i as int] == entries@[i as int]@);
        if !(entries[i] == public) && !(entries[i] == steamuser) {
            proof {
                let j = choose|j: int|
                    0 <= j < names.len() && !is_synthetic_user(#[trigger] names[j]) && forall|k: int|
                        0 <= k < j ==> is_synthetic_user(#[trigger] names[k]);
                assert(!is_synthetic_user(names[i as int]));
                if j < i {
                } else if j > i {
                    assert(is_synthetic_user(names[i as int]));
                }
            }
            return Some(i);
        }
        i = i + 1;
    }
    None
}

/// The first candidate whose flag in `exists` is set.
pub fn first_existing_of(candidates: &Vec<String>, exists: &Vec<bool>) -> (r: Option<String>)
    ensures
        opt_view(r) == first_existing(strings_view(candidates@), exists@),
{
    let ghost c = strings_view(candidates@);
    let mut i: usize = 0;
    while i < candidates.len() && i < exists.len()
        invariant
            i <= candidates.len(),
            c == strings_view(candidates@),
            forall|k: int| 0 <= k < i ==> !#[trigger] exists@[k],
        decreases candidates.len() - i,
    {
        if exists[i] {
            proof {
                let j = choose|j: int|
                    0 <= j < c.len() && j < exists@.len() && #[trigger] exists@[j] && forall|k: int|
                        0 <= k < j ==> !#[trigger] exists@[k];
                if j < i {
                } else if j > i {
                    assert(!exists@[i as int]);
                }
                assert(c[i as int] == candidates@[i as int]@);
            }
            return Some(candidates[i].clone());
        }
        i = i + 1;
    }
    None
}

impl GamePath {
    pub fn new(game_root: String, wine_prefix: Option<String>) -> (r: GamePath)
        ensures
            r.game_root@ == game_root@,
            opt_view(r.wine_prefix) == opt_view(wine_prefix),
    {
        GamePath { game_root, wine_prefix }
    }
}

impl NoitaPath {
    /// `Steam` where the Steam client knows the game, else an unconfigured
    /// manual location.
    pub fn default_for(steam: &SteamInfo) -> (r: NoitaPath)
        ensures
            r is Steam <==> steam.app_dir is Some,
            !(r is Steam) ==> r == NoitaPath::Other(None),
    {
        match &steam.app_dir {
            Some(_) => NoitaPath::Steam,
            None => NoitaPath::Other(None),
        }
    }

    /// The game's install directory.
    pub fn game_root(&self, steam: &SteamInfo) -> (r: Option<String>)
        ensures
            opt_view(r) == self.game_root_spec(*steam),
    {
        match self {
            NoitaPath::Steam => copy_opt(&steam.app_dir),
            NoitaPath::Other(Some(g)) => Some(g.game_root.clone()),
            NoitaPath::Other(None) => None,
        }
    }

    /// The directory of the Wine prefix's users, where one is configured.
    pub fn users_dir(&self) -> (r: Option<String>)
        ensures
            opt_view(r) == self.users_dir_spec(),
    {
        match self {
            NoitaPath::Other(Some(g)) => match &g.wine_prefix {
                Some(p) => Some(join(p, "drive_c/users")),
                None => None,
            },
            _ => None,
        }
    }

    /// The places where the save directory may be, in the order tried:
    /// with Steam, the Proton prefix of each library; configured by hand on
    /// Windows, under the home directory; elsewhere, under the first real
    /// user of the Wine prefix (`users` lists the entries of `users_dir`).
    pub fn save_dir_candidates(
        &self,
        host: HostOs,
        home: &Option<String>,
        steam: &SteamInfo,
        users: &Vec<String>,
    ) -> (r: Vec<String>)
        requires
            self is Steam || host != HostOs::Unsupported,
        ensures
            strings_view(r@) == self.save_dir_candidates_spec(
                host,
                opt_view(*home),
                *steam,
                strings_view(users@),
            ),
    {
        let mut out: Vec<String> = Vec::new();
        match self {
            NoitaPath::Steam => {
                let ghost libs = strings_view(steam.libraries@);
                let mut i: usize = 0;
                while i < steam.libraries.len()
                    invariant
                        i <= steam.libraries.len(),
                        libs == strings_view(steam.libraries@),
                        strings_view(out@) == libs.subrange(0, i as int).map_values(
                            |l: Seq<char>| steam_save_candidate(l),
                        ),
                    decreases steam.libraries.len() - i,
                {
                    let c = steam_save_path(&steam.libraries[i]);
                    let ghost before = out@;
                    out.push(c);
                    proof {
                        assert(strings_view(out@) =~= strings_view(before).push(
                            steam_save_candidate(libs[i as int]),
                        ));
                        assert(libs.subrange(0, i + 1).map_values(
                            |l: Seq<char>| steam_save_candidate(l),
                        ) =~= libs.subrange(0, i as int).map_values(
                            |l: Seq<char>| steam_save_candidate(l),
                        ).push(steam_save_candidate(libs[i as int])));
                    }
                    i = i + 1;
                }
                assert(libs.subrange(0, i as int) =~= libs);
            },
            NoitaPath::Other(_) => {
                if host == HostOs::Windows {
                    match home {
                        Some(h) => {
                            out.push(join(h, "AppData/LocalLow/Nolla_Games_Noita/save00"));
                        },
                        None => {},
                    }
                } else {
                    match (self.users_dir(), pick_user_dir(users)) {
                        (Some(d), Some(i)) => {
                            let u = join(&d, users[i].as_str());
                            out.push(join(&u, "AppData/LocalLow/Nolla_Games_Noita/save00"));
                            assert(strings_view(users@)[i as int] == users@[i as int]@);
                        },
                        _ => {},
                    }
                }
            },
        }
        assert(strings_view(out@) =~= self.save_dir_candidates_spec(
            host,
            opt_view(*home),
            *steam,
            strings_view(users@),
        ));
        out
    }

    /// The save directory: the first candidate that exists (`exists[i]`
    /// tells whether candidate `i` is a directory).
    pub fn save_dir(
        &self,
        host: HostOs,
        home: &Option<String>,
        steam: &SteamInfo,
        users: &Vec<String>,
        exists: &Vec<bool>,
    ) -> (r: Option<String>)
        requires
            self is Steam || host != HostOs::Unsupported,
        ensures
            opt_view(r) == first_existing(
                self.save_dir_candidates_spec(
                    host,
                    opt_view(*home),
                    *steam,
                    strings_view(users@),
                ),
                exists@,
            ),
    {
        let c = self.save_dir_candidates(host, home, steam, users);
        first_existing_of(&c, exists)
    }

    /// The places where the workshop directory may be: with Steam, one in
    /// each library; none otherwise.
    pub fn workshop_candidates(&self, steam: &SteamInfo) -> (r: Vec<String>)
        ensures
            strings_view(r@) == self.workshop_candidates_spec(*steam),
    {
        let mut out: Vec<String> = Vec::new();
        match self {
            NoitaPath::Steam => {
                let ghost libs = strings_view(steam.libraries@);
                let mut i: usize = 0;
                while i < steam.libraries.len()
                    invariant
                        i <= steam.libraries.len(),
                        libs == strings_view(steam.libraries@),
                        strings_view(out@) == libs.subrange(0, i as int).map_values(
                            |l: Seq<char>| workshop_candidate(l),
                        ),
                    decreases steam.libraries.len() - i,
                {
                    let c = workshop_path(&steam.libraries[i]);
                    let ghost before = out@;
                    out.push(c);
                    proof {
                        assert(strings_view(out@) =~= strings_view(before).push(
                            workshop_candidate(libs[i as int]),
                        ));
                        assert(libs.subrange(0, i + 1).map_values(
                            |l: Seq<char>| workshop_candidate(l),
                        ) =~= libs.subrange(0, i as int).map_values(
                            |l: Seq<char>| workshop_candidate(l),
                        ).push(workshop_candidate(libs[i as int])));
                    }
                    i = i + 1;
                }
                assert(libs.subrange(0, i as int) =~= libs);
            },
            NoitaPath::Other(_) => {
                assert(strings_view(out@) =~= Seq::<Seq<char>>::empty());
            },
        }
        out
    }

    /// The workshop directory: the first candidate that exists.
    pub fn workshop(&self, steam: &SteamInfo, exists: &Vec<bool>) -> (r: Option<String>)
        ensures
            opt_view(r) == first_existing(self.workshop_candidates_spec(*steam), exists@),
    {
        let c = self.workshop_candidates(steam);
        first_existing_of(&c, exists)
    }

    /// The directory of locally authored mods: `mods` under the install root.
    pub fn local_mods(&self, steam: &SteamInfo) -> (r: Option<String>)
        ensures
            opt_view(r) == match self.game_root_spec(*steam) {
                Some(g) => Some(joined(g, "mods"@)),
                None => None,
            },
    {
        match self.game_root(steam) {
            Some(g) => Some(join(&g, "mods")),
            None => None,
        }
    }
}

} // verus!
