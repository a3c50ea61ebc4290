use noitad::path::{pick_user_dir, first_existing_of, GamePath, HostOs, NoitaPath, SteamInfo};
use noitad::utils::group_equal_by_key;

fn steam() -> SteamInfo {
    SteamInfo {
        app_dir: Some("/games/steamapps/common/Noita".to_string()),
        libraries: vec!["/home/u/.steam/steam".to_string(), "/mnt/lib/".to_string()],
    }
}

fn none() -> SteamInfo {
    SteamInfo { app_dir: None, libraries: vec![] }
}

#[test]
fn steam_save_candidates_follow_each_library() {
    let c = NoitaPath::Steam.save_dir_candidates(HostOs::Linux, &None, &steam(), &vec![]);
    assert_eq!(
        c,
        vec![
            "/home/u/.steam/steam/compatdata/881100/pfx/drive_c/users/steamuser/AppData/LocalLow/Nolla_Games_Noita/save00".to_string(),
            "/mnt/lib/compatdata/881100/pfx/drive_c/users/steamuser/AppData/LocalLow/Nolla_Games_Noita/save00".to_string(),
        ]
    );
    let s = NoitaPath::Steam.save_dir(HostOs::Linux, &None, &steam(), &vec![], &vec![false, true]);
    assert_eq!(s, Some(c[1].clone()));
    assert_eq!(
        NoitaPath::Steam.save_dir(HostOs::Linux, &None, &steam(), &vec![], &vec![false, false]),
        None
    );
}

#[test]
fn manual_windows_save_is_under_home() {
    let p = NoitaPath::Other(None);
    let home = Some("C:/Users/me".to_string());
    let c = p.save_dir_candidates(HostOs::Windows, &home, &none(), &vec![]);
    assert_eq!(c, vec!["C:/Users/me/AppData/LocalLow/Nolla_Games_Noita/save00".to_string()]);
    assert_eq!(p.save_dir(HostOs::Windows, &None, &none(), &vec![], &vec![true]), None);
}

#[test]
fn manual_linux_save_uses_first_real_user() {
    let p = NoitaPath::Other(Some(GamePath::new("/g".to_string(), Some("/pfx".to_string()))));
    assert_eq!(p.users_dir(), Some("/pfx/drive_c/users".to_string()));
    let users = vec!["Public".to_string(), "steamuser".to_string(), "bob".to_string(), "alice".to_string()];
    let c = p.save_dir_candidates(HostOs::Linux, &None, &none(), &users);
    assert_eq!(
        c,
        vec!["/pfx/drive_c/users/bob/AppData/LocalLow/Nolla_Games_Noita/save00".to_string()]
    );
    let only_synthetic = vec!["Public".to_string(), "steamuser".to_string()];
    assert!(p.save_dir_candidates(HostOs::Linux, &None, &none(), &only_synthetic).is_empty());
    let no_prefix = NoitaPath::Other(Some(GamePath::new("/g".to_string(), None)));
    assert!(no_prefix.save_dir_candidates(HostOs::Linux, &None, &none(), &users).is_empty());
}

#[test]
fn user_filter_needs_both_names_excluded() {
    assert_eq!(pick_user_dir(&vec!["Public".to_string(), "me".to_string()]), Some(1));
    assert_eq!(pick_user_dir(&vec!["steamuser".to_string(), "Public".to_string()]), None);
    assert_eq!(pick_user_dir(&vec![]), None);
    assert_eq!(pick_user_dir(&vec!["public".to_string()]), Some(0));
}

#[test]
fn game_root_workshop_and_local_mods() {
    assert_eq!(
        NoitaPath::Steam.game_root(&steam()),
        Some("/games/steamapps/common/Noita".to_string())
    );
    assert_eq!(
        NoitaPath::Steam.local_mods(&steam()),
        Some("/games/steamapps/common/Noita/mods".to_string())
    );
    let manual = NoitaPath::Other(Some(GamePath::new("D:\\Noita\\".to_string(), None)));
    assert_eq!(manual.local_mods(&none()), Some("D:\\Noita\\mods".to_string()));
    assert_eq!(NoitaPath::Other(None).game_root(&steam()), None);
    assert_eq!(
        NoitaPath::Steam.workshop_candidates(&steam()),
        vec![
            "/home/u/.steam/steam/workshop/content/881100".to_string(),
            "/mnt/lib/workshop/content/881100".to_string(),
        ]
    );
    assert_eq!(
        NoitaPath::Steam.workshop(&steam(), &vec![true, true]),
        Some("/home/u/.steam/steam/workshop/content/881100".to_string())
    );
    assert_eq!(manual.workshop(&steam(), &vec![true]), None);
}

#[test]
fn default_location_depends_on_steam() {
    assert_eq!(NoitaPath::default_for(&steam()), NoitaPath::Steam);
    assert_eq!(NoitaPath::default_for(&none()), NoitaPath::Other(None));
}

#[test]
fn first_existing_ignores_missing_flags() {
    let c = vec!["a".to_string(), "b".to_string()];
    assert_eq!(first_existing_of(&c, &vec![false]), None);
    assert_eq!(first_existing_of(&c, &vec![false, true, true]), Some("b".to_string()));
}

#[test]
fn groups_equal_keys_in_order_of_first_appearance() {
    let keys = vec!["b".to_string(), "a".to_string(), "b".to_string(), "c".to_string(), "a".to_string()];
    let g = group_equal_by_key(&keys);
    assert_eq!(
        g,
        vec![
            ("b".to_string(), vec![0, 2]),
            ("a".to_string(), vec![1, 4]),
            ("c".to_string(), vec![3]),
        ]
    );
    assert!(group_equal_by_key(&vec![]).is_empty());
}
