use noitad::mod_config::{Mod, Mods};

fn m(enabled: bool, name: &str, fold: bool, id: usize) -> Mod {
    Mod::new(enabled, name.to_string(), fold, id)
}

#[test]
fn merge_updates_keeps_and_appends() {
    let mut stored = Mods::new(vec![m(true, "A", false, 0), m(false, "B", false, 0)]);
    let live = Mods::new(vec![m(false, "A", false, 0), m(true, "C", false, 0)]);
    stored.sync_with_noita(&live);
    assert_eq!(
        stored,
        Mods::new(vec![m(false, "A", false, 0), m(false, "B", false, 0), m(true, "C", false, 0)])
    );
}

#[test]
fn merge_twice_changes_nothing_more() {
    let mut stored = Mods::new(vec![m(true, "A", false, 0), m(false, "B", false, 0)]);
    let live = Mods::new(vec![m(false, "A", false, 0), m(true, "C", false, 0)]);
    stored.sync_with_noita(&live);
    let once = stored.clone();
    stored.sync_with_noita(&live);
    assert_eq!(stored, once);
}

#[test]
fn merge_copies_fold_state_and_new_workshop_id() {
    let mut stored = Mods::new(vec![m(false, "A", false, 100)]);
    let live = Mods::new(vec![m(true, "A", true, 200)]);
    stored.sync_with_noita(&live);
    assert_eq!(stored, Mods::new(vec![m(true, "A", true, 200)]));
}

#[test]
fn merge_appends_each_new_mod_once_in_live_order() {
    let mut stored = Mods::new(vec![m(true, "A", false, 0)]);
    let live = Mods::new(vec![
        m(true, "X", false, 1),
        m(false, "A", false, 0),
        m(false, "Y", true, 2),
        m(true, "Z", false, 3),
    ]);
    stored.sync_with_noita(&live);
    assert_eq!(
        stored,
        Mods::new(vec![
            m(false, "A", false, 0),
            m(true, "X", false, 1),
            m(false, "Y", true, 2),
            m(true, "Z", false, 3),
        ])
    );
}

#[test]
fn merge_with_empty_lists() {
    let mut stored = Mods::new(vec![m(true, "A", false, 0)]);
    stored.sync_with_noita(&Mods::new(vec![]));
    assert_eq!(stored, Mods::new(vec![m(true, "A", false, 0)]));
    let mut empty = Mods::new(vec![]);
    empty.sync_with_noita(&Mods::new(vec![m(true, "B", true, 5)]));
    assert_eq!(empty, Mods::new(vec![m(true, "B", true, 5)]));
}

#[test]
fn display_items_mark_local_mods_and_enabled_positions() {
    let list = Mods::new(vec![m(true, "a", false, 0), m(false, "b", false, 9), m(true, "c", false, 3)]);
    let (items, enabled) = list.display_items();
    assert_eq!(items.len(), 3);
    assert_eq!(items[0].label(), "a (Local)");
    assert_eq!(items[1].label(), "b (Steam)");
    assert_eq!(items[2].index, 2);
    assert_eq!(enabled, vec![0, 2]);
}
