use noitad::error::{ErrorKind, NoitadError};
use noitad::mod_config::{Mod, Mods};

fn m(enabled: bool, name: &str, fold: bool, id: usize) -> Mod {
    Mod::new(enabled, name.to_string(), fold, id)
}

#[test]
fn encodes_one_record_exactly() {
    let list = Mods::new(vec![m(true, "evaisa.lua", false, 0)]);
    assert_eq!(
        list.to_xml(),
        "<Mods><Mod enabled=\"1\" name=\"evaisa.lua\" settings_fold_open=\"0\" workshop_item_id=\"0\"/></Mods>"
    );
}

#[test]
fn encodes_empty_list() {
    assert_eq!(Mods::new(vec![]).to_xml(), "<Mods></Mods>");
}

#[test]
fn round_trip_keeps_order_flags_and_ids() {
    let list = Mods::new(vec![
        m(true, "zeta", true, 2_860_112_305),
        m(false, "alpha", false, 0),
        m(true, "a<b>&'c\"", false, 7),
        m(false, "ünïcode", true, usize::MAX),
    ]);
    let text = list.to_xml();
    assert_eq!(Mods::from_xml(&text), Ok(list));
}

#[test]
fn escapes_special_characters_in_names() {
    let list = Mods::new(vec![m(false, "a&b<c", false, 1)]);
    let text = list.to_xml();
    assert!(text.contains("name=\"a&amp;b&lt;c\""));
}

#[test]
fn decodes_file_as_the_game_writes_it() {
    let text = "<?xml version=\"1.0\"?>\n<Mods>\n  <Mod \n    enabled=\"1\" \n    name=\"evaisa.lua\" \n    settings_fold_open=\"0\" \n    workshop_item_id=\"0\" >\n  </Mod>\n  <Mod enabled=\"0\" name=\"grahams_things\" settings_fold_open=\"1\" workshop_item_id=\"2069914034\" />\n</Mods>\n";
    let list = Mods::from_xml(text).unwrap();
    assert_eq!(
        list,
        Mods::new(vec![
            m(true, "evaisa.lua", false, 0),
            m(false, "grahams_things", true, 2_069_914_034),
        ])
    );
}

#[test]
fn decodes_entities_and_word_booleans() {
    let text = "<Mods><Mod enabled=\"true\" name=\"x &amp; y &#65;\" settings_fold_open=\"false\" workshop_item_id=\"12\"/></Mods>";
    let list = Mods::from_xml(text).unwrap();
    assert_eq!(list, Mods::new(vec![m(true, "x & y A", false, 12)]));
}

#[test]
fn decodes_empty_root() {
    assert_eq!(Mods::from_xml("<Mods/>"), Ok(Mods::new(vec![])));
    assert_eq!(Mods::from_xml("<Mods>\n</Mods>"), Ok(Mods::new(vec![])));
}

#[test]
fn rejects_malformed_values() {
    let bad = [
        "<Mods><Mod enabled=\"yes?\" name=\"a\" settings_fold_open=\"0\" workshop_item_id=\"0\"/></Mods>",
        "<Mods><Mod enabled=\"1\" name=\"a\" settings_fold_open=\"0\" workshop_item_id=\"-1\"/></Mods>",
        "<Mods><Mod enabled=\"1\" name=\"a\" settings_fold_open=\"0\" workshop_item_id=\"\"/></Mods>",
        "<Mods><Mod enabled=\"1\" name=\"a\" settings_fold_open=\"0\" workshop_item_id=\"99999999999999999999999\"/></Mods>",
        "<Mods><Mod enabled=\"1\" name=\"a &bogus; b\" settings_fold_open=\"0\" workshop_item_id=\"0\"/></Mods>",
    ];
    for text in bad {
        let r = Mods::from_xml(text);
        assert_eq!(r, Err(NoitadError::Decode), "{}", text);
        assert_eq!(r.unwrap_err().kind(), ErrorKind::DecodeFailure);
    }
}

#[test]
fn rejects_missing_attributes_and_structure() {
    let bad = [
        "",
        "<Mods>",
        "<Mods><Mod enabled=\"1\" name=\"a\" settings_fold_open=\"0\"/></Mods>",
        "<Mods><Mod enabled=\"1\" name=\"a\" settings_fold_open=\"0\" workshop_item_id=\"0\"></Mods>",
        "<Mods></Mods> trailing",
        "<Other></Other>",
    ];
    for text in bad {
        assert_eq!(Mods::from_xml(text), Err(NoitadError::Decode), "{}", text);
    }
}


#[test]
fn decodes_attributes_in_any_order_and_skips_unknown_ones() {
    let text = "<Mods><Mod workshop_item_id='5' extra=\"x\" name='a \"q\"' settings_fold_open=\"1\" enabled=\"0\"/></Mods>";
    let list = Mods::from_xml(text).unwrap();
    assert_eq!(list, Mods::new(vec![m(false, "a \"q\"", true, 5)]));
}

#[test]
fn rejects_repeated_attribute() {
    let text = "<Mods><Mod enabled=\"1\" enabled=\"0\" name=\"a\" settings_fold_open=\"0\" workshop_item_id=\"0\"/></Mods>";
    assert_eq!(Mods::from_xml(text), Err(NoitadError::Decode));
}
