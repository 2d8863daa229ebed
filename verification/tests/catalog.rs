use al_wallpaper::assoc::StrMap;
use al_wallpaper::favorites::Favorites;
use al_wallpaper::model::{
    def_interval, def_power_battery, fit_for, def_power_mode, def_scope, hex, hex_readable, Data, Faction,
    Fit, Monitor, Palette, PowerCfg, Rgb, RotationCfg, Skin, State,
};
use std::path::PathBuf;

fn palette(accent: &str) -> Palette {
    Palette {
        bg: "#0d1b2a".to_string(),
        panel: "#13283f".to_string(),
        accent: accent.to_string(),
        accent2: "#e8e8e8".to_string(),
        text: "#eef2f6".to_string(),
        muted: "#9fb2c4".to_string(),
    }
}

fn faction(key: &str, name: &str, order: i32) -> Faction {
    Faction {
        key: key.to_string(),
        name: name.to_string(),
        short: key.to_uppercase(),
        order,
        palette: palette("#c9a227"),
    }
}

fn skin(code: &str, ship: &str, faction: &str, name: Option<&str>, oath: bool) -> Skin {
    Skin {
        codename: code.to_string(),
        ship: ship.to_string(),
        faction: faction.to_string(),
        rarity: None,
        skin_name: name.map(|s| s.to_string()),
        is_oath: oath,
        thumb: format!("assets/thumbs/{code}.png"),
    }
}

fn sample() -> Data {
    let factions = vec![
        faction("sakura", "Sakura Empire", 3),
        faction("eagle", "Eagle Union", 1),
        faction("royal", "Royal Navy", 1),
        faction("empty", "Empty Fleet", 2),
    ];
    let skins = vec![
        skin("qiye_9", "Enterprise", "eagle", Some("Sundered Blue"), false),
        skin("hood_2", "Hood", "royal", None, false),
        skin("baerdimo_3", "baltimore", "eagle", Some("Summer March"), true),
        skin("aijiang_h", "Akagi", "sakura", Some("Vow"), true),
        skin("qiye_2", "enterprise", "eagle", None, false),
        skin("qiye_1", "Enterprise", "eagle", None, false),
    ];
    Data::new(PathBuf::from("/tmp/al"), factions, skins)
}

#[test]
fn fit_keys_round_trip() {
    for f in Fit::all() {
        assert_eq!(Fit::from_key(f.key()), f);
    }
    assert_eq!(Fit::Fit.key(), "fit");
    assert_eq!(Fit::Stretch.key(), "stretch");
    assert_eq!(Fit::Crop.key(), "crop");
    assert_eq!(Fit::Crop.label(), "Crop");
    assert_eq!(Fit::Stretch.label(), "Stretch");
    assert_eq!(Fit::Fit.label(), "Fit");
}

#[test]
fn fit_saved_per_monitor() {
    let mut m = StrMap::new();
    m.insert("DP-1".to_string(), "crop".to_string());
    m.insert("DP-2".to_string(), "bogus".to_string());
    assert_eq!(fit_for(&m, "DP-1"), Fit::Crop);
    assert_eq!(fit_for(&m, "DP-2"), Fit::Fit);
    assert_eq!(fit_for(&m, "HDMI-A-1"), Fit::Fit);
}

#[test]
fn fit_unknown_key_is_fit() {
    assert_eq!(Fit::from_key("zoom"), Fit::Fit);
    assert_eq!(Fit::from_key(""), Fit::Fit);
    assert_eq!(Fit::from_key("Crop"), Fit::Fit);
}

#[test]
fn defaults_match_saved_state_defaults() {
    let r = RotationCfg::default();
    assert!(!r.enabled);
    assert_eq!(r.interval, "30m");
    assert_eq!(r.scope, "all");
    assert!(!r.per_monitor);
    assert_eq!(r.last_run, 0);
    let p = PowerCfg::default();
    assert_eq!(p.mode, "pause");
    assert_eq!(p.fps_cap, 0);
    assert_eq!(p.battery, "off");
    assert_eq!(def_interval(), "30m");
    assert_eq!(def_scope(), "all");
    assert_eq!(def_power_mode(), "pause");
    assert_eq!(def_power_battery(), "off");
    let s = State::default();
    assert!(s.outputs.is_empty());
    assert!(s.fit.is_empty());
    assert_eq!(s.rotation.interval, "30m");
    assert_eq!(s.power.mode, "pause");
}

#[test]
fn hex_reads_channels() {
    assert_eq!(hex("#c9a227"), Rgb { r: 0xc9, g: 0xa2, b: 0x27 });
    assert_eq!(hex("##ABCDEF"), Rgb { r: 0xab, g: 0xcd, b: 0xef });
    assert_eq!(hex("0d1b2a99"), Rgb { r: 0x0d, g: 0x1b, b: 0x2a });
}

#[test]
fn hex_short_is_gray() {
    assert_eq!(hex("#abc"), Rgb { r: 160, g: 160, b: 160 });
    assert_eq!(hex(""), Rgb { r: 160, g: 160, b: 160 });
    assert_eq!(hex("######"), Rgb { r: 160, g: 160, b: 160 });
}

#[test]
fn hex_bad_channel_is_200() {
    assert_eq!(hex("#zz1122"), Rgb { r: 200, g: 0x11, b: 0x22 });
    assert_eq!(hex("+f1122"), Rgb { r: 15, g: 0x11, b: 0x22 });
    assert_eq!(hex("-f1122"), Rgb { r: 200, g: 0x11, b: 0x22 });
    // a two-byte character fills the first channel on its own
    assert!(hex_readable("é#1234"));
    assert_eq!(hex("é#1234"), Rgb { r: 200, g: 200, b: 0x23 });
}

#[test]
fn hex_readable_flags_split_characters() {
    assert!(hex_readable("#c9a227"));
    assert!(hex_readable("#ab"));
    assert!(!hex_readable("aé1234"));
    assert!(!hex_readable("#12345é"));
}

#[test]
fn factions_sorted_stably_by_order() {
    let d = sample();
    let keys: Vec<&str> = d.factions().iter().map(|f| f.key.as_str()).collect();
    assert_eq!(keys, vec!["eagle", "royal", "empty", "sakura"]);
    assert_eq!(d.root(), &PathBuf::from("/tmp/al"));
    assert_eq!(d.skins().len(), 6);
}

#[test]
fn fleet_groups_sorted_by_ship_then_codename() {
    let d = sample();
    let eagle = d.members("eagle").unwrap();
    let codes: Vec<&str> = eagle.iter().map(|&i| d.skins()[i].codename.as_str()).collect();
    // baltimore < enterprise (case-insensitive), then codenames qiye_1 < qiye_2 < qiye_9
    assert_eq!(codes, vec!["baerdimo_3", "qiye_1", "qiye_2", "qiye_9"]);
    assert_eq!(d.members("royal").unwrap(), &vec![1]);
    assert!(d.members("empty").is_none());
    assert!(d.members("nowhere").is_none());
}

#[test]
fn count_is_fleet_size() {
    let d = sample();
    assert_eq!(d.count("eagle"), 4);
    assert_eq!(d.count("sakura"), 1);
    assert_eq!(d.count("royal"), 1);
    assert_eq!(d.count("empty"), 0);
    assert_eq!(d.count("Eagle"), 0);
}

#[test]
fn faction_lookup() {
    let d = sample();
    assert_eq!(d.faction("royal").unwrap().name, "Royal Navy");
    assert!(d.faction("none").is_none());
    let dup = Data::new(
        PathBuf::from("."),
        vec![faction("x", "First", 5), faction("x", "Second", 5)],
        vec![],
    );
    assert_eq!(dup.faction("x").unwrap().name, "First");
}

#[test]
fn ship_of_known_and_unknown() {
    let d = sample();
    assert_eq!(d.ship_of("hood_2"), "Hood");
    assert_eq!(d.ship_of("missing_1"), "missing_1");
    assert_eq!(d.index_of("aijiang_h"), Some(3));
    assert_eq!(d.index_of("missing_1"), None);
    // the last skin with a codename wins
    let dup = Data::new(
        PathBuf::from("."),
        vec![],
        vec![skin("a", "First", "f", None, false), skin("a", "Second", "f", None, false)],
    );
    assert_eq!(dup.ship_of("a"), "Second");
    assert_eq!(dup.index_of("a"), Some(1));
}

#[test]
fn unknown_factions_go_under_other() {
    let d = Data::new(
        PathBuf::from("."),
        vec![faction("eagle", "Eagle Union", 1)],
        vec![
            skin("qiye_9", "Enterprise", "eagle", None, false),
            skin("collab_1", "Guest", "collab", Some("Visit"), true),
            skin("mystery_2", "Mystery", "", None, false),
        ],
    );
    let keys: Vec<&str> = d.factions().iter().map(|f| f.key.as_str()).collect();
    assert_eq!(keys, vec!["eagle", "other"]);
    let other = d.faction("other").unwrap();
    assert_eq!(other.name, "Other");
    assert_eq!(other.short, "OTH");
    assert_eq!(other.order, i32::MAX);
    assert_eq!(d.skins()[1].faction, "other");
    assert_eq!(d.skins()[1].skin_name.as_deref(), Some("Visit"));
    assert!(d.skins()[1].is_oath);
    assert_eq!(d.skins()[0].faction, "eagle");
    assert_eq!(d.count("other"), 2);
    assert_eq!(d.count("collab"), 0);
    assert_eq!(d.members("other").unwrap(), &vec![0usize + 1, 2]);
    for s in d.skins() {
        assert!(d.faction(&s.faction).is_some());
    }
}

#[test]
fn listed_other_faction_is_reused() {
    let d = Data::new(
        PathBuf::from("."),
        vec![faction("other", "Collab", 9), faction("eagle", "Eagle Union", 1)],
        vec![skin("collab_1", "Guest", "collab", None, false)],
    );
    let keys: Vec<&str> = d.factions().iter().map(|f| f.key.as_str()).collect();
    assert_eq!(keys, vec!["eagle", "other"]);
    assert_eq!(d.faction("other").unwrap().name, "Collab");
    assert_eq!(d.count("other"), 1);
}

#[test]
fn no_other_faction_when_all_known() {
    let d = sample();
    assert!(d.faction("other").is_none());
    assert_eq!(d.factions().len(), 4);
}

#[test]
fn empty_catalogue() {
    let d = Data::new(PathBuf::from("."), vec![], vec![]);
    assert_eq!(d.count("any"), 0);
    assert!(d.members("any").is_none());
    assert!(d.factions().is_empty());
}

#[test]
fn favorites_set_operations() {
    let mut f = Favorites::from_list(vec!["b".to_string(), "a".to_string(), "b".to_string()]);
    assert_eq!(f.len(), 2);
    assert!(f.contains("a"));
    assert!(!f.contains("c"));
    f.insert("c".to_string());
    f.insert("a".to_string());
    assert_eq!(f.len(), 3);
    f.remove("b");
    f.remove("zzz");
    assert!(!f.contains("b"));
    assert_eq!(f.len(), 2);
    assert_eq!(f.sorted(), vec!["a".to_string(), "c".to_string()]);
}

#[test]
fn favorites_saved_in_ascending_order() {
    let mut f = Favorites::new();
    for c in ["qiye_9", "Hood", "aijiang_h", "baerdimo_3", "ß", "z"] {
        f.insert(c.to_string());
    }
    let v = f.sorted();
    let mut expected: Vec<String> = v.clone();
    expected.sort();
    assert_eq!(v, expected);
    assert_eq!(v, vec!["Hood", "aijiang_h", "baerdimo_3", "qiye_9", "z", "ß"]);
}

#[test]
fn str_map_insert_get() {
    let mut m = StrMap::new();
    assert!(m.is_empty());
    m.insert("DP-1".to_string(), "qiye_9".to_string());
    m.insert("HDMI-A-1".to_string(), "hood_2".to_string());
    m.insert("DP-1".to_string(), "aijiang_h".to_string());
    assert!(!m.is_empty());
    assert_eq!(m.get("DP-1").map(|s| s.as_str()), Some("aijiang_h"));
    assert_eq!(m.get("HDMI-A-1").map(|s| s.as_str()), Some("hood_2"));
    assert_eq!(m.get("eDP-1"), None);
    assert!(m.has_value("hood_2"));
    assert!(!m.has_value("qiye_9"));
    assert_eq!(m.pairs().len(), 2);
}

#[test]
fn monitor_clone_keeps_fields() {
    let m = Monitor { name: "DP-1".to_string(), w: 2560, h: 1440 };
    let c = m.clone();
    assert_eq!(c.name, "DP-1");
    assert_eq!((c.w, c.h), (2560, 1440));
}
