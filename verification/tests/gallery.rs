use al_wallpaper::favorites::Favorites;
use al_wallpaper::gallery::{clamp_cursor, navigate, pick_random, visible_skins, Sort};
use al_wallpaper::model::{Data, Faction, Palette, Skin};
use al_wallpaper::settings::{
    fleet_scope, fps_cap_label, fps_caps, interval_label, intervals, listed_factions, scope_label,
};
use al_wallpaper::text::{str_contains, strip_prefix, track, trunc};
use std::path::PathBuf;

fn faction(key: &str, name: &str, order: i32) -> Faction {
    Faction {
        key: key.into(),
        name: name.into(),
        short: "USS".into(),
        order,
        palette: Palette {
            bg: "#000000".into(),
            panel: "#000000".into(),
            accent: "#c9a227".into(),
            accent2: "#ffffff".into(),
            text: "#ffffff".into(),
            muted: "#888888".into(),
        },
    }
}

fn skin(code: &str, ship: &str, faction: &str, name: Option<&str>, oath: bool) -> Skin {
    Skin {
        codename: code.into(),
        ship: ship.into(),
        faction: faction.into(),
        rarity: Some("SSR".into()),
        skin_name: name.map(|s| s.into()),
        is_oath: oath,
        thumb: format!("assets/thumbs/{code}.png"),
    }
}

fn sample() -> Data {
    Data::new(
        PathBuf::from("."),
        vec![faction("eagle", "Eagle Union", 1), faction("royal", "Royal Navy", 2), faction("iron", "Iron Blood", 3)],
        vec![
            skin("qiye_9", "Enterprise", "eagle", Some("Sundered Blue"), false),
            skin("baerdimo_3", "Baltimore", "eagle", Some("Summer March"), true),
            skin("qiye_h", "Enterprise", "eagle", None, true),
            skin("hood_2", "Hood", "royal", Some("Lady of the Shining Sea"), false),
            skin("nuoka_1", "North Carolina", "eagle", Some("sundered blue"), false),
        ],
    )
}

fn codes(d: &Data, v: &[usize]) -> Vec<String> {
    v.iter().map(|&i| d.skins()[i].codename.clone()).collect()
}

#[test]
fn gallery_shows_fleet_in_ship_order() {
    let d = sample();
    let favs = Favorites::new();
    let v = visible_skins(&d, "eagle", "", &favs, false, false, Sort::Ship);
    assert_eq!(codes(&d, &v), vec!["baerdimo_3", "qiye_9", "qiye_h", "nuoka_1"]);
    assert!(visible_skins(&d, "iron", "", &favs, false, false, Sort::Ship).is_empty());
}

#[test]
fn gallery_search_is_case_insensitive() {
    let d = sample();
    let favs = Favorites::new();
    let v = visible_skins(&d, "eagle", "ENTER", &favs, false, false, Sort::Ship);
    assert_eq!(codes(&d, &v), vec!["qiye_9", "qiye_h"]);
    let v = visible_skins(&d, "eagle", "Sundered", &favs, false, false, Sort::Ship);
    assert_eq!(codes(&d, &v), vec!["qiye_9", "nuoka_1"]);
    // codenames are matched as written against the lower-cased query
    let v = visible_skins(&d, "eagle", "QIYE_H", &favs, false, false, Sort::Ship);
    assert_eq!(codes(&d, &v), vec!["qiye_h"]);
    let v = visible_skins(&d, "eagle", "zzz", &favs, false, false, Sort::Ship);
    assert!(v.is_empty());
}

#[test]
fn gallery_filters() {
    let d = sample();
    let mut favs = Favorites::new();
    favs.insert("qiye_9".into());
    favs.insert("hood_2".into());
    let v = visible_skins(&d, "eagle", "", &favs, true, false, Sort::Ship);
    assert_eq!(codes(&d, &v), vec!["qiye_9"]);
    let v = visible_skins(&d, "eagle", "", &favs, false, true, Sort::Ship);
    assert_eq!(codes(&d, &v), vec!["baerdimo_3", "qiye_h"]);
    let v = visible_skins(&d, "eagle", "", &favs, true, true, Sort::Ship);
    assert!(v.is_empty());
}

#[test]
fn gallery_skin_name_order() {
    let d = sample();
    let favs = Favorites::new();
    let v = visible_skins(&d, "eagle", "", &favs, false, false, Sort::SkinName);
    // "qiye_h" (no name: its codename), "summer march", "sundered blue" twice: codename breaks the tie
    assert_eq!(codes(&d, &v), vec!["qiye_h", "baerdimo_3", "nuoka_1", "qiye_9"]);
    assert_eq!(Sort::Ship.label(), "Ship A–Z");
    assert_eq!(Sort::SkinName.label(), "Skin A–Z");
}

#[test]
fn cursor_moves_on_grid() {
    // 10 cards, 4 per row
    assert_eq!(navigate(0, 10, 4, false, true, false, false), (1, true));
    assert_eq!(navigate(9, 10, 4, false, true, false, false), (9, true));
    assert_eq!(navigate(0, 10, 4, true, false, false, false), (0, true));
    assert_eq!(navigate(2, 10, 4, false, false, false, true), (6, true));
    assert_eq!(navigate(7, 10, 4, false, false, false, true), (9, true));
    assert_eq!(navigate(5, 10, 4, false, false, true, false), (1, true));
    assert_eq!(navigate(2, 10, 4, false, false, true, false), (0, true));
    assert_eq!(navigate(42, 10, 4, false, false, false, false), (9, false));
    assert_eq!(navigate(3, 10, 0, false, false, false, true), (4, true));
    assert_eq!(clamp_cursor(12, 5), 4);
    assert_eq!(clamp_cursor(3, 5), 3);
    assert_eq!(clamp_cursor(3, 0), 0);
}

#[test]
fn rotation_pick() {
    let d = sample();
    assert_eq!(pick_random(&d, "all", 0).unwrap(), "qiye_9");
    assert_eq!(pick_random(&d, "all", 7).unwrap(), "qiye_h");
    assert_eq!(pick_random(&d, "favorites", 3).unwrap(), "hood_2");
    assert_eq!(pick_random(&d, "faction:eagle", 0).unwrap(), "baerdimo_3");
    assert_eq!(pick_random(&d, "faction:eagle", 5).unwrap(), "qiye_9");
    assert_eq!(pick_random(&d, "faction:royal", 99).unwrap(), "hood_2");
    assert!(pick_random(&d, "faction:iron", 1).is_none());
    let empty = Data::new(PathBuf::from("."), vec![], vec![]);
    assert!(pick_random(&empty, "all", 1).is_none());
}

#[test]
fn labels_of_settings() {
    assert_eq!(interval_label("1h"), "Hourly");
    assert_eq!(interval_label("monthly"), "Monthly");
    assert_eq!(interval_label("2h"), "Every 30 minutes");
    assert_eq!(intervals().len(), 8);
    assert_eq!(fps_cap_label(24), "24 fps");
    assert_eq!(fps_cap_label(0), "Uncapped");
    assert_eq!(fps_cap_label(60), "Uncapped");
    assert_eq!(fps_caps().len(), 4);
    let d = sample();
    assert_eq!(scope_label(&d, "all", 3), "All skins");
    assert_eq!(scope_label(&d, "favorites", 12), "★ Favorites (12)");
    assert_eq!(scope_label(&d, "faction:royal", 0), "Royal Navy");
    assert_eq!(scope_label(&d, "faction:nope", 0), "All skins");
    assert_eq!(scope_label(&d, "eagle", 0), "All skins");
    assert_eq!(fleet_scope("iron"), "faction:iron");
}

#[test]
fn listed_factions_skip_empty_fleets() {
    let d = sample();
    assert_eq!(listed_factions(&d), vec![0, 1]);
}

#[test]
fn trunc_marks_cut() {
    assert_eq!(trunc("ENTERPRISE", 17), "ENTERPRISE");
    assert_eq!(trunc("ABCDEFGHIJKLMNOPQRSTUVWXYZ", 17), "ABCDEFGHIJKLMNOP…");
    assert_eq!(trunc("abc", 3), "abc");
    assert_eq!(trunc("abcd", 3), "ab…");
    assert_eq!(trunc("abcd", 1), "…");
    assert_eq!(trunc("abcd", 0), "…");
    assert_eq!(trunc("ÄÖÜßé", 4), "ÄÖÜ…");
}

#[test]
fn track_spaces_upper_case() {
    assert_eq!(track("Fleet"), "F\u{2009}L\u{2009}E\u{2009}E\u{2009}T");
    assert_eq!(track("a"), "A");
    assert_eq!(track(""), "");
    assert_eq!(track("3 ships"), "3\u{2009} \u{2009}S\u{2009}H\u{2009}I\u{2009}P\u{2009}S");
}

#[test]
fn string_helpers() {
    assert!(str_contains("enterprise", "terp"));
    assert!(str_contains("enterprise", ""));
    assert!(!str_contains("hood", "hoods"));
    assert_eq!(strip_prefix("faction:eagle", "faction:").unwrap(), "eagle");
    assert!(strip_prefix("favorites", "faction:").is_none());
    assert_eq!(strip_prefix("faction:", "faction:").unwrap(), "");
}
