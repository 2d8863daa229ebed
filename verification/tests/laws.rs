use al_wallpaper::apply::{parse, ApplyEvent};
use al_wallpaper::commands::decimal;
use al_wallpaper::model::{other_faction, Data, Faction, Fit, Palette, Skin};
use al_wallpaper::settings::listed_factions;
use al_wallpaper::text::{
    is_whitespace, letter_space, parse_hex_u8, parse_u32, parse_unsigned, parse_usize,
};
use std::path::PathBuf;

fn same(a: &Option<ApplyEvent>, b: &Option<ApplyEvent>) -> bool {
    format!("{a:?}") == format!("{b:?}")
}

#[test]
fn respacing_keeps_the_event() {
    for l in [
        "  TARGET\tDP-1   2560 1440 1 2 ",
        "ERR \t render   failed for qiye_9",
        "PROGRESS 3\u{2003}9",
        "DONE qiye_9 2 trailing",
        "nonsense line",
    ] {
        let respaced = l.split_whitespace().collect::<Vec<_>>().join(" ");
        assert!(same(&parse(l), &parse(&respaced)), "{l:?}");
    }
}

#[test]
fn printed_lines_read_back() {
    let n: usize = 3;
    let (d, t): (u32, u32) = (17, 240);
    assert!(matches!(parse(&format!("OUTPUTS {}", decimal(n as u64))), Some(ApplyEvent::Outputs(3))));
    match parse(&format!("PROGRESS {} {}", decimal(d as u64), decimal(t as u64))) {
        Some(ApplyEvent::Progress { done, total }) => assert_eq!((done, total), (17, 240)),
        other => panic!("{other:?}"),
    }
    match parse("APPLIED HDMI-A-1 hood_2") {
        Some(ApplyEvent::Applied { name, skin }) => assert_eq!((name.as_str(), skin.as_str()), ("HDMI-A-1", "hood_2")),
        other => panic!("{other:?}"),
    }
    match parse(&format!("DONE hood_2 {}", decimal(u32::MAX as u64))) {
        Some(ApplyEvent::Done { skin, n }) => assert_eq!((skin.as_str(), n), ("hood_2", u32::MAX as usize)),
        other => panic!("{other:?}"),
    }
}

#[test]
fn whitespace_set() {
    for c in [' ', '\t', '\n', '\r', '\u{0b}', '\u{0c}', '\u{85}', '\u{a0}', '\u{1680}', '\u{2000}', '\u{2009}', '\u{200a}', '\u{2028}', '\u{2029}', '\u{202f}', '\u{205f}', '\u{3000}'] {
        assert!(is_whitespace(c), "{c:?}");
        assert_eq!(is_whitespace(c), c.is_whitespace());
    }
    for c in ['a', '0', '_', '\u{200b}', '\u{180e}', '\u{feff}', '越', '\u{0}'] {
        assert!(!is_whitespace(c), "{c:?}");
        assert_eq!(is_whitespace(c), c.is_whitespace());
    }
}

#[test]
fn number_parsing_matches_std() {
    for s in ["0", "42", "+7", "007", "", "+", "-1", "-0", "1_000", " 1", "1 ", "4294967295", "4294967296", "18446744073709551615", "18446744073709551616", "٣", "ff"] {
        assert_eq!(parse_u32(s), s.parse::<u32>().ok(), "{s:?}");
        assert_eq!(parse_usize(s), s.parse::<usize>().ok(), "{s:?}");
    }
    for s in ["ff", "FF", "0a", "+f", "100", "fff", "g1", "", "-1", "+", "00ff", "é"] {
        assert_eq!(parse_hex_u8(s), u8::from_str_radix(s, 16).ok(), "{s:?}");
    }
    assert_eq!(parse_unsigned("zz", 36, u64::MAX), Some(35 * 36 + 35));
    assert_eq!(parse_unsigned("256", 10, 255), None);
    assert_eq!(parse_unsigned("255", 10, 255), Some(255));
}

#[test]
fn letter_spacing() {
    assert_eq!(letter_space("FLEET"), "F\u{2009}L\u{2009}E\u{2009}E\u{2009}T");
    assert_eq!(letter_space("x"), "x");
    assert_eq!(letter_space(""), "");
}

#[test]
fn fit_labels_capitalise_keys() {
    for f in Fit::all() {
        let mut c = f.key().chars();
        let first = c.next().unwrap().to_ascii_uppercase();
        assert_eq!(f.label(), format!("{first}{}", c.as_str()));
    }
}

fn skin(code: &str, faction: &str) -> Skin {
    Skin {
        codename: code.into(),
        ship: code.into(),
        faction: faction.into(),
        rarity: None,
        skin_name: None,
        is_oath: false,
        thumb: String::new(),
    }
}

fn faction(key: &str, order: i32) -> Faction {
    let p = other_faction().palette;
    Faction { key: key.into(), name: key.into(), short: key.into(), order, palette: Palette { ..p } }
}

#[test]
fn fleet_counts_add_up_and_no_skin_is_dropped() {
    let d = Data::new(
        PathBuf::from("."),
        vec![faction("b", 2), faction("a", 1)],
        vec![skin("x", "a"), skin("y", "zz"), skin("z", "b"), skin("w", "a"), skin("v", "q")],
    );
    let total: usize = d.factions().iter().map(|f| d.count(&f.key)).sum();
    assert_eq!(total, d.skins().len());
    let listed: Vec<&str> = listed_factions(&d).iter().map(|&i| d.factions()[i].key.as_str()).collect();
    assert_eq!(listed, vec!["a", "b", "other"]);
    assert_eq!(d.count("other"), 2);
}

#[test]
fn other_faction_fields() {
    let o = other_faction();
    assert_eq!((o.key.as_str(), o.name.as_str(), o.short.as_str()), ("other", "Other", "OTH"));
    assert_eq!(o.order, i32::MAX);
    assert_eq!(o.palette.accent, "#6f9bb8");
}
