use al_wallpaper::apply::{parse, ApplyEvent, Applier};
use al_wallpaper::assoc::StrMap;
use al_wallpaper::commands::{decimal, fit_args, parse_monitor_line, power_args, rotation_args};
use al_wallpaper::model::{PowerCfg, RotationCfg};
use al_wallpaper::progress::{ApplyTracker, Phase};

fn outputs(e: Option<ApplyEvent>) -> Option<usize> {
    match e {
        Some(ApplyEvent::Outputs(n)) => Some(n),
        _ => None,
    }
}

#[test]
fn parse_outputs() {
    assert_eq!(outputs(parse("OUTPUTS 2")), Some(2));
    assert_eq!(outputs(parse("  OUTPUTS\t3  extra")), Some(3));
    assert_eq!(outputs(parse("OUTPUTS +4")), Some(4));
    assert!(parse("OUTPUTS").is_none());
    assert!(parse("OUTPUTS two").is_none());
    assert!(parse("OUTPUTS -1").is_none());
}

#[test]
fn parse_target() {
    match parse("TARGET DP-1 2560 1440 1 2") {
        Some(ApplyEvent::Target { name, w, h, i, n }) => {
            assert_eq!(name, "DP-1");
            assert_eq!((w, h, i, n), (2560, 1440, 1, 2));
        }
        _ => panic!("expected a target"),
    }
    assert!(parse("TARGET DP-1 2560 1440 1").is_none());
    assert!(parse("TARGET DP-1 2560x 1440 1 2").is_none());
    assert!(parse("TARGET DP-1 4294967296 1440 1 2").is_none());
}

#[test]
fn parse_cached_render_progress() {
    match parse("CACHED DP-1") {
        Some(ApplyEvent::Cached(n)) => assert_eq!(n, "DP-1"),
        _ => panic!("expected cached"),
    }
    match parse("RENDER HDMI-A-1 1920 1080") {
        Some(ApplyEvent::Render { name, w, h }) => {
            assert_eq!(name, "HDMI-A-1");
            assert_eq!((w, h), (1920, 1080));
        }
        _ => panic!("expected render"),
    }
    match parse("PROGRESS 12 240") {
        Some(ApplyEvent::Progress { done, total }) => assert_eq!((done, total), (12, 240)),
        _ => panic!("expected progress"),
    }
    assert!(parse("PROGRESS 12").is_none());
    assert!(parse("CACHED").is_none());
}

#[test]
fn parse_applied_done_err_exit() {
    match parse("APPLIED DP-1 qiye_9") {
        Some(ApplyEvent::Applied { name, skin }) => {
            assert_eq!(name, "DP-1");
            assert_eq!(skin, "qiye_9");
        }
        _ => panic!("expected applied"),
    }
    match parse("DONE qiye_9 2") {
        Some(ApplyEvent::Done { skin, n }) => {
            assert_eq!(skin, "qiye_9");
            assert_eq!(n, 2);
        }
        _ => panic!("expected done"),
    }
    match parse("ERR  mpvpaper   not\tfound ") {
        Some(ApplyEvent::Error(m)) => assert_eq!(m, "mpvpaper not found"),
        _ => panic!("expected error"),
    }
    match parse("ERR") {
        Some(ApplyEvent::Error(m)) => assert_eq!(m, ""),
        _ => panic!("expected error"),
    }
    assert!(parse("").is_none());
    assert!(parse("   ").is_none());
    assert!(parse("EXIT 0").is_none());
    assert!(parse("outputs 2").is_none());
}

#[test]
fn applier_refuses_while_running() {
    let mut a = Applier::new();
    assert!(!a.running);
    let args = a.apply("qiye_9", None).unwrap();
    assert_eq!(args, vec!["qiye_9".to_string()]);
    assert!(a.running);
    assert!(a.apply("hood_2", Some("DP-1")).is_none());
    assert!(a.refresh().is_none());
    let evs = a.poll(vec![ApplyEvent::Outputs(1)]);
    assert_eq!(evs.len(), 1);
    assert!(a.running);
    let evs = a.poll(vec![ApplyEvent::Cached("DP-1".into()), ApplyEvent::Exit(true)]);
    assert_eq!(evs.len(), 2);
    assert!(!a.running);
    let args = a.apply("hood_2", Some("DP-1")).unwrap();
    assert_eq!(args, vec!["hood_2".to_string(), "--output".to_string(), "DP-1".to_string()]);
    a.poll(vec![ApplyEvent::Exit(false)]);
    assert_eq!(a.refresh().unwrap(), vec!["--refresh".to_string()]);
}

#[test]
fn poll_without_events_keeps_state() {
    let mut a = Applier::new();
    assert!(a.poll(vec![]).is_empty());
    assert!(!a.running);
    a.apply("x", None);
    assert!(a.poll(vec![]).is_empty());
    assert!(a.running);
}

#[test]
fn tracker_follows_a_run() {
    let mut t = ApplyTracker::new(StrMap::new());
    assert_eq!(t.status, "ready");
    t.on_event(ApplyEvent::Target { name: "DP-1".into(), w: 1, h: 1, i: 1, n: 1 });
    assert!(t.prog.is_none());
    t.on_event(ApplyEvent::Outputs(2));
    {
        let p = t.prog.as_ref().unwrap();
        assert_eq!((p.total, p.idx, p.w, p.h), (2, 0, 0, 0));
        assert_eq!(p.phase, Phase::Applying);
    }
    t.on_event(ApplyEvent::Target { name: "DP-1".into(), w: 2560, h: 1440, i: 1, n: 2 });
    t.on_event(ApplyEvent::Render { name: "DP-1".into(), w: 2560, h: 1440 });
    assert_eq!(t.status, "rendering…");
    assert_eq!(t.prog.as_ref().unwrap().phase, Phase::Rendering { done: 0, total: 1 });
    t.on_event(ApplyEvent::Progress { done: 30, total: 240 });
    assert_eq!(t.prog.as_ref().unwrap().phase, Phase::Rendering { done: 30, total: 240 });
    t.on_event(ApplyEvent::Applied { name: "DP-1".into(), skin: "qiye_9".into() });
    assert_eq!(t.per_output.get("DP-1").unwrap(), "qiye_9");
    t.on_event(ApplyEvent::Target { name: "HDMI-A-1".into(), w: 1920, h: 1080, i: 2, n: 2 });
    t.on_event(ApplyEvent::Cached("HDMI-A-1".into()));
    {
        let p = t.prog.as_ref().unwrap();
        assert_eq!(p.name, "HDMI-A-1");
        assert_eq!((p.idx, p.total, p.w, p.h), (2, 2, 1920, 1080));
        assert_eq!(p.phase, Phase::Cached);
    }
    t.on_event(ApplyEvent::Done { skin: "qiye_9".into(), n: 2 });
    assert_eq!(t.status, "live: qiye_9");
    t.on_event(ApplyEvent::Error("boom".into()));
    assert_eq!(t.status, "error: boom");
    t.on_event(ApplyEvent::Exit(true));
    assert!(t.prog.is_none());
    assert_eq!(t.status, "error: boom");
}

#[test]
fn monitor_lines() {
    let m = parse_monitor_line("DP-1 2560x1440").unwrap();
    assert_eq!(m.name, "DP-1");
    assert_eq!((m.w, m.h), (2560, 1440));
    let m = parse_monitor_line("  eDP-1\t1920x1080 ").unwrap();
    assert_eq!((m.name.as_str(), m.w, m.h), ("eDP-1", 1920, 1080));
    assert!(parse_monitor_line("DP-1 2560x1440 60Hz").is_none());
    assert!(parse_monitor_line("DP-1 2560*1440").is_none());
    assert!(parse_monitor_line("DP-1 2560x1440x2").is_none());
    assert!(parse_monitor_line("DP-1 x1440").is_none());
    assert!(parse_monitor_line("").is_none());
}

#[test]
fn decimal_formatting() {
    assert_eq!(decimal(0), "0");
    assert_eq!(decimal(7), "7");
    assert_eq!(decimal(30), "30");
    assert_eq!(decimal(1234567890), "1234567890");
    assert_eq!(decimal(u64::MAX), u64::MAX.to_string());
}

#[test]
fn state_script_arguments() {
    let mut r = RotationCfg::default();
    r.enabled = true;
    r.scope = "faction:eagle".into();
    assert_eq!(rotation_args(&r), vec!["set-rotation", "true", "30m", "faction:eagle", "false"]);
    assert_eq!(fit_args("DP-1", "crop"), vec!["set-fit", "DP-1", "crop"]);
    let mut p = PowerCfg::default();
    p.fps_cap = 24;
    assert_eq!(power_args(&p), vec!["set-power", "pause", "24", "off"]);
}
