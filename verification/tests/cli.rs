use pocket_kindle::cli::{parse_cli, CliArgs, CliError, CliOutcome};

fn defaults() -> CliArgs {
    CliArgs {
        js: "/mnt/us/pocketjs-dev/current/app.js".to_string(),
        pak: "/mnt/us/pocketjs-dev/current/app.pak".to_string(),
        framebuffer: "/dev/fb0".to_string(),
        fbink: "/mnt/us/pocketjs-dev/bin/fbink".to_string(),
        present_hz: 30,
        motion_waveform: "DU".to_string(),
        ghost_budget: 80,
        rotation: "auto".to_string(),
        probe: false,
        show_image: None,
        allow_active_gui: false,
    }
}

fn words(ws: &[&str]) -> Vec<String> {
    ws.iter().map(|s| s.to_string()).collect()
}

#[test]
fn no_words_keeps_defaults() {
    match parse_cli(defaults(), &words(&[])) {
        Ok(CliOutcome::Run(a)) => {
            assert_eq!(a.present_hz, 30);
            assert_eq!(a.js, "/mnt/us/pocketjs-dev/current/app.js");
            assert!(!a.probe);
        }
        _ => panic!("expected options"),
    }
}

#[test]
fn options_override_left_to_right() {
    let w = words(&[
        "--js", "a.js", "--present-hz", "+12", "--probe", "--show-image", "http://x/p.png",
        "--ghost-budget", "5", "--present-hz", "15", "--rotation", "90", "--motion-waveform", "A2",
        "--allow-active-gui", "--pak", "p", "--framebuffer", "/dev/fb1", "--fbink", "f",
    ]);
    match parse_cli(defaults(), &w) {
        Ok(CliOutcome::Run(a)) => {
            assert_eq!(a.js, "a.js");
            assert_eq!(a.present_hz, 15);
            assert_eq!(a.ghost_budget, 5);
            assert!(a.probe);
            assert!(a.allow_active_gui);
            assert_eq!(a.show_image.as_deref(), Some("http://x/p.png"));
            assert_eq!(a.rotation, "90");
            assert_eq!(a.motion_waveform, "A2");
            assert_eq!((a.pak.as_str(), a.framebuffer.as_str(), a.fbink.as_str()), ("p", "/dev/fb1", "f"));
        }
        _ => panic!("expected options"),
    }
}

#[test]
fn help_stops_parsing() {
    assert!(matches!(parse_cli(defaults(), &words(&["-h", "--bogus"])), Ok(CliOutcome::Help)));
    assert!(matches!(parse_cli(defaults(), &words(&["--probe", "--help"])), Ok(CliOutcome::Help)));
}

#[test]
fn refusals_name_the_word() {
    match parse_cli(defaults(), &words(&["--js"])) {
        Err(CliError::MissingValue(w)) => assert_eq!(w, "--js"),
        _ => panic!("expected a missing value"),
    }
    match parse_cli(defaults(), &words(&["--present-hz", "fast"])) {
        Err(CliError::NotAnInteger(w)) => assert_eq!(w, "--present-hz"),
        _ => panic!("expected an integer error"),
    }
    match parse_cli(defaults(), &words(&["--probe", "extra"])) {
        Err(CliError::Unknown(w)) => assert_eq!(w, "extra"),
        _ => panic!("expected an unknown argument"),
    }
    // A value is taken as is, even when it looks like an option.
    match parse_cli(defaults(), &words(&["--js", "--probe"])) {
        Ok(CliOutcome::Run(a)) => {
            assert_eq!(a.js, "--probe");
            assert!(!a.probe);
        }
        _ => panic!("expected options"),
    }
}

#[test]
fn waveform_and_rotation_names_are_checked() {
    match parse_cli(defaults(), &words(&["--motion-waveform", "GC16"])) {
        Err(CliError::BadWaveform(w)) => assert_eq!(w, "GC16"),
        _ => panic!("expected a bad waveform"),
    }
    match parse_cli(defaults(), &words(&["--rotation", "45"])) {
        Err(CliError::BadRotation(w)) => assert_eq!(w, "45"),
        _ => panic!("expected a bad rotation"),
    }
    for r in ["auto", "0", "90", "180", "270"] {
        assert!(matches!(parse_cli(defaults(), &words(&["--rotation", r])), Ok(CliOutcome::Run(_))));
    }
    // Defaults from the environment are checked before the words.
    let mut d = defaults();
    d.rotation = "sideways".to_string();
    match parse_cli(d, &words(&["-h"])) {
        Err(CliError::BadRotation(w)) => assert_eq!(w, "sideways"),
        _ => panic!("expected a bad rotation"),
    }
    let mut d2 = defaults();
    d2.motion_waveform = "du".to_string();
    assert!(matches!(parse_cli(d2, &words(&[])), Err(CliError::BadWaveform(_))));
}
