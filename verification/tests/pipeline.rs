use clickr_cli::ast::key::KeyIdent;
use clickr_cli::compiled::{AdvancedTrigger, BasicTrigger, Behavior, Bind, Platform, Remapping};
use clickr_cli::diag::{DiagKind, Diagnostic, Severity};
use clickr_cli::lex::Lexer;
use clickr_cli::parse::TokenStream;
use clickr_cli::{compile_source, parse_profile, CompileOutcome};

fn test_profile(profile_str: &str, expected: &str) {
    let mut token_stream = TokenStream::new(Lexer::new(profile_str.as_bytes().to_vec()));
    let parsed = clickr_cli::ast::Profile::parse(&mut token_stream);
    assert!(parsed.is_ok());
    assert_eq!(parsed.unwrap().name.value, expected.as_bytes().to_vec());
}

#[test]
fn profile() {
    let profile_str = r#"
profile "Layered Profile"

config {
}

layer "base" {
    # This is a comment
    a = b
}"#;
    test_profile(profile_str, "Layered Profile");
}

fn checked(src: &str) -> (Vec<Diagnostic>, Option<clickr_cli::compiled::Profile>) {
    match compile_source(src.as_bytes().to_vec(), Platform::Linux) {
        CompileOutcome::Checked { diagnostics, profile } => (diagnostics, profile),
        CompileOutcome::ParseFailed(d) => {
            panic!("expected the parse to succeed, got {:?}", d.kind)
        },
    }
}

fn count_kind(diags: &[Diagnostic], kind: DiagKind) -> usize {
    diags.iter().filter(|d| d.kind == kind).count()
}

#[test]
fn valid_profile_compiles() {
    let (diags, profile) = checked(
        "profile \"p\"\nconfig {\n}\nlayer \"base\" {\na = b\n}\n",
    );
    assert!(diags.is_empty());
    let profile = profile.unwrap();
    assert_eq!(profile.profile_name, b"p".to_vec());
    assert_eq!(profile.default_layer, 0);
    assert_eq!(profile.layers.len(), 1);
    assert_eq!(profile.layers[0].layer_name, b"base".to_vec());
}

#[test]
fn zero_layers_is_rejected_before_lowering() {
    let (diags, profile) = checked("profile \"p\"\nconfig {\n}\n");
    assert!(profile.is_none());
    assert_eq!(count_kind(&diags, DiagKind::EmptyProfile), 1);
    assert!(diags.iter().any(|d| d.severity == Severity::Error));
    assert_eq!(
        diags[0].message,
        b"Profile must contain at least 1 layer".to_vec()
    );
}

#[test]
fn missing_default_layer_short_circuits_reachability() {
    let (diags, profile) = checked(
        "profile \"p\"\nconfig {\ndefault_layer = \"ghost\"\n}\nlayer \"base\" {\na = b\n}\nlayer \"island\" {\nc = d\n}\n",
    );
    assert!(profile.is_none());
    assert!(count_kind(&diags, DiagKind::MissingDefaultLayer) >= 1);
    // Checking stops before the reachability walk: the isolated layer draws
    // no unreachable-layer warning.
    assert_eq!(count_kind(&diags, DiagKind::UnreachableLayer), 0);
}

#[test]
fn three_layer_reachability() {
    // A switches to B; C is isolated; the default layer is A: exactly one
    // warning, naming C.
    let (diags, profile) = checked(
        "profile \"p\"\nconfig {\ndefault_layer = \"A\"\n}\nlayer \"A\" {\na = layer(\"B\")\n}\nlayer \"B\" {\nb = a\n}\nlayer \"C\" {\nc = d\n}\n",
    );
    assert_eq!(count_kind(&diags, DiagKind::UnreachableLayer), 1);
    let warning = diags
        .iter()
        .find(|d| d.kind == DiagKind::UnreachableLayer)
        .unwrap();
    assert_eq!(warning.severity, Severity::Warning);
    assert_eq!(warning.labels[0].message, b"unreachable layer: C".to_vec());
    // Warnings alone leave the profile valid and compiled.
    assert!(profile.is_some());
}

#[test]
fn duplicate_basic_key_conflicts() {
    let (diags, profile) = checked(
        "profile \"p\"\nconfig {\n}\nlayer \"base\" {\na = b\na = c\n}\n",
    );
    assert!(profile.is_none());
    assert_eq!(count_kind(&diags, DiagKind::ConflictingStatements), 1);
    let conflict = diags
        .iter()
        .find(|d| d.kind == DiagKind::ConflictingStatements)
        .unwrap();
    assert_eq!(conflict.labels.len(), 2);
}

#[test]
fn prefix_sequences_conflict_in_either_order() {
    let (diags, profile) = checked(
        "profile \"p\"\nconfig {\n}\nlayer \"base\" {\nsequence([a, b]) = c\nsequence([a]) = d\n}\n",
    );
    assert!(profile.is_none());
    assert_eq!(count_kind(&diags, DiagKind::ConflictingStatements), 1);

    let (diags, profile) = checked(
        "profile \"p\"\nconfig {\n}\nlayer \"base\" {\nsequence([a]) = d\nsequence([a, b]) = c\n}\n",
    );
    assert!(profile.is_none());
    assert_eq!(count_kind(&diags, DiagKind::ConflictingStatements), 1);
}

#[test]
fn chord_behavior_mismatch_conflicts() {
    let (diags, profile) = checked(
        "profile \"p\"\nconfig {\n}\nlayer \"base\" {\nchord([a, b], capture) = c\nchord([a, b], release) = d\n}\n",
    );
    assert!(profile.is_none());
    assert_eq!(count_kind(&diags, DiagKind::ConflictingStatements), 1);
}

#[test]
fn distinct_sequences_coexist() {
    let (diags, profile) = checked(
        "profile \"p\"\nconfig {\n}\nlayer \"base\" {\nsequence([a, b]) = c\nsequence([b, a]) = d\n}\n",
    );
    assert!(diags.is_empty());
    assert!(profile.is_some());
}

#[test]
fn tap_timeout_defaults_to_200() {
    let (diags, profile) = checked(
        "profile \"p\"\nconfig {\n}\nlayer \"base\" {\ntap(a) = b\n}\n",
    );
    assert!(diags.is_empty());
    let profile = profile.unwrap();
    match &profile.layers[0].remappings[0] {
        Remapping::Sequence(seq) => {
            assert_eq!(
                seq.triggers,
                vec![
                    AdvancedTrigger::KeyPress { value: KeyIdent::A },
                    AdvancedTrigger::MaximumWait { duration: 200 },
                    AdvancedTrigger::KeyRelease { value: KeyIdent::A },
                ]
            );
            assert_eq!(seq.behavior, Behavior::Default);
        },
        _ => panic!("expected a sequence remapping"),
    }
}

#[test]
fn tap_timeout_uses_configured_value() {
    let (diags, profile) = checked(
        "profile \"p\"\nconfig {\ntap_timeout = 450\n}\nlayer \"base\" {\ntap(a) = b\n}\n",
    );
    assert!(diags.is_empty());
    let profile = profile.unwrap();
    match &profile.layers[0].remappings[0] {
        Remapping::Sequence(seq) => {
            assert_eq!(seq.triggers[1], AdvancedTrigger::MaximumWait { duration: 450 });
        },
        _ => panic!("expected a sequence remapping"),
    }
}

#[test]
fn key_swap_lowers_to_two_direct_remappings() {
    let (diags, profile) = checked(
        "profile \"p\"\nconfig {\n}\nlayer \"base\" {\na = b\n}\n",
    );
    assert!(diags.is_empty());
    let profile = profile.unwrap();
    let remappings = &profile.layers[0].remappings;
    assert_eq!(remappings.len(), 2);
    match &remappings[0] {
        Remapping::Basic(basic) => {
            assert_eq!(basic.trigger, BasicTrigger::KeyPress { value: KeyIdent::A });
            assert_eq!(basic.binds, vec![Bind::PressKey { value: KeyIdent::B }]);
        },
        _ => panic!("expected a basic remapping"),
    }
    match &remappings[1] {
        Remapping::Basic(basic) => {
            assert_eq!(basic.trigger, BasicTrigger::KeyRelease { value: KeyIdent::A });
            assert_eq!(basic.binds, vec![Bind::ReleaseKey { value: KeyIdent::B }]);
        },
        _ => panic!("expected a basic remapping"),
    }
}

#[test]
fn list_bind_is_not_a_key_swap() {
    // A trigger bound to a bind list is not the key-swap case: the press
    // carries the binds and the release is an explicit no-op.
    let (diags, profile) = checked(
        "profile \"p\"\nconfig {\n}\nlayer \"base\" {\na = [b, none]\n}\n",
    );
    assert!(diags.is_empty());
    let profile = profile.unwrap();
    let remappings = &profile.layers[0].remappings;
    assert_eq!(remappings.len(), 2);
    match &remappings[0] {
        Remapping::Basic(basic) => {
            assert_eq!(basic.trigger, BasicTrigger::KeyPress { value: KeyIdent::A });
            assert_eq!(
                basic.binds,
                vec![
                    Bind::PressKey { value: KeyIdent::B },
                    Bind::ReleaseKey { value: KeyIdent::B },
                ]
            );
        },
        _ => panic!("expected a basic remapping"),
    }
    match &remappings[1] {
        Remapping::Basic(basic) => {
            assert_eq!(basic.trigger, BasicTrigger::KeyRelease { value: KeyIdent::A });
            assert!(basic.binds.is_empty());
        },
        _ => panic!("expected a basic remapping"),
    }
}

#[test]
fn layer_switch_resolves_to_index() {
    let (diags, profile) = checked(
        "profile \"p\"\nconfig {\n}\nlayer \"base\" {\n_a = layer(\"alt\")\n}\nlayer \"alt\" {\n_b = layer(\"base\")\n}\n",
    );
    assert!(diags.is_empty());
    let profile = profile.unwrap();
    match &profile.layers[0].remappings[0] {
        Remapping::Basic(basic) => {
            assert_eq!(basic.binds, vec![Bind::SwitchLayer { value: 1 }]);
        },
        _ => panic!("expected a basic remapping"),
    }
}

#[test]
fn unknown_layer_reference_is_an_error() {
    let (diags, profile) = checked(
        "profile \"p\"\nconfig {\n}\nlayer \"base\" {\na = layer(\"ghost\")\n}\n",
    );
    assert!(profile.is_none());
    assert_eq!(count_kind(&diags, DiagKind::UnknownLayer), 1);
}

#[test]
fn duplicate_layer_name_is_an_error() {
    let (diags, profile) = checked(
        "profile \"p\"\nconfig {\n}\nlayer \"base\" {\na = b\n}\nlayer \"base\" {\nc = d\n}\n",
    );
    assert!(profile.is_none());
    assert_eq!(count_kind(&diags, DiagKind::DuplicateLayer), 1);
}

#[test]
fn duplicate_config_entry_warns_and_first_wins() {
    let (diags, profile) = checked(
        "profile \"p\"\nconfig {\ntap_timeout = 10\ntap_timeout = 20\n}\nlayer \"base\" {\ntap(a) = b\n}\n",
    );
    assert_eq!(count_kind(&diags, DiagKind::DuplicateConfigEntry), 1);
    let profile = profile.unwrap();
    match &profile.layers[0].remappings[0] {
        Remapping::Sequence(seq) => {
            assert_eq!(seq.triggers[1], AdvancedTrigger::MaximumWait { duration: 10 });
        },
        _ => panic!("expected a sequence remapping"),
    }
}

#[test]
fn large_timeout_warns() {
    let (diags, profile) = checked(
        "profile \"p\"\nconfig {\nhold_time = 5000\n}\nlayer \"base\" {\nhold(a) = b\n}\n",
    );
    assert_eq!(count_kind(&diags, DiagKind::LargeTimeout), 1);
    assert!(profile.is_some());
}

#[test]
fn integer_out_of_range_is_a_parse_error() {
    match compile_source(
        "profile \"p\"\nconfig {\ntap_timeout = 99999999999999999999999999\n}\nlayer \"base\" {\na = b\n}\n"
            .as_bytes()
            .to_vec(),
        Platform::Linux,
    ) {
        CompileOutcome::ParseFailed(d) => assert_eq!(d.kind, DiagKind::IntegerOutOfRange),
        _ => panic!("expected the parse to fail"),
    }
}

#[test]
fn unknown_key_is_a_parse_error() {
    match compile_source(
        "profile \"p\"\nconfig {\n}\nlayer \"base\" {\nnotakey = b\n}\n".as_bytes().to_vec(),
        Platform::Linux,
    ) {
        CompileOutcome::ParseFailed(d) => assert_eq!(d.kind, DiagKind::InvalidKey),
        _ => panic!("expected the parse to fail"),
    }
}

#[test]
fn unknown_config_entry_is_a_parse_error() {
    match compile_source(
        "profile \"p\"\nconfig {\nbogus = 1\n}\nlayer \"base\" {\na = b\n}\n".as_bytes().to_vec(),
        Platform::Linux,
    ) {
        CompileOutcome::ParseFailed(d) => assert_eq!(d.kind, DiagKind::UnknownConfigEntry),
        _ => panic!("expected the parse to fail"),
    }
}

#[test]
fn keys_parse_case_insensitively_from_all_forms() {
    let (diags, profile) = checked(
        "profile \"p\"\nconfig {\n}\nlayer \"base\" {\nTab = \"PageUp\"\n7 = \"-\"\n}\n",
    );
    assert!(diags.is_empty());
    let profile = profile.unwrap();
    match &profile.layers[0].remappings[0] {
        Remapping::Basic(basic) => {
            assert_eq!(basic.trigger, BasicTrigger::KeyPress { value: KeyIdent::Tab });
            assert_eq!(basic.binds, vec![Bind::PressKey { value: KeyIdent::PageUp }]);
        },
        _ => panic!("expected a basic remapping"),
    }
    match &profile.layers[0].remappings[2] {
        Remapping::Basic(basic) => {
            assert_eq!(basic.trigger, BasicTrigger::KeyPress { value: KeyIdent::Num7 });
            assert_eq!(basic.binds, vec![Bind::PressKey { value: KeyIdent::Minus }]);
        },
        _ => panic!("expected a basic remapping"),
    }
}

#[test]
fn keybinder_key_names() {
    assert_eq!(KeyIdent::A.to_keybinder_key(), "A");
    assert_eq!(KeyIdent::Num0.to_keybinder_key(), "0");
    assert_eq!(KeyIdent::F11.to_keybinder_key(), "F11");
    assert_eq!(KeyIdent::ShiftLeft.to_keybinder_key(), "LeftShift");
    assert_eq!(KeyIdent::MetaRight.to_keybinder_key(), "RightSuper");
    assert_eq!(KeyIdent::Esc.to_keybinder_key(), "Escape");
    assert_eq!(KeyIdent::Up.to_keybinder_key(), "ArrowUp");
    assert_eq!(KeyIdent::Backslash.to_keybinder_key(), "\\");
}

#[test]
fn open_app_expands_per_platform() {
    let src = "profile \"p\"\nconfig {\n}\nlayer \"base\" {\n_a = open_app(\"Editor\")\n}\n";
    for (platform, interpreter, script) in [
        (Platform::Linux, &b"sh"[..], &b"Editor"[..]),
        (Platform::MacOs, &b"sh"[..], &b"open -a \"Editor\""[..]),
        (Platform::Windows, &b"cmd.exe"[..], &b"start \"\" \"Editor\""[..]),
    ] {
        match compile_source(src.as_bytes().to_vec(), platform) {
            CompileOutcome::Checked { profile: Some(profile), .. } => {
                match &profile.layers[0].remappings[0] {
                    Remapping::Basic(basic) => {
                        assert_eq!(
                            basic.binds,
                            vec![Bind::RunScript {
                                interpreter: interpreter.to_vec(),
                                script: script.to_vec(),
                            }]
                        );
                    },
                    _ => panic!("expected a basic remapping"),
                }
            },
            _ => panic!("expected a compiled profile"),
        }
    }
}

#[test]
fn combo_mixes_marked_and_unmarked_keys() {
    let (diags, profile) = checked(
        "profile \"p\"\nconfig {\ncombo_timeout = 30\n}\nlayer \"base\" {\ncombo([_a, ^b, c]) = d\n}\n",
    );
    assert!(diags.is_empty());
    let profile = profile.unwrap();
    match &profile.layers[0].remappings[0] {
        Remapping::Sequence(seq) => {
            assert_eq!(
                seq.triggers,
                vec![
                    AdvancedTrigger::KeyPress { value: KeyIdent::A },
                    AdvancedTrigger::MaximumWait { duration: 30 },
                    AdvancedTrigger::KeyRelease { value: KeyIdent::B },
                    AdvancedTrigger::MaximumWait { duration: 30 },
                    AdvancedTrigger::KeyPress { value: KeyIdent::C },
                    AdvancedTrigger::MaximumWait { duration: 30 },
                    AdvancedTrigger::KeyRelease { value: KeyIdent::C },
                ]
            );
        },
        _ => panic!("expected a sequence remapping"),
    }
}

#[test]
fn combo_with_no_keys_is_an_empty_sequence_error() {
    let (diags, profile) = checked(
        "profile \"p\"\nconfig {\n}\nlayer \"base\" {\ncombo([]) = d\n}\n",
    );
    assert!(profile.is_none());
    assert_eq!(count_kind(&diags, DiagKind::EmptySequence), 1);
}

#[test]
fn app_focused_trigger_compiles() {
    let (diags, profile) = checked(
        "profile \"p\"\nconfig {\n}\nlayer \"base\" {\napp_focused(\"browser\") = [run(\"sh\", \"beep\")]\n}\n",
    );
    assert!(diags.is_empty());
    let profile = profile.unwrap();
    match &profile.layers[0].remappings[0] {
        Remapping::Basic(basic) => {
            assert_eq!(basic.trigger, BasicTrigger::AppFocused { app_name: b"browser".to_vec() });
            assert_eq!(
                basic.binds,
                vec![Bind::RunScript { interpreter: b"sh".to_vec(), script: b"beep".to_vec() }]
            );
        },
        _ => panic!("expected a basic remapping"),
    }
}

#[test]
fn hold_lowers_to_press_and_minimum_wait() {
    let (diags, profile) = checked(
        "profile \"p\"\nconfig {\ndefault_behavior = capture\n}\nlayer \"base\" {\nhold(space, wait, 350) = enter\n}\n",
    );
    assert!(diags.is_empty());
    let profile = profile.unwrap();
    match &profile.layers[0].remappings[0] {
        Remapping::Sequence(seq) => {
            assert_eq!(
                seq.triggers,
                vec![
                    AdvancedTrigger::KeyPress { value: KeyIdent::Space },
                    AdvancedTrigger::MinimumWait { duration: 350 },
                ]
            );
            // The explicit behavior wins over the configured default.
            assert_eq!(seq.behavior, Behavior::Default);
        },
        _ => panic!("expected a sequence remapping"),
    }
}

#[test]
fn deterministic_compilation() {
    let src = "profile \"p\"\nconfig {\ntap_timeout = 42\n}\nlayer \"base\" {\ntap(a) = b\nchord([c, d]) = e\n}\n";
    let first = checked(src);
    let second = checked(src);
    assert_eq!(first.0.len(), second.0.len());
    let p1 = first.1.unwrap();
    let p2 = second.1.unwrap();
    assert_eq!(p1.profile_name, p2.profile_name);
    assert_eq!(p1.default_layer, p2.default_layer);
    assert_eq!(p1.layers.len(), p2.layers.len());
}

#[test]
fn parse_error_reports_expected_and_found() {
    match parse_profile(b"profile \"p\"\nconfig {\n}\nlayer \"base\" {\na = = b\n}\n".to_vec()) {
        Err(d) => {
            assert_eq!(d.kind, DiagKind::UnexpectedToken);
            assert_eq!(d.severity, Severity::Error);
        },
        Ok(_) => panic!("expected the parse to fail"),
    }
}

#[test]
fn advanced_flag_parses() {
    let (diags, profile) = checked(
        "profile \"p\"\nconfig {\nadvanced = true\n}\nlayer \"base\" {\na = b\n}\n",
    );
    assert!(diags.is_empty());
    assert!(profile.is_some());
}

#[test]
fn leading_blank_lines_are_accepted() {
    let (diags, profile) = checked(
        "\n\n\nprofile \"p\"\nconfig {\n}\nlayer \"base\" {\na = b\n}\n",
    );
    assert!(diags.is_empty());
    assert!(profile.is_some());
}

#[test]
fn empty_layer_compiles_to_no_remappings() {
    let (diags, profile) = checked("profile \"p\"\nconfig {\n}\nlayer \"base\" {\n}\n");
    assert!(diags.is_empty());
    let profile = profile.unwrap();
    assert!(profile.layers[0].remappings.is_empty());
}

#[test]
fn release_only_trigger_lowers_to_one_remapping() {
    let (diags, profile) = checked(
        "profile \"p\"\nconfig {\n}\nlayer \"base\" {\n^a = [_b]\n}\n",
    );
    assert!(diags.is_empty());
    let profile = profile.unwrap();
    let remappings = &profile.layers[0].remappings;
    assert_eq!(remappings.len(), 1);
    match &remappings[0] {
        Remapping::Basic(basic) => {
            assert_eq!(basic.trigger, BasicTrigger::KeyRelease { value: KeyIdent::A });
            assert_eq!(basic.binds, vec![Bind::PressKey { value: KeyIdent::B }]);
        },
        _ => panic!("expected a basic remapping"),
    }
}

#[test]
fn sequence_intersperses_waits_between_pairs() {
    // The wait separates consecutive (press, release) pairs; it never
    // stands inside a pair, nor leads or trails.
    let (diags, profile) = checked(
        "profile \"p\"\nconfig {\nsequence_timeout = 75\n}\nlayer \"base\" {\nsequence([a, b]) = c\n}\n",
    );
    assert!(diags.is_empty());
    let profile = profile.unwrap();
    match &profile.layers[0].remappings[0] {
        Remapping::Sequence(seq) => {
            assert_eq!(
                seq.triggers,
                vec![
                    AdvancedTrigger::KeyPress { value: KeyIdent::A },
                    AdvancedTrigger::KeyRelease { value: KeyIdent::A },
                    AdvancedTrigger::MaximumWait { duration: 75 },
                    AdvancedTrigger::KeyPress { value: KeyIdent::B },
                    AdvancedTrigger::KeyRelease { value: KeyIdent::B },
                ]
            );
        },
        _ => panic!("expected a sequence remapping"),
    }
}

#[test]
fn chord_intersperses_waits_between_presses() {
    let (diags, profile) = checked(
        "profile \"p\"\nconfig {\nchord_timeout = 60\ndefault_behavior = capture\n}\nlayer \"base\" {\nchord([a, b]) = c\n}\n",
    );
    assert!(diags.is_empty());
    let profile = profile.unwrap();
    match &profile.layers[0].remappings[0] {
        Remapping::Sequence(seq) => {
            assert_eq!(
                seq.triggers,
                vec![
                    AdvancedTrigger::KeyPress { value: KeyIdent::A },
                    AdvancedTrigger::MaximumWait { duration: 60 },
                    AdvancedTrigger::KeyPress { value: KeyIdent::B },
                ]
            );
            // The configured default behavior fills the unspecified slot.
            assert_eq!(seq.behavior, Behavior::Capture);
        },
        _ => panic!("expected a sequence remapping"),
    }
}

#[test]
fn default_layer_picks_the_named_layer_index() {
    let (diags, profile) = checked(
        "profile \"p\"\nconfig {\ndefault_layer = \"alt\"\n}\nlayer \"base\" {\n_a = layer(\"alt\")\n}\nlayer \"alt\" {\n_b = layer(\"base\")\n}\n",
    );
    assert!(diags.is_empty());
    assert_eq!(profile.unwrap().default_layer, 1);
}

#[test]
fn config_resolution_first_entry_wins() {
    let src = "profile \"p\"\nconfig {\nhold_time = 7\ndefault_behavior = release\nhold_time = 9\n}\nlayer \"base\" {\na = b\n}\n";
    let mut ts = TokenStream::new(Lexer::new(src.as_bytes().to_vec()));
    let parsed = clickr_cli::ast::Profile::parse(&mut ts).unwrap();
    let data = parsed.config.value.to_data();
    assert_eq!(data.hold_time, 7);
    assert_eq!(data.default_behavior, clickr_cli::ast::Behavior::Release);
    assert_eq!(data.tap_timeout, 200);
    assert!(data.default_layer.is_none());
    assert!(!data.advanced);
}
