use memtrigger::{argvec_asks_for_help, validate, ComparationMode, InputError, Threshold};

fn argv(args: &[&str]) -> Vec<String> {
    args.iter().map(|s| s.to_string()).collect()
}

#[test]
fn modes_are_spelled_in_capitals() {
    assert_eq!(ComparationMode::try_from("RAM"), Ok(ComparationMode::RAM));
    assert_eq!(ComparationMode::try_from("SWAP"), Ok(ComparationMode::SWAP));
    assert_eq!(ComparationMode::try_from("COMB"), Ok(ComparationMode::COMB));
}

#[test]
fn other_strings_are_no_modes() {
    for s in ["", "ram", "Ram", "swap", "comb", "BOGUS", "RAM ", " RAM", "RAMS", "RA", "COMBINED"]
    {
        assert_eq!(ComparationMode::try_from(s), Err(InputError::UnknownMode), "{:?}", s);
    }
}

#[test]
fn help_flags_are_found_anywhere() {
    for flag in ["-h", "/h", "/help", "--help", "/?", "-?"] {
        assert!(argvec_asks_for_help(&argv(&[flag])));
        assert!(argvec_asks_for_help(&argv(&["prog", flag])));
        assert!(argvec_asks_for_help(&argv(&["prog", "RAM", "50", flag])));
        assert!(argvec_asks_for_help(&argv(&["prog", "RAM", flag, "true", "more"])));
    }
}

#[test]
fn other_arguments_ask_for_no_help() {
    assert!(!argvec_asks_for_help(&argv(&[])));
    assert!(!argvec_asks_for_help(&argv(&["prog"])));
    assert!(!argvec_asks_for_help(&argv(&["prog", "RAM", "50", "true"])));
    for arg in ["-H", "help", "--Help", "-help", "--h", "/", "?", "-h ", " -h", "--help=1", ""] {
        assert!(!argvec_asks_for_help(&argv(&["prog", arg])), "{:?}", arg);
    }
}

#[test]
fn valid_arguments_are_taken_over() {
    let invocation = validate(&argv(&["prog", "SWAP", "80", "reboot"])).unwrap();
    assert_eq!(invocation.mode, ComparationMode::SWAP);
    assert_eq!(invocation.threshold, Threshold::parse("80").unwrap());
    assert_eq!(invocation.command, "reboot");
}

#[test]
fn command_is_taken_as_it_stands() {
    for command in ["true", "", "  echo  'a b'  | wc -l ; exit 3 ", "-x", "RAM", "é\n\t"] {
        let invocation = validate(&argv(&["prog", "COMB", "0.5", command])).unwrap();
        assert_eq!(invocation.command, command);
        assert_eq!(invocation.mode, ComparationMode::COMB);
    }
}

#[test]
fn threshold_may_be_written_with_an_exponent() {
    let invocation = validate(&argv(&["prog", "RAM", "1e1", "cmd"])).unwrap();
    assert_eq!(invocation.mode, ComparationMode::RAM);
    assert_eq!(invocation.threshold, Threshold::parse("10").unwrap());
    assert_eq!(invocation.command, "cmd");
    for t in ["5E0", "1e-3", "9.9e+1", ".5e2"] {
        assert!(validate(&argv(&["prog", "SWAP", t, "cmd"])).is_ok(), "{}", t);
    }
    for t in ["1e2", "0e1", "-1e1"] {
        assert_eq!(
            validate(&argv(&["prog", "SWAP", t, "cmd"])),
            Err(InputError::ThresholdOutOfRange),
            "{}",
            t
        );
    }
}

#[test]
fn help_flag_wins_over_everything() {
    assert_eq!(validate(&argv(&["prog", "-h"])), Err(InputError::HelpRequested));
    assert_eq!(
        validate(&argv(&["prog", "RAM", "50", "--help"])),
        Err(InputError::HelpRequested)
    );
    assert_eq!(
        validate(&argv(&["prog", "BOGUS", "150", "/?"])),
        Err(InputError::HelpRequested)
    );
    assert_eq!(validate(&argv(&["-?", "RAM", "50", "true"])), Err(InputError::HelpRequested));
}

#[test]
fn wrong_argument_count_is_turned_down() {
    assert_eq!(validate(&argv(&[])), Err(InputError::WrongArgumentCount));
    assert_eq!(validate(&argv(&["prog"])), Err(InputError::WrongArgumentCount));
    assert_eq!(validate(&argv(&["prog", "RAM"])), Err(InputError::WrongArgumentCount));
    assert_eq!(validate(&argv(&["prog", "RAM", "50"])), Err(InputError::WrongArgumentCount));
    assert_eq!(
        validate(&argv(&["prog", "RAM", "50", "true", "extra"])),
        Err(InputError::WrongArgumentCount)
    );
}

#[test]
fn unknown_mode_is_turned_down() {
    assert_eq!(validate(&argv(&["prog", "BOGUS", "50", "true"])), Err(InputError::UnknownMode));
    assert_eq!(validate(&argv(&["prog", "ram", "50", "true"])), Err(InputError::UnknownMode));
    // The mode is checked before the threshold.
    assert_eq!(validate(&argv(&["prog", "BOGUS", "150", "true"])), Err(InputError::UnknownMode));
    assert_eq!(validate(&argv(&["prog", "BOGUS", "abc", "true"])), Err(InputError::UnknownMode));
}

#[test]
fn threshold_out_of_range_is_turned_down() {
    for t in ["150", "100", "0", "-5", "0.000"] {
        assert_eq!(
            validate(&argv(&["prog", "RAM", t, "true"])),
            Err(InputError::ThresholdOutOfRange),
            "{}",
            t
        );
    }
}

#[test]
fn malformed_threshold_is_turned_down() {
    for t in ["", "abc", "50%", "1e", "e1", "5 0", "nan"] {
        assert_eq!(
            validate(&argv(&["prog", "RAM", t, "true"])),
            Err(InputError::ThresholdMalformed),
            "{:?}",
            t
        );
    }
}
