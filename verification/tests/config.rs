use tush::config::{
    is_beyond_reading, Config, ConfigPanel, ConfigProc, ConfigRunElement, ConfigSize,
    ConfigSizeError, ConfigSizeSpelling, ConfigStrings, ConfigUi, ConfigUnitRun,
};

fn word(text: &str) -> ConfigRunElement {
    ConfigRunElement::Word(text.to_string())
}

fn owned(words: &[&str]) -> Vec<String> {
    words.iter().map(|word| word.to_string()).collect()
}

fn list(words: &[&str]) -> ConfigRunElement {
    ConfigRunElement::List(owned(words))
}

fn size(text: &str) -> Result<ConfigSize, ConfigSizeError> {
    assert!(!is_beyond_reading(text));
    ConfigSize::from_spelling(&ConfigSizeSpelling::Str(text.to_string()))
}

/// A flat list of words is one command; a list of lists is one each.
#[test]
fn a_run_is_one_command_or_several() {
    assert_eq!(
        ConfigUnitRun::from_elements(&vec![word("npm"), word("start")])
            .unwrap()
            .commands,
        [owned(&["npm", "start"])]
    );
    assert_eq!(
        ConfigUnitRun::from_elements(&vec![
            list(&["npm", "run", "build"]),
            list(&[]),
            list(&["npm", "run", "test"])
        ])
        .unwrap()
        .commands,
        [owned(&["npm", "run", "build"]), owned(&["npm", "run", "test"])]
    );
    assert_eq!(
        ConfigUnitRun::from_elements(&vec![]).unwrap().commands,
        Vec::<Vec<String>>::new()
    );
}

/// The first element decides, and one of the other kind is refused by its
/// place.
#[test]
fn a_run_does_not_mix_its_spellings() {
    assert_eq!(
        ConfigUnitRun::from_elements(&vec![word("npm"), list(&["start"])]),
        Err(1)
    );
    assert_eq!(
        ConfigUnitRun::from_elements(&vec![list(&["npm"]), list(&["a"]), word("b")]),
        Err(2)
    );
    assert_eq!(
        ConfigUnitRun::from_elements(&vec![ConfigRunElement::Other]),
        Err(0)
    );
}

#[test]
fn a_run_is_copied_whole() {
    let run = ConfigUnitRun::from_elements(&vec![list(&["a", "b"]), list(&["c"])]).unwrap();
    assert_eq!(run.copy(), run);
}

#[test]
fn one_string_is_a_list_of_one() {
    assert_eq!(ConfigStrings::One("a".to_string()).into_list(), ["a"]);
    assert_eq!(
        ConfigStrings::Many(owned(&["a", "b"])).into_list(),
        ["a", "b"]
    );
}

/// Sizes are read by powers of two, and a bare number is bytes.
#[test]
fn a_size_is_read_as_it_is_written() {
    assert_eq!(size("4096"), Ok(ConfigSize(4096)));
    assert_eq!(size("2 MB"), Ok(ConfigSize(2 * 1024 * 1024)));
    assert_eq!(size("1.5KiB"), Ok(ConfigSize(1536)));
    assert_eq!(size("1kb"), Ok(ConfigSize(1024)));
    assert_eq!(
        ConfigSize::from_spelling(&ConfigSizeSpelling::U64(512)),
        Ok(ConfigSize(512))
    );
    assert_eq!(ConfigSize::of(7), ConfigSize(7));
}

#[test]
fn a_size_that_cannot_be_read_says_why() {
    assert_eq!(size(""), Err(ConfigSizeError::Empty));
    assert_eq!(size("muito"), Err(ConfigSizeError::InvalidDigit));
    assert_eq!(
        size("99999999999999999999"),
        Err(ConfigSizeError::PosOverflow)
    );
    assert_eq!(
        ConfigSizeError::Empty.message(),
        "cannot parse integer from empty string"
    );
    assert_eq!(
        ConfigSizeError::InvalidDigit.message(),
        "invalid digit found in string"
    );
    assert_eq!(
        ConfigSizeError::PosOverflow.message(),
        "number too large to fit in target type"
    );
    assert_eq!(ConfigSizeError::Unknown.message(), "not a size");
}

#[test]
fn a_size_may_be_beyond_reading() {
    assert!(is_beyond_reading("184467440737095516159"));
    assert!(!is_beyond_reading("18446744073709551615"));
    assert!(!is_beyond_reading("184467440737095516154"));
    assert!(!is_beyond_reading("10 MB"));
}

fn proc(key: &str) -> ConfigProc {
    ConfigProc {
        key: key.to_string(),
        name: None,
        name_short: None,
        groups: vec![],
        depends: vec![],
        working_dir: None,
        log_size: None,
        parse_ansi: None,
        panel: ConfigPanel::Main,
        run: None,
        modes: None,
    }
}

/// A proc that says nothing takes the session's answer, and a session that
/// says nothing the default.
#[test]
fn what_is_not_said_is_taken_from_above() {
    let mut config = Config {
        log_size: None,
        parse_ansi: None,
        ui: ConfigUi::default(),
        procs: vec![],
    };
    assert_eq!(config.log_size(), 1024 * 1024);
    assert!(config.parse_ansi());
    assert!(config.ui.colors);
    config.log_size = Some(ConfigSize(10));
    config.parse_ansi = Some(false);
    assert_eq!(config.log_size(), 10);
    assert!(!config.parse_ansi());

    let mut api = proc("api");
    assert_eq!(api.log_size(10), 10);
    assert!(!api.parse_ansi(false));
    api.log_size = Some(ConfigSize(20));
    api.parse_ansi = Some(true);
    assert_eq!(api.log_size(10), 20);
    assert!(api.parse_ansi(false));
    assert_eq!(api.keyed("web".to_string()).key, "web");
    assert_eq!(ConfigPanel::default(), ConfigPanel::Main);
    assert!(ConfigPanel::Main < ConfigPanel::Minor);
}
