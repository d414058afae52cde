use wlight::binary64::Binary64;
use wlight::config::{Config, ConfigPaths, ConfigSource, SaveStep, SavedDisplay};

fn number(value: f64) -> Binary64 {
    Binary64 {
        bits: value.to_bits(),
    }
}

fn paths() -> ConfigPaths {
    ConfigPaths {
        path: "/c/config.toml".to_owned(),
        parent: Some("/c".to_owned()),
        temporary: "/c/config.toml.tmp".to_owned(),
    }
}

fn failed(step: SaveStep) -> String {
    match step {
        SaveStep::Done(Err(message)) => message,
        other => panic!("not failed: {other:?}"),
    }
}

/// The text of a configuration file.
fn encoded(config: &Config) -> String {
    let mut displays = toml::Table::new();
    for index in 0..config.displays.len() {
        let saved = config.displays.value_at(index);
        let mut display = toml::Table::new();
        if let Some(percent) = saved.ddc_brightness {
            display.insert(
                "ddc_brightness".to_owned(),
                toml::Value::Integer(i64::from(percent)),
            );
        }
        if let Some(brightness) = saved.gamma_brightness {
            display.insert(
                "gamma_brightness".to_owned(),
                toml::Value::Float(f64::from_bits(brightness.bits)),
            );
        }
        displays.insert(
            config.displays.key_at(index).clone(),
            toml::Value::Table(display),
        );
    }
    let mut table = toml::Table::new();
    table.insert(
        "hardware_floor".to_owned(),
        toml::Value::Float(f64::from_bits(config.hardware_floor.bits)),
    );
    table.insert("displays".to_owned(), toml::Value::Table(displays));
    toml::to_string_pretty(&table).expect("encode configuration")
}

/// What the text of a configuration file says.
fn parsed(text: &str) -> Config {
    let table: toml::Table = toml::from_str(text).expect("parse configuration");
    let mut config = Config {
        hardware_floor: number(table["hardware_floor"].as_float().expect("floor")),
        ..Config::default()
    };
    for (id, display) in table["displays"].as_table().expect("displays") {
        if let Some(percent) = display.get("ddc_brightness") {
            let percent = percent.as_integer().expect("percentage");
            config.remember_ddc(id, u16::try_from(percent).expect("percentage"));
        }
        if let Some(brightness) = display.get("gamma_brightness") {
            config.remember_gamma(id, number(brightness.as_float().expect("brightness")));
        }
    }
    config
}

#[test]
fn round_trips_configuration() {
    let mut config = Config {
        hardware_floor: number(0.25),
        ..Config::default()
    };
    config.displays.insert(
        "display-id".to_owned(),
        SavedDisplay {
            ddc_brightness: Some(42),
            gamma_brightness: Some(number(0.75)),
        },
    );

    let mut text = String::new();
    let mut temporary = None;
    let mut file = None;
    let mut outcomes = Vec::new();
    loop {
        match config.save(&paths(), &outcomes) {
            SaveStep::CreateDirectory => {}
            SaveStep::Encode => text = encoded(&config),
            SaveStep::WriteTemporary => temporary = Some(text.clone()),
            SaveStep::Replace => file = temporary.take(),
            SaveStep::Done(result) => {
                result.expect("save configuration");
                break;
            }
        }
        outcomes.push(Ok(()));
    }

    let found = ConfigSource::Parsed(parsed(&file.expect("a file")));
    let loaded = Config::load("/c/config.toml", found).expect("load configuration");
    assert_eq!(loaded.hardware_floor, number(0.25));
    let display = loaded
        .saved(&"display-id".to_owned())
        .expect("saved display");
    assert_eq!(display.ddc_brightness, Some(42));
    assert_eq!(display.gamma_brightness, Some(number(0.75)));
}

#[test]
fn rejects_out_of_range_values() {
    let config = Config {
        hardware_floor: number(1.5),
        ..Config::default()
    };
    assert!(config.validate().is_err());
}

#[test]
fn the_first_fault_is_reported() {
    let mut config = Config::default();
    assert_eq!(config.hardware_floor.bits, 0.2_f64.to_bits());
    assert_eq!(config.validate(), Ok(()));
    config.remember_ddc("b", 101);
    config.remember_gamma("a", number(-0.5));
    assert_eq!(
        config.validate(),
        Err("display a has an invalid gamma brightness".to_owned())
    );
    config.remember_gamma("a", number(0.5));
    assert_eq!(
        config.validate(),
        Err("display b has an invalid DDC brightness".to_owned())
    );
    config.remember_ddc("b", 100);
    assert_eq!(config.validate(), Ok(()));
    config.hardware_floor = number(f64::NAN);
    assert_eq!(
        config.validate(),
        Err("hardware_floor must be finite and between 0.0 and 1.0".to_owned())
    );
}

#[test]
fn settings_are_kept_apart() {
    let mut config = Config::default();
    assert!(config.saved(&"x".to_owned()).is_none());
    config.remember_ddc("x", 40);
    config.remember_gamma("x", number(0.75));
    config.remember_ddc("y", 10);
    assert_eq!(
        config.saved(&"x".to_owned()),
        Some(SavedDisplay {
            ddc_brightness: Some(40),
            gamma_brightness: Some(number(0.75)),
        })
    );
    assert_eq!(
        config.saved(&"y".to_owned()),
        Some(SavedDisplay {
            ddc_brightness: Some(10),
            ..SavedDisplay::default()
        })
    );
}

#[test]
fn loading_depends_on_what_is_found() {
    let config = Config::load("/c", ConfigSource::Missing).expect("default");
    assert_eq!(config.displays.len(), 0);
    assert_eq!(
        Config::load("/c", ConfigSource::Unreadable("denied".to_owned())).err(),
        Some("failed to read /c: denied".to_owned())
    );
    assert_eq!(
        Config::load("/c", ConfigSource::Unparsable("line 1".to_owned())).err(),
        Some("failed to parse /c: line 1".to_owned())
    );
    let mut stored = Config::default();
    stored.hardware_floor = number(0.25);
    stored.remember_ddc("display-id", 42);
    let config = Config::load("/c", ConfigSource::Parsed(stored)).expect("stored");
    assert_eq!(config.hardware_floor.bits, 0.25_f64.to_bits());
    let mut broken = Config::default();
    broken.remember_ddc("display-id", 142);
    assert_eq!(
        Config::load("/c", ConfigSource::Parsed(broken)).err(),
        Some("display display-id has an invalid DDC brightness".to_owned())
    );
}

#[test]
fn saving_replaces_the_file_last() {
    let config = Config::default();
    let mut outcomes = Vec::new();
    assert!(matches!(
        config.save(&paths(), &outcomes),
        SaveStep::CreateDirectory
    ));
    outcomes.push(Ok(()));
    assert!(matches!(config.save(&paths(), &outcomes), SaveStep::Encode));
    outcomes.push(Ok(()));
    assert!(matches!(
        config.save(&paths(), &outcomes),
        SaveStep::WriteTemporary
    ));
    outcomes.push(Ok(()));
    assert!(matches!(config.save(&paths(), &outcomes), SaveStep::Replace));
    outcomes.push(Ok(()));
    assert!(matches!(
        config.save(&paths(), &outcomes),
        SaveStep::Done(Ok(()))
    ));
}

#[test]
fn every_failure_to_save_has_its_message() {
    let config = Config::default();
    let after = |successes: usize| {
        let mut outcomes: Vec<Result<(), String>> = vec![Ok(()); successes];
        outcomes.push(Err("disk full".to_owned()));
        failed(config.save(&paths(), &outcomes))
    };
    assert_eq!(after(0), "failed to create /c: disk full");
    assert_eq!(after(1), "failed to encode configuration: disk full");
    assert_eq!(after(2), "failed to write /c/config.toml.tmp: disk full");
    assert_eq!(
        after(3),
        "failed to atomically replace /c/config.toml with /c/config.toml.tmp: disk full"
    );
    let mut rootless = paths();
    rootless.parent = None;
    assert_eq!(
        failed(config.save(&rootless, &Vec::new())),
        "configuration path has no parent directory"
    );
    let mut broken = Config::default();
    broken.remember_ddc("x", 200);
    assert_eq!(
        failed(broken.save(&paths(), &Vec::new())),
        "display x has an invalid DDC brightness"
    );
}
