use minigrep::Config;
use minigrep::ConfigError;

#[test]
fn build_config() {
    let config = Config::build(
        &[
            String::from("./program"),
            String::from("string to search"),
            String::from("filename.txt"),
        ],
        false,
    )
    .unwrap();
    assert_eq!(config.file_path, "filename.txt");
    assert_eq!(config.query, "string to search");
    assert!(!config.ignore_case);
}

#[test]
fn build_config_case_insensitive() {
    let config = Config::build(
        &[
            String::from("./program"),
            String::from("-i"),
            String::from("string to search"),
            String::from("filename.txt"),
        ],
        false,
    )
    .unwrap();
    assert_eq!(config.file_path, "filename.txt");
    assert_eq!(config.query, "string to search");
    assert!(config.ignore_case);

    let config = Config::build(
        &[
            String::from("./program"),
            String::from("--ignore-case"),
            String::from("string to search"),
            String::from("filename.txt"),
        ],
        false,
    )
    .unwrap();
    assert_eq!(config.file_path, "filename.txt");
    assert_eq!(config.query, "string to search");
    assert!(config.ignore_case);
}

#[test]
fn build_config_invalid() {
    Config::build(
        &[
            String::from("./program"),
            String::from("string to search but no filename"),
        ],
        false,
    )
    .expect_err("Should require filename to be specified");
}

#[test]
fn too_few_tokens_is_not_enough_arguments() {
    assert_eq!(
        Err(ConfigError::NotEnoughArguments),
        Config::build(&[String::from("./program")], false).map(|c| c.query)
    );
    assert_eq!(
        Err(ConfigError::NotEnoughArguments),
        Config::build(
            &[String::from("./program"), String::from("query-only")],
            false
        )
        .map(|c| c.query)
    );
}

#[test]
fn unrecognized_flag_is_invalid_arguments() {
    assert_eq!(
        Err(ConfigError::InvalidArguments),
        Config::build(
            &[
                String::from("./program"),
                String::from("-x"),
                String::from("duct"),
                String::from("poem.txt"),
            ],
            false
        )
        .map(|c| c.query)
    );
}

#[test]
fn five_or_more_tokens_is_invalid_arguments() {
    assert_eq!(
        Err(ConfigError::InvalidArguments),
        Config::build(
            &[
                String::from("./program"),
                String::from("-i"),
                String::from("duct"),
                String::from("poem.txt"),
                String::from("extra"),
            ],
            false
        )
        .map(|c| c.query)
    );
}

#[test]
fn environment_default_sets_the_mode() {
    let config = Config::build(
        &[
            String::from("./program"),
            String::from("duct"),
            String::from("poem.txt"),
        ],
        true,
    )
    .unwrap();
    assert_eq!(config.query, "duct");
    assert_eq!(config.file_path, "poem.txt");
    assert!(config.ignore_case);
}

#[test]
fn flag_overrides_an_unset_environment() {
    let config = Config::build(
        &[
            String::from("./program"),
            String::from("-i"),
            String::from("duct"),
            String::from("poem.txt"),
        ],
        false,
    )
    .unwrap();
    assert!(config.ignore_case);
}

#[test]
fn error_messages() {
    assert_eq!(
        "Not enough arguments",
        ConfigError::NotEnoughArguments.message()
    );
    assert_eq!("Invalid arguments", ConfigError::InvalidArguments.message());
}
