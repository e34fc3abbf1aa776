use minigrep::{run, Config};

fn words(list: &[&str]) -> Vec<String> {
    list.iter().map(|word| word.to_string()).collect()
}

#[test]
fn new_wants_a_query() {
    assert!(matches!(
        Config::new(&words(&[]), None),
        Err("missing query string argument")
    ));
    assert!(matches!(
        Config::new(&words(&["minigrep"]), Some("1")),
        Err("missing query string argument")
    ));
}

#[test]
fn new_wants_a_filename() {
    assert!(matches!(
        Config::new(&words(&["minigrep", "query"]), None),
        Err("missing filename argument")
    ));
}

#[test]
fn new_reads_query_and_filename() {
    let made = Config::new(&words(&["minigrep", "needle", "poem.txt"]), None);
    match made {
        Ok(config) => {
            assert_eq!(config.query, "needle");
            assert_eq!(config.filename, "poem.txt");
            assert!(config.case_sensitive);
        }
        Err(why) => panic!("{}", why),
    }
}

#[test]
fn new_passes_over_further_words() {
    let made = Config::new(&words(&["minigrep", "needle", "poem.txt", "more", "words"]), None);
    match made {
        Ok(config) => {
            assert_eq!(config.query, "needle");
            assert_eq!(config.filename, "poem.txt");
        }
        Err(why) => panic!("{}", why),
    }
}

#[test]
fn switch_with_any_value_turns_case_off() {
    let args = words(&["minigrep", "needle", "poem.txt"]);
    for value in ["1", "0", "", "false"] {
        match Config::new(&args, Some(value)) {
            Ok(config) => assert!(!config.case_sensitive),
            Err(why) => panic!("{}", why),
        }
    }
}

#[test]
fn run_searches_as_the_settings_say() {
    let contents = "Rust:\nSafe, fast, productive.\nPick three.\nTrust me.\n";
    let exact = Config {
        query: String::from("rust"),
        filename: String::from("poem.txt"),
        case_sensitive: true,
    };
    assert_eq!(run(exact, contents), vec!["Trust me."]);
    let loose = Config {
        query: String::from("rust"),
        filename: String::from("poem.txt"),
        case_sensitive: false,
    };
    assert_eq!(run(loose, contents), vec!["Rust:", "Trust me."]);
}

#[test]
fn mode_follows_the_flag() {
    let mut config = Config {
        query: String::new(),
        filename: String::new(),
        case_sensitive: true,
    };
    assert_eq!(config.mode(), minigrep::CaseSensitivity::Sensitive);
    config.case_sensitive = false;
    assert_eq!(config.mode(), minigrep::CaseSensitivity::Insensitive);
}
