use rustbook::minigrep::{search, search_case_insensitive, Config};

fn get_content() -> &'static str {
    "\
Rust:
safe, fast, productive.
Duct tape.
Pick three.
Trust me."
}

#[test]
fn test_config_parsing() {
    let filename = "foo".to_string();
    let query = "bar".to_string();
    let config =
        Config::new(&vec!["foobar".to_string(), query.clone(), filename.clone()], true).unwrap();

    assert_eq!(config.filename, filename);
    assert_eq!(config.query, query);
}

#[test]
fn case_sensitive() {
    let query = "duct";
    let contents = get_content();

    assert_eq!(vec!["safe, fast, productive."], search(query, contents));
}

#[test]
fn case_insensitive() {
    let query = "rUsT";
    let contents = get_content();

    assert_eq!(
        vec!["Rust:", "Trust me."],
        search_case_insensitive(query, contents)
    );
}

#[test]
fn config_needs_three_arguments() {
    let args = vec!["prog".to_string(), "query".to_string()];
    match Config::new(&args, true) {
        Err(e) => assert_eq!(e, "Not enough arguments"),
        Ok(_) => panic!("two arguments must be refused"),
    }
    assert!(Config::new(&vec![], false).is_err());
}

#[test]
fn config_keeps_case_flag() {
    let args = vec!["prog".to_string(), "q".to_string(), "f".to_string(), "extra".to_string()];
    let config = Config::new(&args, false).unwrap();
    assert!(!config.case_sensitive);
    assert_eq!(config.query, "q");
    assert_eq!(config.filename, "f");
}

#[test]
fn search_splits_on_newlines_only() {
    assert_eq!(search("", "a\n\nb"), vec!["a", "", "b"]);
    assert_eq!(search("x", ""), Vec::<&str>::new());
    assert_eq!(search("", ""), vec![""]);
    assert_eq!(search("b", "a\nb\n"), vec!["b"]);
    assert_eq!(search("", "a\n"), vec!["a", ""]);
    assert_eq!(search("ab", "xab\naxb\nab"), vec!["xab", "ab"]);
}

#[test]
fn search_handles_unicode_lines() {
    let contents = "héllo wörld\nnaïve\nÉCOLE école";
    assert_eq!(search("ö", contents), vec!["héllo wörld"]);
    assert_eq!(search_case_insensitive("ÉCOLE", contents), vec!["ÉCOLE école"]);
    assert_eq!(search_case_insensitive("HÉLLO", contents), Vec::<&str>::new());
    assert_eq!(search_case_insensitive("HéLLO", contents), vec!["héllo wörld"]);
    assert_eq!(search_case_insensitive("école", contents), vec!["ÉCOLE école"]);
}

#[test]
fn configured_search_follows_case_flag() {
    let contents = get_content();
    let args = vec!["p".to_string(), "rUsT".to_string(), "f".to_string()];
    let sensitive = Config::new(&args, true).unwrap();
    assert_eq!(sensitive.matching_lines(contents), Vec::<&str>::new());
    let insensitive = Config::new(&args, false).unwrap();
    assert_eq!(insensitive.matching_lines(contents), vec!["Rust:", "Trust me."]);
}

#[test]
fn insensitive_search_ignores_query_case() {
    let contents = get_content();
    assert_eq!(search_case_insensitive("RUST", contents), search_case_insensitive("rust", contents));
    assert_eq!(search_case_insensitive("DuCt", contents), vec!["safe, fast, productive.", "Duct tape."]);
}
