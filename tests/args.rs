use pcoretempf::args::{is_key_token, parse_args, wants_help};

fn toks(v: &[&str]) -> Vec<String> {
    v.iter().map(|s| s.to_string()).collect()
}

fn seg(k: &str, vs: &[&str]) -> (String, Vec<String>) {
    (k.to_string(), toks(vs))
}

#[test]
fn keys_own_the_values_that_follow() {
    assert_eq!(
        parse_args(toks(&["prog", "-s", "Core 1:", "-t", "0"])),
        vec![seg("-s", &["Core 1:"]), seg("-t", &["0"])]
    );
}

#[test]
fn a_key_without_values_keeps_an_empty_list() {
    assert_eq!(
        parse_args(toks(&["prog", "-cc", "-s", "a", "b", "--newline"])),
        vec![seg("-cc", &[]), seg("-s", &["a", "b"]), seg("--newline", &[])]
    );
}

#[test]
fn values_before_the_first_key_are_dropped() {
    assert_eq!(parse_args(toks(&["prog", "x", "-t", "1", "2"])), vec![seg("-t", &["1", "2"])]);
    assert_eq!(parse_args(toks(&["prog"])), Vec::<(String, Vec<String>)>::new());
    assert_eq!(parse_args(Vec::new()), Vec::<(String, Vec<String>)>::new());
}

#[test]
fn which_tokens_are_keys() {
    assert!(is_key_token("--temp"));
    assert!(is_key_token("--"));
    assert!(is_key_token("-t"));
    assert!(is_key_token("-cC"));
    assert!(is_key_token("-é"));
    assert!(!is_key_token("--a--b"));
    assert!(!is_key_token("-abc"));
    assert!(!is_key_token("-"));
    assert!(!is_key_token("0"));
    assert!(!is_key_token("-10000"));
    assert!(!is_key_token("-€"));
}

#[test]
fn help_is_asked_for_anywhere() {
    assert!(wants_help(&parse_args(toks(&["prog", "-s", "x", "-h"]))));
    assert!(wants_help(&parse_args(toks(&["prog", "--help"]))));
    assert!(!wants_help(&parse_args(toks(&["prog", "-s", "-h2", "--helpme"]))));
}
