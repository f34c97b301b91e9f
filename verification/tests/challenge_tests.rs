use anime4you::challenge::{extract_prompt, is_rejected, parse_challenge};

#[test]
fn prompt_drops_colon_prefix_and_period() {
    assert_eq!(
        extract_prompt("Frage 1: Welches Bild zeigt eine Katze.").unwrap(),
        "Welches Bild zeigt eine Katze"
    );
    assert_eq!(extract_prompt("Nur ein Satz.").unwrap(), "Nur ein Satz");
    assert_eq!(extract_prompt("a:b: c.").unwrap(), "c");
}

#[test]
fn prompt_requires_trailing_period() {
    assert!(extract_prompt("Welches Bild zeigt eine Katze?").is_err());
    assert!(extract_prompt("").is_err());
}

#[test]
fn verdict_sentinel() {
    assert!(is_rejected("FALSE"));
    assert!(is_rejected("FALSE: wrong answer"));
    assert!(!is_rejected("<html>payload</html>"));
    assert!(!is_rejected("FALS"));
    assert!(!is_rejected("false"));
}

#[test]
fn parse_challenge_reads_all_fields() {
    let body = "{\"session\":\"s123\",\"id_prefix\":\"c_\",\
        \"question_i\":\"Frage: Welches Bild zeigt eine Katze.\",\
        \"answers\":[\"h1\",\"h2\",\"h3\",\"h4\"]}";
    let c = parse_challenge(body).unwrap();
    assert_eq!(c.session, "s123");
    assert_eq!(c.id_prefix, "c_");
    assert_eq!(c.question, "Welches Bild zeigt eine Katze");
    assert_eq!(c.images, vec!["h1", "h2", "h3", "h4"]);
}

#[test]
fn parse_challenge_names_missing_field() {
    let body = "{\"id_prefix\":\"c_\",\"question_i\":\"F: x.\",\"answers\":[\"h\"]}";
    let err = parse_challenge(body).unwrap_err();
    assert!(err.message().contains("session"));
}

#[test]
fn parse_challenge_refuses_bad_shapes() {
    assert!(parse_challenge("not json at all").is_err());
    assert!(parse_challenge("{\"answers\":\"h\"}").is_err());
    assert!(parse_challenge(
        "{\"session\":\"s\",\"id_prefix\":\"p\",\"question_i\":\"F: x.\",\"answers\":[]}"
    )
    .is_err());
    assert!(parse_challenge(
        "{\"session\":\"s\",\"id_prefix\":\"p\",\"question_i\":\"no period\",\"answers\":[\"h\"]}"
    )
    .is_err());
    assert!(parse_challenge(
        "{\"session\":7,\"id_prefix\":\"p\",\"question_i\":\"F: x.\",\"answers\":[\"h\"]}"
    )
    .is_err());
}
