//! How a mismatch of fixed text is shown.
use pg_whitelist_proxy::template::matcher::variable::divergent_suffixes;

#[test]
fn divergent_suffixes_include_bounded_utf8_context() {
    let common = "0123456789é1234567890123456789";
    let expected = format!("{common}expected");
    let actual = format!("{common}actual");

    assert_eq!(
        divergent_suffixes(&expected, &actual),
        Some((
            "é1234567890123456789<DIVERGENCE>expected".to_string(),
            "é1234567890123456789<DIVERGENCE>actual".to_string()
        ))
    );
}

#[test]
fn a_prefix_does_not_diverge() {
    assert_eq!(divergent_suffixes("SELECT", "SELECT 1"), None);
    assert_eq!(divergent_suffixes("", "anything"), None);
}

#[test]
fn a_text_that_ends_too_early_diverges_at_its_end() {
    assert_eq!(
        divergent_suffixes("SELECT 1", "SELECT"),
        Some(("SELECT<DIVERGENCE> 1".to_string(), "SELECT<DIVERGENCE>".to_string()))
    );
}
