use mdbook_header_footer::{
    compose, default_regex_str, CompileError, Config, RawConfig, RawMatcher,
};

fn rule(pattern: &str, padding: &str) -> RawMatcher {
    RawMatcher { regex: pattern.to_string(), padding: padding.to_string() }
}

fn config(headers: Vec<RawMatcher>, footers: Vec<RawMatcher>) -> Config {
    RawConfig { headers, footers }.compile().expect("every pattern is valid")
}

fn failure(headers: Vec<RawMatcher>, footers: Vec<RawMatcher>) -> CompileError {
    match (RawConfig { headers, footers }).compile() {
        Ok(_) => panic!("a pattern that is not valid was compiled"),
        Err(e) => e,
    }
}

#[test]
fn header_is_put_before_the_matching_chapter_only() {
    let c = config(vec![rule(r"^chapter1\.md$", "HEADER\n")], vec![]);
    assert_eq!(c.pad_chapter("Hello", "chapter1.md"), Some("HEADER\nHello".to_string()));
    assert_eq!(c.pad_chapter("Hello", "chapter2.md"), None);
}

#[test]
fn two_matching_headers_apply_in_rule_order() {
    let c = config(vec![rule(".*", "A"), rule("b$", "B")], vec![]);
    assert_eq!(c.pad_chapter("X", "ab"), Some("ABX".to_string()));
    let swapped = config(vec![rule("b$", "B"), rule(".*", "A")], vec![]);
    assert_eq!(swapped.pad_chapter("X", "ab"), Some("BAX".to_string()));
}

#[test]
fn no_matching_rule_means_no_change() {
    let c = config(vec![rule("^intro", "H")], vec![rule("appendix", "F")]);
    assert_eq!(c.pad_chapter("body", "chapter.md"), None);
}

#[test]
fn single_header_has_no_separator() {
    let c = config(vec![rule("^a", "H"), rule("^z", "never")], vec![rule("^z", "never")]);
    assert_eq!(c.pad_chapter("body", "a.md"), Some("Hbody".to_string()));
}

#[test]
fn single_footer_has_no_separator() {
    let c = config(vec![rule("^z", "never")], vec![rule("^z", "never"), rule("md$", "F")]);
    assert_eq!(c.pad_chapter("body", "a.md"), Some("bodyF".to_string()));
}

#[test]
fn many_headers_and_footers_keep_configured_order() {
    let c = config(
        vec![rule("a", "1"), rule("nope", "x"), rule("b", "2"), rule("", "3")],
        vec![rule("c$", "4"), rule("^abc$", "5"), rule("nope", "y"), rule("b", "6")],
    );
    assert_eq!(c.pad_chapter("-body-", "abc"), Some("123-body-456".to_string()));
}

#[test]
fn footers_alone_make_a_change() {
    let c = config(vec![], vec![rule(".*", "\nfooter")]);
    assert_eq!(c.pad_chapter("", "x"), Some("\nfooter".to_string()));
}

#[test]
fn padding_is_not_idempotent() {
    let c = config(vec![rule(".*", "H")], vec![rule(".*", "F")]);
    let once = c.pad_chapter("body", "p.md").unwrap();
    assert_eq!(once, "HbodyF");
    let twice = c.pad_chapter(&once, "p.md").unwrap();
    assert_eq!(twice, "HHbodyFF");
    assert_ne!(once, twice);
}

#[test]
fn empty_configuration_changes_nothing() {
    let c = RawConfig::default().compile().expect("nothing to reject");
    assert!(c.headers().is_empty());
    assert!(c.footers().is_empty());
    assert_eq!(c.pad_chapter("body", "chapter.md"), None);
    assert_eq!(c.pad_chapter("", ""), None);
}

#[test]
fn default_raw_config_has_no_rules() {
    let raw = RawConfig::default();
    assert!(raw.headers.is_empty());
    assert!(raw.footers.is_empty());
}

#[test]
fn invalid_pattern_fails_the_whole_compile() {
    let e = failure(vec![rule(".*", "ok"), rule("foo(bar", "bad")], vec![rule("x", "ok")]);
    assert_eq!(e.pattern, "foo(bar");
    assert!(matches!(e.cause, regex::Error::Syntax(_)));
}

#[test]
fn first_invalid_pattern_is_reported() {
    let e = failure(vec![rule("a", ""), rule("(", ""), rule("[", "")], vec![rule("*", "")]);
    assert_eq!(e.pattern, "(");
    let e = failure(vec![rule("a", "")], vec![rule("ok", ""), rule("[", ""), rule("(", "")]);
    assert_eq!(e.pattern, "[");
    let e = failure(vec![rule("[", "")], vec![rule("(", "")]);
    assert_eq!(e.pattern, "[");
}

#[test]
fn oversized_pattern_is_rejected() {
    let e = failure(vec![rule(r"\w{1000}{1000}", "")], vec![]);
    assert_eq!(e.pattern, r"\w{1000}{1000}");
    assert!(matches!(e.cause, regex::Error::CompiledTooBig(_)));
}

#[test]
fn single_rule_compiles_to_the_same_pattern_and_padding() {
    let m = rule(r"^ch\d+\.md$", "pad").compile().expect("valid");
    assert_eq!(m.regex_str(), r"^ch\d+\.md$");
    assert_eq!(m.padding(), "pad");
    assert!(m.is_match("ch12.md"));
    assert!(!m.is_match("ch.md"));
}

#[test]
fn single_rule_with_invalid_pattern_fails() {
    let e = rule("a{2,1}", "pad").compile().unwrap_err();
    assert_eq!(e.pattern, "a{2,1}");
}

#[test]
fn compile_keeps_rule_order() {
    let c = config(vec![rule("a", "1"), rule("b", "2"), rule("c", "3")], vec![rule("d", "4"), rule("e", "5")]);
    let heads: Vec<(&str, &str)> = c.headers().iter().map(|m| (m.regex_str(), m.padding())).collect();
    let feet: Vec<(&str, &str)> = c.footers().iter().map(|m| (m.regex_str(), m.padding())).collect();
    assert_eq!(heads, vec![("a", "1"), ("b", "2"), ("c", "3")]);
    assert_eq!(feet, vec![("d", "4"), ("e", "5")]);
}

#[test]
fn a_match_anywhere_in_the_path_counts() {
    let c = config(vec![rule("guide", "H")], vec![]);
    assert_eq!(c.pad_chapter("b", "src/guide/intro.md"), Some("Hb".to_string()));
    assert_eq!(c.pad_chapter("b", "src/reference/intro.md"), None);
}

#[test]
fn a_pattern_that_matches_the_empty_text_matches_every_path() {
    let c = config(vec![rule("", "H")], vec![rule("x*", "F")]);
    assert_eq!(c.pad_chapter("b", ""), Some("HbF".to_string()));
    assert_eq!(c.pad_chapter("b", "anything.md"), Some("HbF".to_string()));
}

#[test]
fn default_pattern_matches_every_path() {
    assert_eq!(default_regex_str(), ".*");
    let c = config(vec![rule(&default_regex_str(), "H")], vec![]);
    assert_eq!(c.pad_chapter("b", "any/path.md"), Some("Hb".to_string()));
    assert_eq!(c.pad_chapter("b", ""), Some("Hb".to_string()));
}

#[test]
fn empty_padding_still_counts_as_a_match() {
    let c = config(vec![rule(".*", "")], vec![]);
    assert_eq!(c.pad_chapter("body", "p"), Some("body".to_string()));
}

#[test]
fn compiling_twice_gives_the_same_behaviour() {
    let a = rule("^a.c$", "p").compile().unwrap();
    let b = rule("^a.c$", "p").compile().unwrap();
    for path in ["abc", "ac", "a-c", "xabc", ""] {
        assert_eq!(a.is_match(path), b.is_match(path));
    }
}

#[test]
fn text_beyond_ascii_is_kept() {
    let c = config(vec![rule("é", "—")], vec![rule("é", "✓")]);
    assert_eq!(c.pad_chapter("çà", "café.md"), Some("—çà✓".to_string()));
}

fn texts(parts: &[&str]) -> Vec<String> {
    parts.iter().map(|p| p.to_string()).collect()
}

#[test]
fn composing_without_paddings_gives_nothing() {
    assert_eq!(compose(&texts(&[]), "body", &texts(&[])), None);
    assert_eq!(compose(&texts(&[]), "", &texts(&[])), None);
}

#[test]
fn composing_one_header() {
    assert_eq!(
        compose(&texts(&["HEADER\n"]), "Hello", &texts(&[])),
        Some("HEADER\nHello".to_string())
    );
}

#[test]
fn composing_two_headers_keeps_their_order() {
    assert_eq!(compose(&texts(&["A", "B"]), "X", &texts(&[])), Some("ABX".to_string()));
    assert_eq!(compose(&texts(&["B", "A"]), "X", &texts(&[])), Some("BAX".to_string()));
}

#[test]
fn composing_one_footer() {
    assert_eq!(compose(&texts(&[]), "body", &texts(&["F"])), Some("bodyF".to_string()));
}

#[test]
fn composing_headers_and_footers() {
    assert_eq!(
        compose(&texts(&["1", "2", "3"]), "-body-", &texts(&["4", "5", "6"])),
        Some("123-body-456".to_string())
    );
}

#[test]
fn composing_with_an_empty_padding_is_still_a_change() {
    assert_eq!(compose(&texts(&[""]), "body", &texts(&[])), Some("body".to_string()));
    assert_eq!(compose(&texts(&[]), "body", &texts(&["", ""])), Some("body".to_string()));
}
