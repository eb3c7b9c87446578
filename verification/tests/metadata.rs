use std::path::PathBuf;

use skill_index::{extract_description, extract_keywords, extract_skill_metadata, parse_frontmatter};

#[test]
fn frontmatter_is_the_text_between_the_markers() {
    assert_eq!(
        parse_frontmatter("---\nname: x\n---\nbody").as_deref(),
        Some("\nname: x\n")
    );
    assert_eq!(parse_frontmatter("no markers"), None);
    assert_eq!(parse_frontmatter("---\nunterminated"), None);
    assert_eq!(parse_frontmatter(" ---\nx\n---"), None);
    assert_eq!(parse_frontmatter("------").as_deref(), Some(""));
}

#[test]
fn description_comes_from_frontmatter() {
    let content = "---\nname: golang-deploy\ndescription: Deploy Go applications to production\n---\n\nUse this skill when deploying.";
    assert_eq!(extract_description(content), "Deploy Go applications to production");
}

#[test]
fn description_key_may_have_a_space_before_the_colon() {
    let content = "---\ndescription :   Spaced key  \n---\nbody line";
    assert_eq!(extract_description(content), "Spaced key");
}

#[test]
fn empty_frontmatter_description_falls_back_to_body() {
    let content = "---\ndescription:   \n---\n\n# Title\n\n  First real line.  \nSecond";
    assert_eq!(extract_description(content), "First real line.");
}

#[test]
fn description_without_frontmatter_skips_headings_and_blank_lines() {
    assert_eq!(extract_description("# Skill A\ntesting skill A content"), "testing skill A content");
    assert_eq!(extract_description("\n\n   \n#only\n"), "");
    assert_eq!(extract_description(""), "");
}

#[test]
fn long_descriptions_are_cut_to_one_hundred_characters() {
    let exact: String = "x".repeat(100);
    assert_eq!(extract_description(&exact), exact);
    let long: String = "y".repeat(101);
    let cut = extract_description(&long);
    assert_eq!(cut, format!("{}...", "y".repeat(97)));
    assert_eq!(cut.chars().count(), 100);
    let wide: String = "é".repeat(120);
    assert_eq!(extract_description(&wide), format!("{}...", "é".repeat(97)));
}

#[test]
fn carriage_returns_end_lines() {
    let content = "---\r\ndescription: Windows line\r\n---\r\nbody";
    assert_eq!(extract_description(content), "Windows line");
}

#[test]
fn keywords_follow_the_list_order_and_ignore_case() {
    let kws = extract_keywords("Deploy with DOCKER to Kubernetes; run TESTS in CI.");
    let expected: Vec<String> = ["deploy", "test", "docker", "kubernetes", "ci"]
        .iter()
        .map(|s| s.to_string())
        .collect();
    assert_eq!(kws, expected);
    assert!(extract_keywords("").is_empty());
}

#[test]
fn keywords_match_inside_words() {
    // "capital" contains "api", "scd" contains "cd".
    let kws = extract_keywords("capital scd");
    assert_eq!(kws, vec!["api".to_string(), "cd".to_string()]);
}

#[test]
fn skill_metadata_reads_description_and_keywords() {
    let m = extract_skill_metadata(
        "python-testing",
        "---\ndescription: Python test suite with pytest\n---\n\nCovers unit tests.",
        PathBuf::from("/skills/python-testing"),
    );
    assert_eq!(m.name, "python-testing");
    assert_eq!(m.description, "Python test suite with pytest");
    // "description" itself contains "script".
    assert_eq!(m.keywords, vec!["test".to_string(), "script".to_string()]);
    assert_eq!(m.path, PathBuf::from("/skills/python-testing"));
}

#[test]
fn skill_metadata_of_a_missing_file_is_empty() {
    let m = extract_skill_metadata("bare", "", PathBuf::from("/skills/bare"));
    assert_eq!(m.description, "");
    assert!(m.keywords.is_empty());
}

#[test]
fn descriptions_are_trimmed_of_exactly_std_white_space() {
    for code in 0u32..=0x3100 {
        let c = match char::from_u32(code) {
            Some(c) => c,
            None => continue,
        };
        if c == '#' || c == '-' {
            continue;
        }
        let content = format!("{c}x{c}");
        let expected = if c.is_whitespace() { "x".to_string() } else { content.clone() };
        assert_eq!(extract_description(&content), expected, "code point {code:#x}");
    }
}
