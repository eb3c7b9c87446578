use skill_index::{build_skill_section, SkillSummary};

fn summary(name: &str, description: &str, keywords: &[&str]) -> SkillSummary {
    SkillSummary {
        name: name.to_string(),
        description: description.to_string(),
        keywords: keywords.iter().map(|k| k.to_string()).collect(),
    }
}

#[test]
fn test_to_index_line_format() {
    let summary = SkillSummary {
        name: "docker-deploy".to_string(),
        description: "Deploy with Docker containers".to_string(),
        keywords: vec!["docker".to_string()],
    };
    let line = summary.to_index_line();
    assert_eq!(line, "- docker-deploy: Deploy with Docker containers");
}

#[test]
fn test_generate_skill_index_prompt_empty() {
    let prompt = build_skill_section(&[]);
    assert!(prompt.is_empty(), "empty skills should produce empty prompt");
}

#[test]
fn section_lists_every_skill_between_header_and_note() {
    let skills = vec![
        summary("alpha", "First", &[]),
        summary("beta", "Second one", &["x"]),
    ];
    let prompt = build_skill_section(&skills);
    assert_eq!(
        prompt,
        "## Available Skills\n- alpha: First\n- beta: Second one\n\nUse skill_view(name=\"skill-name\") to load a skill's full content when needed.\n"
    );
}

#[test]
fn section_with_one_skill_has_one_bullet() {
    let prompt = build_skill_section(&[summary("solo", "Only skill", &[])]);
    assert!(prompt.starts_with("## Available Skills\n- solo: Only skill\n\n"));
    assert_eq!(prompt.lines().filter(|l| l.starts_with("- ")).count(), 1);
}

#[test]
fn index_line_keeps_empty_description() {
    let line = summary("bare", "", &[]).to_index_line();
    assert_eq!(line, "- bare: ");
}
