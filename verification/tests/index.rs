use std::path::PathBuf;

use skill_index::{tokenize, SkillIndex, SkillMeta};

fn meta(name: &str, description: &str, keywords: &[&str], path: &str) -> SkillMeta {
    SkillMeta {
        name: name.to_string(),
        description: description.to_string(),
        keywords: keywords.iter().map(|k| k.to_string()).collect(),
        path: PathBuf::from(path),
    }
}

fn words(v: &[&str]) -> Vec<String> {
    v.iter().map(|w| w.to_string()).collect()
}

#[test]
fn tokenize_lowercases_and_splits_on_non_alphanumerics() {
    assert_eq!(tokenize("Docker-Deployment of CI/CD"), words(&["docker", "deployment"]));
}

#[test]
fn tokenize_drops_terms_of_two_characters_or_less() {
    assert_eq!(tokenize("a go rust PR api"), words(&["rust", "api"]));
    assert!(tokenize("").is_empty());
    assert!(tokenize("  --  ").is_empty());
}

#[test]
fn tokenize_counts_characters_not_bytes() {
    // Two characters are too short, however many bytes they take.
    assert!(tokenize("éé x").is_empty());
    assert!(tokenize("日本").is_empty());
    assert_eq!(tokenize("ééé ab"), words(&["ééé"]));
}

#[test]
fn tokenize_lowers_ascii_text() {
    assert_eq!(tokenize("Go DEV"), words(&["dev"]));
    assert_eq!(tokenize("HELLO_World-42abc"), words(&["hello", "world", "42abc"]));
}

#[test]
fn tokenize_keeps_unicode_letters_and_digits() {
    assert_eq!(tokenize("Straße v2.0 k8s"), words(&["straße", "k8s"]));
}

#[test]
fn index_counts_terms_per_skill() {
    let index = SkillIndex::new(vec![
        meta("docker-deploy", "Deploy with Docker", &["docker", "deploy"], "/d"),
        meta("git", "Git basics", &[], "/g"),
    ]);
    assert_eq!(index.num_docs(), 2);
    // docker, deploy, deploy, with, docker, docker, deploy; git, git, basics
    assert_eq!(index.doc_lengths(), &[7, 3]);
}

#[test]
fn query_hits_report_term_and_document_frequencies() {
    let index = SkillIndex::new(vec![
        meta("docker-deploy", "Deploy with Docker", &["docker", "deploy"], "/d"),
        meta("k8s", "Deploy on kubernetes", &[], "/k"),
        meta("git", "Git basics", &[], "/g"),
    ]);
    let hits = index.query_hits(&words(&["deploy", "nothing", "kubernetes"]));
    let flat: Vec<(usize, usize, usize, usize)> =
        hits.iter().map(|h| (h.doc, h.tf, h.doc_len, h.doc_freq)).collect();
    assert_eq!(flat, vec![(0, 3, 7, 2), (1, 1, 3, 2), (1, 1, 3, 1)]);
}

#[test]
fn doc_freq_counts_skills_not_occurrences() {
    let index = SkillIndex::new(vec![
        meta("deploy-deploy", "deploy", &["deploy"], "/a"),
        meta("other", "deploy things", &[], "/b"),
        meta("third", "nothing here", &[], "/c"),
    ]);
    assert_eq!(index.doc_freq(&"deploy".to_string()), 2);
    assert_eq!(index.doc_freq(&"missing".to_string()), 0);
}

#[test]
fn first_summaries_take_skills_in_order() {
    let index = SkillIndex::new(vec![
        meta("one", "First", &["k1"], "/1"),
        meta("two", "Second", &[], "/2"),
        meta("three", "Third", &[], "/3"),
    ]);
    let firsts = index.first_summaries(2);
    assert_eq!(firsts.len(), 2);
    assert_eq!(firsts[0].name, "one");
    assert_eq!(firsts[0].keywords, words(&["k1"]));
    assert_eq!(firsts[1].description, "Second");
    assert_eq!(index.first_summaries(10).len(), 3);
}

#[test]
fn get_skill_path_finds_the_first_skill_of_that_name() {
    let index = SkillIndex::new(vec![
        meta("dup", "First", &[], "/first"),
        meta("other", "Other", &[], "/other"),
        meta("dup", "Second", &[], "/second"),
    ]);
    assert_eq!(index.get_skill_path("dup"), Some(PathBuf::from("/first")));
    assert_eq!(index.get_skill_path("other"), Some(PathBuf::from("/other")));
    assert_eq!(index.get_skill_path("absent"), None);
}

#[test]
fn skill_names_lists_names_in_order() {
    let index = SkillIndex::new(vec![meta("b", "", &[], "/b"), meta("a", "", &[], "/a")]);
    assert_eq!(index.skill_names(), words(&["b", "a"]));
}

#[test]
fn empty_index_has_no_hits() {
    let index = SkillIndex::new(vec![]);
    assert_eq!(index.num_docs(), 0);
    assert!(index.query_hits(&words(&["anything"])).is_empty());
    assert!(index.first_summaries(3).is_empty());
}
