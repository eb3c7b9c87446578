use std::collections::HashMap;
use std::path::PathBuf;

use skill_index::{build_skill_section, tokenize, SkillIndex, SkillMeta, SkillSummary};

const K1: f64 = 1.5;
const B: f64 = 0.75;

fn bm25_score(num_docs: usize, avg_doc_len: f64, tf: usize, doc_len: usize, n: usize) -> f64 {
    let idf = ((num_docs as f64 - n as f64 + 0.5) / (n as f64 + 0.5) + 1.0).ln();
    let norm = 1.0 - B + B * doc_len as f64 / avg_doc_len;
    let term_saturation = tf as f64 * (K1 + 1.0) / (tf as f64 + K1 * norm);
    idf * term_saturation
}

/// BM25 retrieval over the library's index: the library supplies the query
/// terms, the postings they hit and the summaries; the scores are floats.
fn retrieve(index: &SkillIndex, query: &str, top_k: usize) -> Vec<SkillSummary> {
    let words = tokenize(query);
    if words.is_empty() {
        return index.retrieve_ranked(query, &[], top_k);
    }
    let num_docs = index.num_docs();
    let avg_doc_len = if num_docs > 0 {
        let total: usize = index.doc_lengths().iter().sum();
        total as f64 / num_docs as f64
    } else {
        0.0
    };
    let mut scores: HashMap<usize, f64> = HashMap::new();
    for hit in index.query_hits(&words) {
        let score = bm25_score(num_docs, avg_doc_len, hit.tf, hit.doc_len, hit.doc_freq);
        *scores.entry(hit.doc).or_insert(0.0) += score;
    }
    let mut sorted: Vec<(usize, f64)> = scores.into_iter().collect();
    sorted.sort_by(|a, b| b.1.partial_cmp(&a.1).unwrap_or(std::cmp::Ordering::Equal));
    let ranked: Vec<usize> = sorted.into_iter().map(|(idx, _)| idx).collect();
    let mut expected = index.candidate_docs(&words);
    let mut got = ranked.clone();
    expected.sort_unstable();
    got.sort_unstable();
    assert_eq!(got, expected, "the ranking must list each matching skill once");
    index.retrieve_ranked(query, &ranked, top_k)
}

fn meta(name: &str, description: &str, keywords: &[&str], path: &str) -> SkillMeta {
    SkillMeta {
        name: name.to_string(),
        description: description.to_string(),
        keywords: keywords.iter().map(|k| k.to_string()).collect(),
        path: PathBuf::from(path),
    }
}

#[test]
fn test_bm25_keyword_match() {
    let skills = vec![
        SkillMeta {
            name: "github-pr-workflow".to_string(),
            description: "Automated PR creation and review workflow".to_string(),
            keywords: vec!["git".to_string(), "github".to_string(), "pr".to_string()],
            path: PathBuf::from("/skills/github-pr-workflow"),
        },
        SkillMeta {
            name: "docker-deployment".to_string(),
            description: "Deploy applications using Docker containers".to_string(),
            keywords: vec!["docker".to_string(), "containers".to_string(), "deploy".to_string()],
            path: PathBuf::from("/skills/docker-deployment"),
        },
    ];

    let index = SkillIndex::new(skills);

    let results = retrieve(&index, "docker container deploy", 5);
    assert!(!results.is_empty());
    assert!(results.iter().any(|r| r.name == "docker-deployment"));
}

#[test]
fn test_bm25_idf_rare_term_ranks_higher() {
    let skills = vec![
        SkillMeta {
            name: "generic-deploy".to_string(),
            description: "Deploy applications".to_string(),
            keywords: vec!["deploy".to_string()],
            path: PathBuf::from("/skills/generic-deploy"),
        },
        SkillMeta {
            name: "k8s-deploy".to_string(),
            description: "Deploy on Kubernetes clusters".to_string(),
            keywords: vec!["kubernetes".to_string(), "deploy".to_string()],
            path: PathBuf::from("/skills/k8s-deploy"),
        },
        SkillMeta {
            name: "docker-deploy".to_string(),
            description: "Deploy with Docker".to_string(),
            keywords: vec!["docker".to_string(), "deploy".to_string()],
            path: PathBuf::from("/skills/docker-deploy"),
        },
    ];

    let index = SkillIndex::new(skills);

    let results = retrieve(&index, "kubernetes deploy", 3);
    assert_eq!(results[0].name, "k8s-deploy", "rare term should boost rank");
}

#[test]
fn test_bm25_multiple_terms_boost() {
    let skills = vec![
        SkillMeta {
            name: "git-workflow".to_string(),
            description: "Basic Git version control".to_string(),
            keywords: vec!["git".to_string()],
            path: PathBuf::from("/skills/git-workflow"),
        },
        SkillMeta {
            name: "github-actions".to_string(),
            description: "GitHub Actions CI/CD pipelines".to_string(),
            keywords: vec!["git".to_string(), "github".to_string(), "ci".to_string()],
            path: PathBuf::from("/skills/github-actions"),
        },
    ];

    let index = SkillIndex::new(skills);

    let results = retrieve(&index, "github ci", 5);
    assert_eq!(results.len(), 1);
    assert_eq!(results[0].name, "github-actions");
}

#[test]
fn test_bm25_empty_query_returns_first_n() {
    let skills = vec![
        SkillMeta {
            name: "skill-a".to_string(),
            description: "First skill".to_string(),
            keywords: vec![],
            path: PathBuf::from("/skills/a"),
        },
        SkillMeta {
            name: "skill-b".to_string(),
            description: "Second skill".to_string(),
            keywords: vec![],
            path: PathBuf::from("/skills/b"),
        },
    ];

    let index = SkillIndex::new(skills);
    let results = retrieve(&index, "", 1);
    assert_eq!(results.len(), 1);
    assert_eq!(results[0].name, "skill-a");
}

#[test]
fn test_bm25_no_match_returns_empty() {
    let skills = vec![SkillMeta {
        name: "rust-linting".to_string(),
        description: "Rust code linting with Clippy".to_string(),
        keywords: vec!["rust".to_string()],
        path: PathBuf::from("/skills/rust-linting"),
    }];

    let index = SkillIndex::new(skills);
    let results = retrieve(&index, "quantum physics", 5);
    assert!(results.is_empty());
}

#[test]
fn test_generate_skill_index_prompt_format() {
    let skills = vec![
        SkillMeta {
            name: "docker-deploy".to_string(),
            description: "Deploy with Docker containers".to_string(),
            keywords: vec!["docker".to_string()],
            path: PathBuf::from("/skills/docker-deploy"),
        },
        SkillMeta {
            name: "git-workflow".to_string(),
            description: "Git version control workflow".to_string(),
            keywords: vec!["git".to_string()],
            path: PathBuf::from("/skills/git-workflow"),
        },
    ];

    let index = SkillIndex::new(skills);
    let summaries = retrieve(&index, "docker", 5);
    let prompt = build_skill_section(&summaries);

    assert!(prompt.starts_with("## Available Skills"), "prompt must start with header");
    assert!(prompt.contains("- docker-deploy: Deploy with Docker containers"));
    assert!(!prompt.contains("git-workflow"), "only matched skills should appear in prompt");
    assert!(prompt.contains("skill_view"), "prompt must explain how to load skill");
}

#[test]
fn test_generate_skill_index_prompt_top_k_respected() {
    let skills = vec![
        SkillMeta {
            name: "skill-a".to_string(),
            description: "Alpha test skill".to_string(),
            keywords: vec!["test".to_string()],
            path: PathBuf::from("/skills/a"),
        },
        SkillMeta {
            name: "skill-b".to_string(),
            description: "Bravo test skill".to_string(),
            keywords: vec!["test".to_string()],
            path: PathBuf::from("/skills/b"),
        },
        SkillMeta {
            name: "skill-c".to_string(),
            description: "Charlie test skill".to_string(),
            keywords: vec!["test".to_string()],
            path: PathBuf::from("/skills/c"),
        },
    ];

    let index = SkillIndex::new(skills);
    let summaries = retrieve(&index, "test", 2);
    assert_eq!(summaries.len(), 2, "top_k=2 should return exactly 2 results");

    let prompt = build_skill_section(&summaries);
    let line_count = prompt.lines().filter(|l| l.starts_with("- ")).count();
    assert_eq!(line_count, 2, "prompt must contain exactly 2 bullet lines");
}

#[test]
fn retrieve_zero_top_k_returns_nothing() {
    let index = SkillIndex::new(vec![meta("alpha", "Alpha tool", &["alpha"], "/a")]);
    assert!(retrieve(&index, "alpha", 0).is_empty());
    assert!(retrieve(&index, "", 0).is_empty());
}

#[test]
fn candidate_docs_lists_each_matching_skill_once() {
    let index = SkillIndex::new(vec![
        meta("docker-deploy", "Deploy with Docker", &["docker"], "/a"),
        meta("rust", "Rust linting", &[], "/b"),
        meta("k8s", "Kubernetes deploy", &[], "/c"),
    ]);
    let words = tokenize("deploy docker kubernetes deploy");
    assert_eq!(index.candidate_docs(&words), vec![0, 2]);
    assert!(index.candidate_docs(&tokenize("quantum")).is_empty());
}

#[test]
fn retrieve_ranked_follows_the_ranking_up_to_top_k() {
    let index = SkillIndex::new(vec![
        meta("alpha", "Alpha deploy", &[], "/a"),
        meta("beta", "Beta deploy", &[], "/b"),
        meta("gamma", "Gamma", &[], "/c"),
    ]);
    let names: Vec<String> =
        index.retrieve_ranked("deploy", &[1, 0], 5).into_iter().map(|s| s.name).collect();
    assert_eq!(names, vec!["beta".to_string(), "alpha".to_string()]);
    assert_eq!(index.retrieve_ranked("deploy", &[1, 0], 1).len(), 1);
    let firsts: Vec<String> = index.retrieve_ranked("", &[], 2).into_iter().map(|s| s.name).collect();
    assert_eq!(firsts, vec!["alpha".to_string(), "beta".to_string()]);
}
