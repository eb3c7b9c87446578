use skill_index::PathPart::{Agents, Assistant, Claw, Codex, Commands, Config, Omc, OmcLearned, Opencode, Skills};
use skill_index::{skill_root_candidates, PathPart, RootBase};

#[test]
fn candidate_roots_follow_project_then_home_then_config() {
    let cands = skill_root_candidates(2, true, 2);
    let got: Vec<(RootBase, Vec<PathPart>)> = cands.into_iter().map(|c| (c.base, c.parts)).collect();
    let mut expected: Vec<(RootBase, Vec<PathPart>)> = Vec::new();
    for a in 0..2 {
        for d in [Omc, Agents, Claw, Codex, Assistant] {
            expected.push((RootBase::Ancestor(a), vec![d, Skills]));
            expected.push((RootBase::Ancestor(a), vec![d, Commands]));
        }
    }
    for d in [Omc, Claw, Codex, Assistant] {
        expected.push((RootBase::Home, vec![d, Skills]));
        expected.push((RootBase::Home, vec![d, Commands]));
    }
    expected.push((RootBase::Home, vec![Agents, Skills]));
    expected.push((RootBase::Home, vec![Config, Opencode, Skills]));
    expected.push((RootBase::Home, vec![Assistant, Skills, OmcLearned]));
    expected.push((RootBase::ConfigHome(0), vec![Skills]));
    expected.push((RootBase::ConfigHome(1), vec![Skills]));
    assert_eq!(got, expected);
}

#[test]
fn candidate_roots_without_home_or_config() {
    let cands = skill_root_candidates(1, false, 0);
    assert_eq!(cands.len(), 10);
    assert!(cands.iter().all(|c| c.base == RootBase::Ancestor(0)));
    assert!(skill_root_candidates(0, false, 0).is_empty());
}
