use std::path::PathBuf;

use skill_index::{
    discover_all_skills, get_skill_for_tool, GlobalSkillIndex, MonitoredRoot, SkillContentCache,
    SkillLoadAction, SkillLoadEvent, SkillMeta,
};

fn meta(name: &str, path: &str) -> SkillMeta {
    SkillMeta {
        name: name.to_string(),
        description: String::new(),
        keywords: vec![],
        path: PathBuf::from(path),
    }
}

fn root(path: &str, mtime: i128) -> MonitoredRoot {
    MonitoredRoot { path: PathBuf::from(path), latest_mtime: mtime }
}

#[test]
fn first_root_wins_for_each_name() {
    let merged = discover_all_skills(vec![
        vec![meta("a", "/project/a"), meta("b", "/project/b")],
        vec![meta("b", "/home/b"), meta("c", "/home/c"), meta("c", "/home/c2")],
        vec![],
        vec![meta("a", "/config/a"), meta("d", "/config/d")],
    ]);
    let got: Vec<(String, PathBuf)> = merged.into_iter().map(|m| (m.name, m.path)).collect();
    assert_eq!(
        got,
        vec![
            ("a".to_string(), PathBuf::from("/project/a")),
            ("b".to_string(), PathBuf::from("/project/b")),
            ("c".to_string(), PathBuf::from("/home/c")),
            ("d".to_string(), PathBuf::from("/config/d")),
        ]
    );
    assert!(discover_all_skills(vec![]).is_empty());
}

#[test]
fn new_global_index_needs_a_build() {
    let g = GlobalSkillIndex::new();
    assert!(g.monitored_roots().is_empty());
    assert!(g.needs_refresh(&[]));
    assert_eq!(g.skill_count(), 0);
    assert_eq!(g.get_skill_path("x"), None);
    assert!(g.index().is_none());
}

#[test]
fn rebuilt_index_is_fresh_until_a_root_changes() {
    let mut g = GlobalSkillIndex::new();
    g.rebuild(
        vec![meta("a", "/r/a"), meta("b", "/r/b")],
        vec![root("/r", 100), root("/s", -5)],
    );
    assert_eq!(g.skill_count(), 2);
    assert_eq!(g.get_skill_path("b"), Some(PathBuf::from("/r/b")));
    assert!(!g.needs_refresh(&[Some(100), Some(-5)]));
    assert!(!g.needs_refresh(&[Some(50), Some(-10)]));
    assert!(g.needs_refresh(&[Some(101), Some(-5)]));
    assert!(g.needs_refresh(&[Some(100), None]));
    assert!(g.any_root_changed(&[Some(100), Some(-4)]));
    assert_eq!(g.index().map(|ix| ix.num_docs()), Some(2));
}

#[test]
fn skill_content_is_loaded_once_then_served_from_the_cache() {
    let mut cache = SkillContentCache::new();
    match get_skill_for_tool(&mut cache, "demo", SkillLoadEvent::Requested) {
        SkillLoadAction::ResolvePath => {}
        _ => panic!("an uncached skill must be resolved first"),
    }
    match get_skill_for_tool(&mut cache, "demo", SkillLoadEvent::PathResolved(Some(PathBuf::from("/s/demo")))) {
        SkillLoadAction::ReadSkillFile(p) => assert_eq!(p, PathBuf::from("/s/demo")),
        _ => panic!("a resolved skill must be read"),
    }
    match get_skill_for_tool(&mut cache, "demo", SkillLoadEvent::FileRead(Some("# Demo".to_string()))) {
        SkillLoadAction::Finished(Some(c)) => assert_eq!(c, "# Demo"),
        _ => panic!("read content must be handed back"),
    }
    assert_eq!(cache.get("demo"), Some("# Demo".to_string()));
    match get_skill_for_tool(&mut cache, "demo", SkillLoadEvent::Requested) {
        SkillLoadAction::Finished(Some(c)) => assert_eq!(c, "# Demo"),
        _ => panic!("a cached skill must be answered from the cache"),
    }
}

#[test]
fn unknown_or_unreadable_skills_have_no_content() {
    let mut cache = SkillContentCache::new();
    match get_skill_for_tool(&mut cache, "ghost", SkillLoadEvent::PathResolved(None)) {
        SkillLoadAction::Finished(None) => {}
        _ => panic!("an unindexed skill has no content"),
    }
    match get_skill_for_tool(&mut cache, "ghost", SkillLoadEvent::FileRead(None)) {
        SkillLoadAction::Finished(None) => {}
        _ => panic!("an unreadable skill has no content"),
    }
    assert_eq!(cache.get("ghost"), None);
}

#[test]
fn cache_insert_replaces_earlier_content() {
    let mut cache = SkillContentCache::new();
    cache.insert("a".to_string(), "one".to_string());
    cache.insert("b".to_string(), "two".to_string());
    cache.insert("a".to_string(), "three".to_string());
    assert_eq!(cache.get("a"), Some("three".to_string()));
    assert_eq!(cache.get("b"), Some("two".to_string()));
}
