//! Skill discovery and retrieval: tokenising skill metadata, building an
//! inverted index over it, reading `SKILL.md` front matter, and rendering the
//! prompt section that lists available skills.

mod text;
mod tokenize;

pub use tokenize::tokenize;
mod skill;

pub use skill::{SkillMeta, SkillSummary, build_skill_section};
mod index;

pub use index::{SkillIndex, TermHit};
mod metadata;

pub use metadata::{extract_description, extract_keywords, extract_skill_metadata, parse_frontmatter};
mod discovery;

pub use discovery::{discover_all_skills, GlobalSkillIndex, MonitoredRoot};
mod cache;

pub use cache::{get_skill_for_tool, SkillContentCache, SkillLoadAction, SkillLoadEvent};
mod roots;

pub use roots::{skill_root_candidates, PathPart, RootBase, RootCandidate};
