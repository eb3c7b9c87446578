//! Skill records, their summaries, and the prompt section that lists them.

use vstd::prelude::*;
use std::path::PathBuf;
use crate::tokenize::tokens;
use crate::text::{has_prefix, occurs_at, contains_seq};

verus! {

#[verifier::external_type_specification]
#[verifier::external_body]
pub struct ExPathBuf(std::path::PathBuf);

/// `PathBuf::clone` copies the path: the copy is the same value.
pub assume_specification[ <std::path::PathBuf as Clone>::clone ](p: &PathBuf) -> (r: PathBuf)
    ensures
        r == *p,
;

/// A discovered skill: its directory name, a one-line description, the
/// keywords found in its `SKILL.md`, and the directory that holds it.
pub struct SkillMeta {
    pub name: String,
    pub description: String,
    pub keywords: Vec<String>,
    pub path: PathBuf,
}

/// What a retrieval hands back for one skill.
#[derive(Debug, Clone)]
pub struct SkillSummary {
    pub name: String,
    pub description: String,
    pub keywords: Vec<String>,
}

/// The terms of a list of keywords, keyword after keyword.
pub open spec fn keyword_tokens(kws: Seq<Seq<char>>) -> Seq<Seq<char>>
    decreases kws.len(),
{
    if kws.len() == 0 {
        Seq::empty()
    } else {
        keyword_tokens(kws.drop_last()) + tokens(kws.last())
    }
}

/// The terms under which a skill is indexed: those of its name, then of its
/// description, then of each keyword.
pub open spec fn doc_tokens(m: SkillMeta) -> Seq<Seq<char>> {
    tokens(m.name@) + tokens(m.description@) + keyword_tokens(m.keywords.deep_view())
}

/// `s` carries the name, description and keywords of `m`.
pub open spec fn summarizes(s: SkillSummary, m: SkillMeta) -> bool {
    &&& s.name@ == m.name@
    &&& s.description@ == m.description@
    &&& s.keywords.deep_view() == m.keywords.deep_view()
}

/// `- name: description`
pub open spec fn index_line(name: Seq<char>, description: Seq<char>) -> Seq<char> {
    seq!['-', ' '] + name + seq![':', ' '] + description
}

/// The lines joined with `sep` between each two of them.
pub open spec fn join(lines: Seq<Seq<char>>, sep: Seq<char>) -> Seq<char>
    decreases lines.len(),
{
    if lines.len() == 0 {
        Seq::empty()
    } else if lines.len() == 1 {
        lines[0]
    } else {
        join(lines.drop_last(), sep) + sep + lines.last()
    }
}

pub open spec fn section_header() -> Seq<char> {
    "## Available Skills\n"@
}

pub open spec fn section_footer() -> Seq<char> {
    "\n\nUse skill_view(name=\"skill-name\") to load a skill's full content when needed.\n"@
}

/// The index lines of the summaries, in order.
pub open spec fn index_lines(skills: Seq<SkillSummary>) -> Seq<Seq<char>> {
    skills.map_values(|s: SkillSummary| index_line(s.name@, s.description@))
}

/// The prompt section for a list of summaries: nothing for no summaries,
/// else the header, one index line per summary, and the usage note.
pub open spec fn skill_section(skills: Seq<SkillSummary>) -> Seq<char> {
    if skills.len() == 0 {
        Seq::empty()
    } else {
        section_header() + join(index_lines(skills), seq!['\n']) + section_footer()
    }
}

/// Each line occurs in the joined text.
pub proof fn lemma_join_contains(lines: Seq<Seq<char>>, sep: Seq<char>, i: int)
    requires
        0 <= i < lines.len(),
    ensures
        exists|off: int| occurs_at(join(lines, sep), lines[i], off),
    decreases lines.len(),
{
    let j = join(lines, sep);
    if lines.len() == 1 {
        assert(j.subrange(0, lines[0].len() as int) =~= lines[0]);
        assert(occurs_at(j, lines[i], 0));
    } else {
        let pj = join(lines.drop_last(), sep);
        assert(j == pj + sep + lines.last());
        if i == lines.len() - 1 {
            let off: int = (pj.len() + sep.len()) as int;
            assert(j.subrange(off, off + lines[i].len()) =~= lines[i]);
            assert(occurs_at(j, lines[i], off));
        } else {
            lemma_join_contains(lines.drop_last(), sep, i);
            assert(lines.drop_last()[i] == lines[i]);
            let off = choose|off: int| occurs_at(pj, lines[i], off);
            assert(j.subrange(off, off + lines[i].len()) =~= pj.subrange(off, off + lines[i].len()));
            assert(occurs_at(j, lines[i], off));
        }
    }
}

/// The prompt section is empty exactly when there are no skills; otherwise
/// it starts with the `## Available Skills` header, and holds the
/// `- name: description` line of every skill.
pub proof fn lemma_skill_section_shape(skills: Seq<SkillSummary>)
    ensures
        skill_section(skills).len() == 0 <==> skills.len() == 0,
        skills.len() > 0 ==> has_prefix(skill_section(skills), section_header()),
        forall|i: int|
            0 <= i < skills.len() ==> contains_seq(
                skill_section(skills),
                index_line((#[trigger] skills[i]).name@, skills[i].description@),
            ),
{
    reveal_strlit("## Available Skills\n");
    if skills.len() > 0 {
        let sec = skill_section(skills);
        let h = section_header();
        let lines = index_lines(skills);
        let body = join(lines, seq!['\n']);
        assert(sec == h + body + section_footer());
        assert(sec.take(h.len() as int) =~= h);
        assert forall|i: int|
            0 <= i < skills.len() implies contains_seq(
                sec,
                index_line((#[trigger] skills[i]).name@, skills[i].description@),
            ) by {
            lemma_join_contains(lines, seq!['\n'], i);
            let l = lines[i];
            let off = choose|off: int| occurs_at(body, l, off);
            let o2: int = h.len() + off;
            assert(sec.subrange(o2, o2 + l.len()) =~= body.subrange(off, off + l.len()));
            assert(occurs_at(sec, l, o2));
        }
    }
}

/// For every non-empty list of summaries, however long, the section opens
/// with the `## Available Skills` header, holds a `- name: description` line
/// for each summary, and closes with the note on loading a skill.
pub proof fn lemma_skill_section_frame(skills: Seq<SkillSummary>)
    requires
        skills.len() > 0,
    ensures
        has_prefix(skill_section(skills), "## Available Skills\n"@),
        ({
            let note = "\n\nUse skill_view(name=\"skill-name\") to load a skill's full content when needed.\n"@;
            &&& skill_section(skills).len() >= note.len()
            &&& skill_section(skills).skip(skill_section(skills).len() - note.len()) == note
        }),
        forall|i: int|
            0 <= i < skills.len() ==> contains_seq(
                skill_section(skills),
                seq!['-', ' '] + (#[trigger] skills[i]).name@ + seq![':', ' '] + skills[i].description@,
            ),
{
    lemma_skill_section_shape(skills);
    let sec = skill_section(skills);
    let h = section_header();
    let body = join(index_lines(skills), seq!['\n']);
    let f = section_footer();
    assert(sec == h + body + f);
    assert(sec.skip(sec.len() - f.len()) =~= f);
}

/// Copies a summary's fields out of a skill record.
pub fn summary_of(m: &SkillMeta) -> (s: SkillSummary)
    ensures
        summarizes(s, *m),
{
    let keywords = m.keywords.clone();
    proof {
        assert(keywords.deep_view() =~= m.keywords.deep_view()) by {
            assert forall|i: int| 0 <= i < keywords.len() implies keywords[i]@ == m.keywords[i]@ by {
                assert(cloned::<String>(m.keywords[i], keywords[i]));
            }
        }
    }
    SkillSummary { name: m.name.clone(), description: m.description.clone(), keywords }
}

impl SkillSummary {
    /// The line that lists this skill in the prompt: `- name: description`.
    pub fn to_index_line(&self) -> (r: String)
        ensures
            r@ == index_line(self.name@, self.description@),
    {
        let mut r = String::new();
        crate::text::push_char(&mut r, '-');
        crate::text::push_char(&mut r, ' ');
        r.append(self.name.as_str());
        crate::text::push_char(&mut r, ':');
        crate::text::push_char(&mut r, ' ');
        r.append(self.description.as_str());
        assert(r@ =~= index_line(self.name@, self.description@));
        r
    }
}

/// The markdown section that lists the skills, one `- name: description`
/// line each, under a header and above a note on how to load a skill; the
/// empty string when there are no skills.
pub fn build_skill_section(skills: &[SkillSummary]) -> (r: String)
    ensures
        r@ == skill_section(skills@),
{
    if skills.len() == 0 {
        return String::new();
    }
    let ghost lines = index_lines(skills@);
    let mut r = String::new();
    r.append("## Available Skills\n");
    let ghost head = r@;
    let mut i: usize = 0;
    while i < skills.len()
        invariant
            0 <= i <= skills.len(),
            skills.len() > 0,
            lines == index_lines(skills@),
            head == section_header(),
            r@ == head + join(lines.take(i as int), seq!['\n']),
        decreases skills.len() - i,
    {
        if i > 0 {
            crate::text::push_char(&mut r, '\n');
        }
        let line = skills[i].to_index_line();
        r.append(line.as_str());
        proof {
            let pre = lines.take(i + 1);
            assert(pre.drop_last() =~= lines.take(i as int));
            assert(pre.last() == line@);
            if i == 0 {
                assert(pre.len() == 1);
            }
        }
        i = i + 1;
        assert(r@ =~= head + join(lines.take(i as int), seq!['\n']));
    }
    r.append("\n\nUse skill_view(name=\"skill-name\") to load a skill's full content when needed.\n");
    assert(lines.take(skills.len() as int) =~= lines);
    r
}

} // verus!
