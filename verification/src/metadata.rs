//! Reading a skill's `SKILL.md`: the front matter, a one-line description,
//! and the well-known keywords the text mentions.

use vstd::prelude::*;
use std::path::PathBuf;
use crate::skill::SkillMeta;
use crate::text::{
    chars_of, contains_chars, contains_seq, find_chars, find_from, has_prefix, lines_chars,
    lines_of, lowercase_of, skip_chars, starts_with, string_of, take_chars, to_lowercase,
    trim, trim_chars,
};

verus! {

/// The `---` that opens and closes front matter.
pub open spec fn dashes() -> Seq<char> {
    seq!['-', '-', '-']
}

/// The text between the opening `---` (which must start the content) and
/// the next `---`.
pub open spec fn frontmatter(c: Seq<char>) -> Option<Seq<char>> {
    if has_prefix(c, dashes()) {
        match find_from(c.skip(3), dashes(), 0) {
            Some(e) => Some(c.skip(3).take(e)),
            None => None,
        }
    } else {
        None
    }
}

/// What follows the front matter's closing `---`; the whole content when
/// there is no front matter.
pub open spec fn body_after_frontmatter(c: Seq<char>) -> Seq<char> {
    if has_prefix(c, dashes()) {
        match find_from(c.skip(3), dashes(), 0) {
            Some(e) => c.skip(e + 6),
            None => c,
        }
    } else {
        c
    }
}

/// A description kept to at most 100 characters: longer ones are cut to
/// their first 97 characters followed by `...`.
pub open spec fn clip_description(d: Seq<char>) -> Seq<char> {
    if d.len() <= 100 {
        d
    } else {
        d.take(97) + seq!['.', '.', '.']
    }
}

/// The text after a `description:` or `description :` key at the start of a
/// line.
pub open spec fn description_value(line: Seq<char>) -> Option<Seq<char>> {
    if has_prefix(line, "description:"@) {
        Some(line.skip("description:"@.len() as int))
    } else if has_prefix(line, "description :"@) {
        Some(line.skip("description :"@.len() as int))
    } else {
        None
    }
}

/// The first non-empty `description` value among `lines[i..]`, clipped.
pub open spec fn first_description_from(lines: Seq<Seq<char>>, i: int) -> Option<Seq<char>>
    decreases lines.len() - i,
{
    if i < 0 || i >= lines.len() {
        None
    } else {
        match description_value(lines[i]) {
            Some(v) => if trim(v).len() > 0 {
                Some(clip_description(trim(v)))
            } else {
                first_description_from(lines, i + 1)
            },
            None => first_description_from(lines, i + 1),
        }
    }
}

/// The first line among `lines[i..]` that is neither blank nor a `#`
/// heading, trimmed and clipped.
pub open spec fn first_meaningful_from(lines: Seq<Seq<char>>, i: int) -> Option<Seq<char>>
    decreases lines.len() - i,
{
    if i < 0 || i >= lines.len() {
        None
    } else if trim(lines[i]).len() > 0 && trim(lines[i])[0] != '#' {
        Some(clip_description(trim(lines[i])))
    } else {
        first_meaningful_from(lines, i + 1)
    }
}

/// The description of a skill file: the front matter's `description` value
/// if it has a non-empty one, else the first line after the front matter
/// that is neither blank nor a heading, else nothing.
pub open spec fn description_of(c: Seq<char>) -> Seq<char> {
    let from_front = match frontmatter(c) {
        Some(fm) => first_description_from(lines_of(fm), 0),
        None => None,
    };
    match from_front {
        Some(d) => d,
        None => match first_meaningful_from(lines_of(body_after_frontmatter(c)), 0) {
            Some(d) => d,
            None => Seq::empty(),
        },
    }
}

/// The keywords that a skill is tagged with when its text mentions them.
pub open spec fn important_keywords() -> Seq<Seq<char>> {
    seq![
        "api"@, "config"@, "setup"@, "install"@, "deploy"@, "test"@, "build"@, "debug"@,
        "git"@, "docker"@, "kubernetes"@, "aws"@, "cloud"@, "linux"@, "windows"@, "shell"@,
        "script"@, "automation"@, "ci"@, "cd"@, "monitoring"@, "logging"@, "security"@,
        "database"@, "sql"@, "redis"@, "cache"@,
    ]
}

/// The important keywords that occur in the lowercase form of the text, in
/// the order of the keyword list.
pub open spec fn keywords_of(c: Seq<char>) -> Seq<Seq<char>> {
    important_keywords().filter(|k: Seq<char>| contains_seq(lowercase_of(c), k))
}

proof fn lemma_first_description_clipped(lines: Seq<Seq<char>>, i: int)
    ensures
        first_description_from(lines, i) matches Some(d) ==> d.len() <= 100,
    decreases lines.len() - i,
{
    if 0 <= i < lines.len() {
        lemma_first_description_clipped(lines, i + 1);
    }
}

proof fn lemma_first_meaningful_clipped(lines: Seq<Seq<char>>, i: int)
    ensures
        first_meaningful_from(lines, i) matches Some(d) ==> d.len() <= 100,
    decreases lines.len() - i,
{
    if 0 <= i < lines.len() {
        lemma_first_meaningful_clipped(lines, i + 1);
    }
}

proof fn lemma_first_meaningful_skip(lines: Seq<Seq<char>>, j: int, i: int)
    requires
        0 <= j <= i < lines.len(),
        forall|k: int| 0 <= k < i ==> trim(#[trigger] lines[k]).len() == 0 || trim(lines[k])[0] == '#',
    ensures
        first_meaningful_from(lines, j) == first_meaningful_from(lines, i),
    decreases i - j,
{
    if j < i {
        lemma_first_meaningful_skip(lines, j + 1, i);
        assert(trim(lines[j]).len() == 0 || trim(lines[j])[0] == '#');
    }
}

/// The fallback description is taken from the first line that, trimmed, is
/// not empty and does not start with `#` (whatever else it starts with),
/// cut to 100 characters; when every line is blank or a heading there is
/// none.
pub proof fn lemma_first_meaningful_line(lines: Seq<Seq<char>>, i: int)
    requires
        0 <= i <= lines.len(),
        forall|k: int| 0 <= k < i ==> trim(#[trigger] lines[k]).len() == 0 || trim(lines[k])[0] == '#',
    ensures
        i < lines.len() && trim(lines[i]).len() > 0 && trim(lines[i])[0] != '#' ==> first_meaningful_from(lines, 0)
            == Some(clip_description(trim(lines[i]))),
        i == lines.len() ==> first_meaningful_from(lines, 0) is None,
{
    if i < lines.len() {
        lemma_first_meaningful_skip(lines, 0, i);
    } else if i > 0 {
        lemma_first_meaningful_skip(lines, 0, i - 1);
        assert(trim(lines[i - 1]).len() == 0 || trim(lines[i - 1])[0] == '#');
        assert(first_meaningful_from(lines, i) is None);
        assert(first_meaningful_from(lines, i - 1) == first_meaningful_from(lines, i));
    }
}

/// Without front matter, a skill's description is its first line that,
/// trimmed, is neither empty nor a `#` heading, cut to 100 characters.
pub proof fn lemma_description_without_frontmatter(c: Seq<char>, i: int)
    requires
        !has_prefix(c, dashes()),
        0 <= i < lines_of(c).len(),
        trim(lines_of(c)[i]).len() > 0,
        trim(lines_of(c)[i])[0] != '#',
        forall|k: int| 0 <= k < i ==> trim(#[trigger] lines_of(c)[k]).len() == 0 || trim(lines_of(c)[k])[0] == '#',
    ensures
        description_of(c) == clip_description(trim(lines_of(c)[i])),
{
    lemma_first_meaningful_line(lines_of(c), i);
}

/// Cutting keeps a description of at most 100 characters as it is, and
/// cuts a longer one to its first 97 characters followed by `...`.
pub proof fn lemma_clip_description(d: Seq<char>)
    ensures
        d.len() <= 100 ==> clip_description(d) == d,
        d.len() > 100 ==> clip_description(d).len() == 100 && clip_description(d).take(97) == d.take(97)
            && clip_description(d).skip(97) == seq!['.', '.', '.'],
{
    if d.len() > 100 {
        let r = clip_description(d);
        assert(r.take(97) =~= d.take(97));
        assert(r.skip(97) =~= seq!['.', '.', '.']);
    }
}

/// A skill's description is never longer than 100 characters.
pub proof fn lemma_description_at_most_100(c: Seq<char>)
    ensures
        description_of(c).len() <= 100,
{
    match frontmatter(c) {
        Some(fm) => lemma_first_description_clipped(lines_of(fm), 0),
        None => {},
    }
    lemma_first_meaningful_clipped(lines_of(body_after_frontmatter(c)), 0);
}

/// A skill's keywords are distinct entries of the important-keyword list,
/// in list order, each occurring in the lowercase form of the text; and
/// every listed keyword that occurs there is among them.
pub proof fn lemma_keywords_mentioned(c: Seq<char>)
    ensures
        forall|i: int|
            0 <= i < keywords_of(c).len() ==> important_keywords().contains(#[trigger] keywords_of(c)[i])
                && contains_seq(lowercase_of(c), keywords_of(c)[i]),
        forall|k: int|
            0 <= k < important_keywords().len() && contains_seq(lowercase_of(c), #[trigger] important_keywords()[k])
                ==> keywords_of(c).contains(important_keywords()[k]),
{
    broadcast use vstd::seq_lib::group_filter_ensures;
    let p = |k: Seq<char>| contains_seq(lowercase_of(c), k);
    assert forall|i: int| 0 <= i < keywords_of(c).len() implies important_keywords().contains(
        #[trigger] keywords_of(c)[i],
    ) && contains_seq(lowercase_of(c), keywords_of(c)[i]) by {
        assert(important_keywords().filter(p).contains(keywords_of(c)[i]));
        important_keywords().lemma_filter_contains_rev(p, keywords_of(c)[i]);
    }
}

/// The front matter of a skill file: the text between a leading `---` and
/// the next `---`.
pub fn parse_frontmatter(content: &str) -> (r: Option<String>)
    ensures
        r matches Some(s) ==> frontmatter(content@) == Some(s@),
        r is None ==> frontmatter(content@) is None,
{
    let c = chars_of(content);
    let d = vec!['-', '-', '-'];
    assert(d@ =~= dashes());
    if !starts_with(&c, &d) {
        return None;
    }
    let rest = skip_chars(&c, 3);
    match find_chars(&rest, &d, 0) {
        Some(e) => {
            proof {
                crate::text::lemma_find_from(rest@, d@, 0);
            }
            Some(string_of(&rest, 0, e))
        },
        None => None,
    }
}

/// `d` cut to at most 100 characters, as `clip_description` says.
fn clip_chars(d: &Vec<char>) -> (r: String)
    ensures
        r@ == clip_description(d@),
{
    if d.len() <= 100 {
        assert(d@.subrange(0, d@.len() as int) =~= d@);
        string_of(d, 0, d.len())
    } else {
        let mut r = string_of(d, 0, 97);
        crate::text::push_char(&mut r, '.');
        crate::text::push_char(&mut r, '.');
        crate::text::push_char(&mut r, '.');
        assert(r@ =~= clip_description(d@));
        r
    }
}

/// The `description` value of a line, as `description_value` gives it.
fn description_value_chars(line: &Vec<char>, k1: &Vec<char>, k2: &Vec<char>) -> (r: Option<Vec<char>>)
    requires
        k1@ == "description:"@,
        k2@ == "description :"@,
    ensures
        r matches Some(v) ==> description_value(line@) == Some(v@),
        r is None ==> description_value(line@) is None,
{
    if starts_with(line, k1) {
        Some(skip_chars(line, k1.len()))
    } else if starts_with(line, k2) {
        Some(skip_chars(line, k2.len()))
    } else {
        None
    }
}

/// The first non-empty `description` value among the lines, clipped.
fn first_description(ls: &Vec<Vec<char>>) -> (r: Option<String>)
    ensures
        r matches Some(s) ==> first_description_from(ls.deep_view(), 0) == Some(s@),
        r is None ==> first_description_from(ls.deep_view(), 0) is None,
{
    let ghost lv = ls.deep_view();
    let k1 = chars_of("description:");
    let k2 = chars_of("description :");
    let mut i: usize = 0;
    while i < ls.len()
        invariant
            0 <= i <= ls.len(),
            lv == ls.deep_view(),
            k1@ == "description:"@,
            k2@ == "description :"@,
            first_description_from(lv, 0) == first_description_from(lv, i as int),
        decreases ls.len() - i,
    {
        assert(lv[i as int] == ls[i as int]@);
        match description_value_chars(&ls[i], &k1, &k2) {
            Some(v) => {
                let t = trim_chars(&v);
                if t.len() > 0 {
                    return Some(clip_chars(&t));
                }
            },
            None => {},
        }
        i = i + 1;
    }
    None
}

/// The first line that is neither blank nor a heading, trimmed and clipped.
fn first_meaningful(ls: &Vec<Vec<char>>) -> (r: Option<String>)
    ensures
        r matches Some(s) ==> first_meaningful_from(ls.deep_view(), 0) == Some(s@),
        r is None ==> first_meaningful_from(ls.deep_view(), 0) is None,
{
    let ghost lv = ls.deep_view();
    let mut i: usize = 0;
    while i < ls.len()
        invariant
            0 <= i <= ls.len(),
            lv == ls.deep_view(),
            first_meaningful_from(lv, 0) == first_meaningful_from(lv, i as int),
        decreases ls.len() - i,
    {
        assert(lv[i as int] == ls[i as int]@);
        let t = trim_chars(&ls[i]);
        if t.len() > 0 && t[0] != '#' {
            return Some(clip_chars(&t));
        }
        i = i + 1;
    }
    None
}

/// A one-line description of a skill file: the non-empty `description`
/// value of its front matter, else its first line after the front matter
/// that is neither blank nor a `#` heading, else the empty string; at most
/// 100 characters either way.
pub fn extract_description(content: &str) -> (r: String)
    ensures
        r@ == description_of(content@),
{
    let c = chars_of(content);
    let d = vec!['-', '-', '-'];
    assert(d@ =~= dashes());
    let opened = starts_with(&c, &d);
    let mut close: Option<usize> = None;
    if opened {
        let rest = skip_chars(&c, 3);
        close = find_chars(&rest, &d, 0);
        assert(rest@ == c@.skip(3));
        match close {
            Some(e) => {
                proof {
                    crate::text::lemma_find_from(rest@, d@, 0);
                }
                let fm = take_chars(&rest, e);
                let ls = lines_chars(&fm);
                match first_description(&ls) {
                    Some(s) => {
                        return s;
                    },
                    None => {},
                }
            },
            None => {},
        }
    }
    assert(close matches Some(e) ==> opened && find_from(c@.skip(3), d@, 0) == Some(e as int));
    assert(close is None ==> !opened || find_from(c@.skip(3), d@, 0) is None);
    let body = match close {
        Some(e) => {
            proof {
                crate::text::lemma_find_from(c@.skip(3), d@, 0);
            }
            skip_chars(&c, e + 6)
        },
        None => c,
    };
    assert(body@ == body_after_frontmatter(content@));
    let ls = lines_chars(&body);
    match first_meaningful(&ls) {
        Some(s) => s,
        None => String::new(),
    }
}

/// The important keywords that the text mentions, in list order, matched
/// against the text's lowercase form.
pub fn extract_keywords(content: &str) -> (r: Vec<String>)
    ensures
        r.deep_view() == keywords_of(content@),
{
    let lower_s = to_lowercase(content);
    let lower = chars_of(lower_s.as_str());
    let important: Vec<&str> = vec![
        "api", "config", "setup", "install", "deploy", "test", "build", "debug",
        "git", "docker", "kubernetes", "aws", "cloud", "linux", "windows", "shell",
        "script", "automation", "ci", "cd", "monitoring", "logging", "security",
        "database", "sql", "redis", "cache",
    ];
    let ghost kv = important@.map_values(|s: &str| s@);
    assert(kv =~= important_keywords());
    let ghost p = |k: Seq<char>| contains_seq(lowercase_of(content@), k);
    let mut out: Vec<String> = Vec::new();
    let mut i: usize = 0;
    proof {
        assert(kv.take(0) =~= Seq::<Seq<char>>::empty());
        reveal_with_fuel(Seq::filter, 1);
    }
    while i < important.len()
        invariant
            0 <= i <= important.len(),
            kv == important@.map_values(|s: &str| s@),
            lower@ == lowercase_of(content@),
            p == (|k: Seq<char>| contains_seq(lowercase_of(content@), k)),
            out.deep_view() == kv.take(i as int).filter(p),
        decreases important.len() - i,
    {
        let kw = important[i];
        let kc = chars_of(kw);
        let ghost before = out.deep_view();
        proof {
            reveal_with_fuel(Seq::filter, 1);
            assert(kv.take(i + 1).drop_last() =~= kv.take(i as int));
            assert(kv.take(i + 1).last() == kw@);
        }
        if contains_chars(&lower, &kc) {
            let owned = kw.to_owned();
            out.push(owned);
            assert(out.deep_view() =~= before.push(kw@));
        }
        i = i + 1;
    }
    assert(kv.take(important.len() as int) =~= kv);
    out
}

/// The record of the skill in directory `path`, named `name`, whose
/// `SKILL.md` holds `content` (empty when the skill has no such file).
pub fn extract_skill_metadata(name: &str, content: &str, path: PathBuf) -> (m: SkillMeta)
    ensures
        m.name@ == name@,
        m.description@ == description_of(content@),
        m.keywords.deep_view() == keywords_of(content@),
        m.path == path,
{
    let description = extract_description(content);
    let keywords = extract_keywords(content);
    SkillMeta { name: name.to_owned(), description, keywords, path }
}

} // verus!
