//! The cache of loaded `SKILL.md` contents, and the steps of loading a
//! skill's content for a tool: look in the cache, resolve the skill's
//! directory, read its file, remember what was read.

use vstd::prelude::*;
use std::path::PathBuf;

verus! {

/// The contents of `SKILL.md` files loaded so far, by skill name.
pub struct SkillContentCache {
    entries: Vec<(String, String)>,
}

impl SkillContentCache {
    #[verifier::type_invariant]
    spec fn keys_distinct(&self) -> bool {
        forall|a: int, b: int|
            0 <= a < self.entries.len() && 0 <= b < self.entries.len() && a != b ==> (
            #[trigger] self.entries@[a]).0@ != (#[trigger] self.entries@[b]).0@
    }

    /// The cached contents, by skill name.
    pub closed spec fn cached(&self) -> Map<Seq<char>, Seq<char>> {
        Map::new(
            |k: Seq<char>| exists|i: int| 0 <= i < self.entries.len() && #[trigger] self.entries@[i].0@ == k,
            |k: Seq<char>|
                self.entries@[choose|i: int| 0 <= i < self.entries.len() && #[trigger] self.entries@[i].0@ == k].1@,
        )
    }

    /// An empty cache.
    pub fn new() -> (r: Self)
        ensures
            r.cached() == Map::<Seq<char>, Seq<char>>::empty(),
    {
        let r = SkillContentCache { entries: Vec::new() };
        assert(r.cached() =~= Map::<Seq<char>, Seq<char>>::empty());
        r
    }

    /// The position of the entry for `name`, if there is one.
    fn position(&self, name: &String) -> (r: Option<usize>)
        ensures
            r matches Some(i) ==> i < self.entries.len() && self.entries@[i as int].0@ == name@,
            r is None ==> forall|i: int| 0 <= i < self.entries.len() ==> self.entries@[i].0@ != name@,
    {
        let mut i: usize = 0;
        while i < self.entries.len()
            invariant
                0 <= i <= self.entries.len(),
                forall|j: int| 0 <= j < i ==> self.entries@[j].0@ != name@,
            decreases self.entries.len() - i,
        {
            if self.entries[i].0 == *name {
                return Some(i);
            }
            i = i + 1;
        }
        None
    }

    /// The cached content for `name`.
    pub fn get(&self, name: &str) -> (r: Option<String>)
        ensures
            r matches Some(c) ==> self.cached().contains_key(name@) && self.cached()[name@] == c@,
            r is None ==> !self.cached().contains_key(name@),
    {
        proof {
            use_type_invariant(self);
        }
        let key = name.to_owned();
        match self.position(&key) {
            Some(i) => {
                let c = self.entries[i].1.clone();
                proof {
                    assert(self.cached().contains_key(name@));
                    let j = choose|j: int| 0 <= j < self.entries.len() && #[trigger] self.entries@[j].0@ == name@;
                    assert(j == i);
                }
                Some(c)
            },
            None => None,
        }
    }

    /// Remembers `content` as the content of `name`, replacing what was
    /// cached for it.
    pub fn insert(&mut self, name: String, content: String)
        ensures
            final(self).cached() == old(self).cached().insert(name@, content@),
    {
        proof {
            use_type_invariant(&*self);
        }
        let ghost old_map = self.cached();
        let ghost old_entries = self.entries@;
        let ghost nv = name@;
        let ghost cv = content@;
        match self.position(&name) {
            Some(i) => {
                let mut entries = Vec::new();
                std::mem::swap(&mut entries, &mut self.entries);
                entries.set(i, (name, content));
                proof {
                    assert forall|a: int, b: int|
                        0 <= a < entries.len() && 0 <= b < entries.len() && a != b implies (
                        #[trigger] entries@[a]).0@ != (#[trigger] entries@[b]).0@ by {
                        if a != i as int && b != i as int {
                            assert(entries@[a] == old_entries[a]);
                            assert(entries@[b] == old_entries[b]);
                        } else if a == i as int {
                            assert(entries@[b] == old_entries[b]);
                        } else {
                            assert(entries@[a] == old_entries[a]);
                        }
                    }
                }
                self.entries = entries;
                proof {
                    let m = self.cached();
                    assert forall|k: Seq<char>| #[trigger] m.contains_key(k) <==> old_map.insert(nv, cv).contains_key(k) by {
                        if k != nv {
                            if m.contains_key(k) {
                                let j = choose|j: int| 0 <= j < self.entries.len() && #[trigger] self.entries@[j].0@ == k;
                                assert(self.entries@[j] == old_entries[j]);
                            }
                            if old_map.contains_key(k) {
                                let j = choose|j: int| 0 <= j < old_entries.len() && #[trigger] old_entries[j].0@ == k;
                                assert(j != i);
                                assert(self.entries@[j] == old_entries[j]);
                            }
                        } else {
                            assert(self.entries@[i as int].0@ == nv);
                        }
                    }
                    assert forall|k: Seq<char>| #[trigger] m.contains_key(k) implies m[k] == old_map.insert(nv, cv)[k] by {
                        let j = choose|j: int| 0 <= j < self.entries.len() && #[trigger] self.entries@[j].0@ == k;
                        if k == nv {
                            assert(self.entries@[i as int].0@ == nv);
                            assert(j == i);
                        } else {
                            assert(self.entries@[j] == old_entries[j]);
                            let j0 = choose|j0: int| 0 <= j0 < old_entries.len() && #[trigger] old_entries[j0].0@ == k;
                            assert(j0 != i);
                            assert(self.entries@[j0] == old_entries[j0]);
                            assert(j0 == j);
                        }
                    }
                    assert(m =~= old_map.insert(nv, cv));
                }
            },
            None => {
                let mut entries = Vec::new();
                std::mem::swap(&mut entries, &mut self.entries);
                entries.push((name, content));
                let n = entries.len();
                proof {
                    assert forall|a: int, b: int|
                        0 <= a < entries.len() && 0 <= b < entries.len() && a != b implies (
                        #[trigger] entries@[a]).0@ != (#[trigger] entries@[b]).0@ by {
                        if a < n - 1 {
                            assert(entries@[a] == old_entries[a]);
                        }
                        if b < n - 1 {
                            assert(entries@[b] == old_entries[b]);
                        }
                    }
                }
                self.entries = entries;
                proof {
                    let m = self.cached();
                    assert forall|k: Seq<char>| #[trigger] m.contains_key(k) <==> old_map.insert(nv, cv).contains_key(k) by {
                        if k != nv {
                            if m.contains_key(k) {
                                let j = choose|j: int| 0 <= j < self.entries.len() && #[trigger] self.entries@[j].0@ == k;
                                assert(j < n - 1);
                                assert(self.entries@[j] == old_entries[j]);
                            }
                            if old_map.contains_key(k) {
                                let j = choose|j: int| 0 <= j < old_entries.len() && #[trigger] old_entries[j].0@ == k;
                                assert(self.entries@[j] == old_entries[j]);
                            }
                        } else {
                            assert(self.entries@[n - 1].0@ == nv);
                        }
                    }
                    assert forall|k: Seq<char>| #[trigger] m.contains_key(k) implies m[k] == old_map.insert(nv, cv)[k] by {
                        let j = choose|j: int| 0 <= j < self.entries.len() && #[trigger] self.entries@[j].0@ == k;
                        if k == nv {
                            assert(self.entries@[n - 1].0@ == nv);
                            assert(j == n - 1);
                        } else {
                            assert(j < n - 1);
                            assert(self.entries@[j] == old_entries[j]);
                            let j0 = choose|j0: int| 0 <= j0 < old_entries.len() && #[trigger] old_entries[j0].0@ == k;
                            assert(self.entries@[j0] == old_entries[j0]);
                            assert(j0 == j);
                        }
                    }
                    assert(m =~= old_map.insert(nv, cv));
                }
            },
        }
    }
}

/// What happened since the last step of loading a skill's content.
pub enum SkillLoadEvent {
    /// A tool asked for the skill's content.
    Requested,
    /// The skill's directory was looked up in the index.
    PathResolved(Option<PathBuf>),
    /// The skill's `SKILL.md` was read, or could not be.
    FileRead(Option<String>),
}

/// What to do next to load a skill's content.
pub enum SkillLoadAction {
    /// Done: hand this back to the tool.
    Finished(Option<String>),
    /// Look up the skill's directory in the index.
    ResolvePath,
    /// Read `SKILL.md` in this directory.
    ReadSkillFile(PathBuf),
}

/// The cached contents after one loading step: what was read is cached
/// under the skill's name; no other step changes the cache.
pub open spec fn cache_after(
    m: Map<Seq<char>, Seq<char>>,
    name: Seq<char>,
    event: SkillLoadEvent,
) -> Map<Seq<char>, Seq<char>> {
    match event {
        SkillLoadEvent::FileRead(Some(content)) => m.insert(name, content@),
        _ => m,
    }
}

/// `a` is the next action after `event` when the cache held `m`: a request
/// is answered from the cache when it holds the skill, and otherwise asks
/// for the skill's directory; a resolved directory is to be read, an
/// unresolved one ends with no content; read content is handed back, an
/// unreadable file ends with no content.
pub open spec fn next_action(
    a: SkillLoadAction,
    m: Map<Seq<char>, Seq<char>>,
    name: Seq<char>,
    event: SkillLoadEvent,
) -> bool {
    match event {
        SkillLoadEvent::Requested => if m.contains_key(name) {
            a matches SkillLoadAction::Finished(Some(c)) && c@ == m[name]
        } else {
            a is ResolvePath
        },
        SkillLoadEvent::PathResolved(None) => a matches SkillLoadAction::Finished(None),
        SkillLoadEvent::PathResolved(Some(p)) => a == SkillLoadAction::ReadSkillFile(p),
        SkillLoadEvent::FileRead(Some(content)) => a matches SkillLoadAction::Finished(Some(c))
            && c@ == content@,
        SkillLoadEvent::FileRead(None) => a matches SkillLoadAction::Finished(None),
    }
}

/// Once a skill's file has been read, a later request for that skill is
/// answered with what was read, without resolving or reading again.
pub proof fn lemma_read_then_served(
    m: Map<Seq<char>, Seq<char>>,
    name: Seq<char>,
    content: String,
    a: SkillLoadAction,
)
    requires
        next_action(
            a,
            cache_after(m, name, SkillLoadEvent::FileRead(Some(content))),
            name,
            SkillLoadEvent::Requested,
        ),
    ensures
        a matches SkillLoadAction::Finished(Some(c)) && c@ == content@,
{
}

/// A request leaves the cache as it was, so repeated requests for a cached
/// skill keep being answered from the cache.
pub proof fn lemma_request_keeps_cache(m: Map<Seq<char>, Seq<char>>, name: Seq<char>)
    ensures
        cache_after(m, name, SkillLoadEvent::Requested) == m,
{
}

/// One step of loading a skill's content for a tool. A request is answered
/// from the cache when it holds the skill; otherwise the skill's directory
/// is resolved, its `SKILL.md` read, and what was read cached and handed
/// back. A skill that is not indexed, or whose file cannot be read, has no
/// content.
pub fn get_skill_for_tool(cache: &mut SkillContentCache, name: &str, event: SkillLoadEvent) -> (a: SkillLoadAction)
    ensures
        final(cache).cached() == cache_after(old(cache).cached(), name@, event),
        next_action(a, old(cache).cached(), name@, event),
{
    match event {
        SkillLoadEvent::Requested => match cache.get(name) {
            Some(c) => SkillLoadAction::Finished(Some(c)),
            None => SkillLoadAction::ResolvePath,
        },
        SkillLoadEvent::PathResolved(None) => SkillLoadAction::Finished(None),
        SkillLoadEvent::PathResolved(Some(p)) => SkillLoadAction::ReadSkillFile(p),
        SkillLoadEvent::FileRead(Some(content)) => {
            cache.insert(name.to_owned(), content.clone());
            SkillLoadAction::Finished(Some(content))
        },
        SkillLoadEvent::FileRead(None) => SkillLoadAction::Finished(None),
    }
}

} // verus!
