//! Merging the skills found under several roots, and the state of the
//! process-wide index: which roots it watches and when it must be rebuilt.

use vstd::prelude::*;
use std::path::PathBuf;
use crate::skill::SkillMeta;
use crate::index::{SkillIndex, is_first_path};

verus! {

/// Some skill of `ms` has the name `n`.
pub open spec fn has_named(ms: Seq<SkillMeta>, n: Seq<char>) -> bool {
    exists|k: int| 0 <= k < ms.len() && #[trigger] ms[k].name@ == n
}

/// The skills of `ms` whose name no earlier skill of `ms` has, in order.
pub open spec fn first_by_name(ms: Seq<SkillMeta>) -> Seq<SkillMeta>
    decreases ms.len(),
{
    if ms.len() == 0 {
        Seq::empty()
    } else if has_named(ms.drop_last(), ms.last().name@) {
        first_by_name(ms.drop_last())
    } else {
        first_by_name(ms.drop_last()).push(ms.last())
    }
}

proof fn lemma_has_named_push(ms: Seq<SkillMeta>, m: SkillMeta, n: Seq<char>)
    ensures
        has_named(ms.push(m), n) <==> has_named(ms, n) || m.name@ == n,
{
    if has_named(ms, n) {
        let k = choose|k: int| 0 <= k < ms.len() && #[trigger] ms[k].name@ == n;
        assert(ms.push(m)[k] == ms[k]);
    }
    if m.name@ == n {
        assert(ms.push(m)[ms.len() as int] == m);
    }
    if has_named(ms.push(m), n) {
        let k = choose|k: int| 0 <= k < ms.len() + 1 && #[trigger] ms.push(m)[k].name@ == n;
        if k < ms.len() {
            assert(ms.push(m)[k] == ms[k]);
        }
    }
}

/// What merging keeps: no two kept skills share a name, every name that
/// occurs among the inputs is kept, and each kept skill is the first input
/// skill with its name.
pub proof fn lemma_first_by_name(ms: Seq<SkillMeta>)
    ensures
        forall|a: int, b: int|
            0 <= a < b < first_by_name(ms).len() ==> (#[trigger] first_by_name(ms)[a]).name@
                != (#[trigger] first_by_name(ms)[b]).name@,
        forall|n: Seq<char>| #[trigger] has_named(first_by_name(ms), n) <==> has_named(ms, n),
        forall|q: int|
            0 <= q < first_by_name(ms).len() ==> exists|k: int|
                0 <= k < ms.len() && ms[k] == #[trigger] first_by_name(ms)[q] && !has_named(
                    ms.take(k),
                    ms[k].name@,
                ),
    decreases ms.len(),
{
    if ms.len() > 0 {
        let prev_ms = ms.drop_last();
        let last = ms.last();
        lemma_first_by_name(prev_ms);
        let prev = first_by_name(prev_ms);
        let r = first_by_name(ms);
        assert(ms =~= prev_ms.push(last));
        assert forall|n: Seq<char>| #[trigger] has_named(ms, n) <==> has_named(prev_ms, n) || last.name@ == n by {
            lemma_has_named_push(prev_ms, last, n);
        }
        if !has_named(prev_ms, last.name@) {
            assert(r == prev.push(last));
            assert forall|n: Seq<char>| #[trigger] has_named(r, n) <==> has_named(prev, n) || last.name@ == n by {
                lemma_has_named_push(prev, last, n);
            }
            assert forall|a: int, b: int| 0 <= a < b < r.len() implies (#[trigger] r[a]).name@ != (#[trigger] r[b]).name@ by {
                if b == r.len() - 1 {
                    assert(r[a] == prev[a]);
                    if r[a].name@ == last.name@ {
                        assert(has_named(prev, last.name@));
                    }
                } else {
                    assert(r[a] == prev[a]);
                    assert(r[b] == prev[b]);
                }
            }
            assert forall|q: int| 0 <= q < r.len() implies exists|k: int|
                0 <= k < ms.len() && ms[k] == #[trigger] r[q] && !has_named(ms.take(k), ms[k].name@) by {
                if q == r.len() - 1 {
                    let k = ms.len() - 1;
                    assert(ms.take(k) =~= prev_ms);
                    assert(ms[k] == r[q]);
                } else {
                    assert(r[q] == prev[q]);
                    let k = choose|k: int|
                        0 <= k < prev_ms.len() && prev_ms[k] == #[trigger] prev[q] && !has_named(prev_ms.take(k), prev_ms[k].name@);
                    assert(ms.take(k) =~= prev_ms.take(k));
                    assert(ms[k] == prev_ms[k]);
                }
            }
        } else {
            assert forall|q: int| 0 <= q < r.len() implies exists|k: int|
                0 <= k < ms.len() && ms[k] == #[trigger] r[q] && !has_named(ms.take(k), ms[k].name@) by {
                let k = choose|k: int|
                    0 <= k < prev_ms.len() && prev_ms[k] == #[trigger] prev[q] && !has_named(prev_ms.take(k), prev_ms[k].name@);
                assert(ms.take(k) =~= prev_ms.take(k));
                assert(ms[k] == prev_ms[k]);
            }
        }
    }
}

/// The skills found under the roots, root after root, keeping for each name
/// only the first skill that has it.
pub open spec fn merged_skills(roots: Seq<Seq<SkillMeta>>) -> Seq<SkillMeta> {
    first_by_name(roots.flatten_alt())
}

/// Whether some skill of `ms` has the name.
fn has_name(ms: &Vec<SkillMeta>, name: &String) -> (b: bool)
    ensures
        b == has_named(ms@, name@),
{
    let mut q: usize = 0;
    while q < ms.len()
        invariant
            0 <= q <= ms.len(),
            forall|r: int| 0 <= r < q ==> ms[r].name@ != name@,
        decreases ms.len() - q,
    {
        if ms[q].name == *name {
            assert(ms@[q as int].name@ == name@);
            return true;
        }
        q = q + 1;
    }
    false
}

/// `out` and `done` have the same names.
spec fn same_names(out: Seq<SkillMeta>, done: Seq<SkillMeta>) -> bool {
    forall|n: Seq<char>| #[trigger] has_named(out, n) <==> #[trigger] has_named(done, n)
}

/// Appends `skill` unless a kept skill already has its name.
fn push_if_new(out: &mut Vec<SkillMeta>, skill: SkillMeta, Ghost(done): Ghost<Seq<SkillMeta>>)
    requires
        old(out)@ == first_by_name(done),
        same_names(old(out)@, done),
    ensures
        final(out)@ == first_by_name(done.push(skill)),
        same_names(final(out)@, done.push(skill)),
{
    let ghost nd = done.push(skill);
    let ghost prev_out = out@;
    assert(nd.drop_last() =~= done);
    let seen = has_name(out, &skill.name);
    proof {
        assert(seen == has_named(done, skill.name@));
        assert forall|n: Seq<char>| #[trigger] has_named(nd, n) <==> has_named(done, n) || skill.name@ == n by {
            lemma_has_named_push(done, skill, n);
        }
    }
    if seen {
    } else {
        out.push(skill);
        proof {
            assert forall|n: Seq<char>| #[trigger] has_named(out@, n) <==> has_named(prev_out, n) || skill.name@ == n by {
                lemma_has_named_push(prev_out, skill, n);
            }
        }
    }
}

/// Merges the skills scanned under each root, in root order: a skill whose
/// name an earlier skill already has is dropped, so that the first root
/// that has a skill of some name wins.
pub fn discover_all_skills(scanned: Vec<Vec<SkillMeta>>) -> (r: Vec<SkillMeta>)
    ensures
        r@ == merged_skills(scanned@.map_values(|v: Vec<SkillMeta>| v@)),
{
    let ghost roots = scanned@.map_values(|v: Vec<SkillMeta>| v@);
    let mut out: Vec<SkillMeta> = Vec::new();
    let mut i: usize = 0;
    let n = scanned.len();
    let mut rest = scanned;
    let ghost mut done: Seq<SkillMeta> = Seq::empty();
    proof {
        assert(roots.take(0) =~= Seq::<Seq<SkillMeta>>::empty());
        assert(rest@.map_values(|v: Vec<SkillMeta>| v@) =~= roots.skip(0));
    }
    while i < n
        invariant
            0 <= i <= n,
            n == roots.len(),
            rest@.map_values(|v: Vec<SkillMeta>| v@) == roots.skip(i as int),
            done == roots.take(i as int).flatten_alt(),
            out@ == first_by_name(done),
            same_names(out@, done),
        decreases n - i,
    {
        let ghost before_rest = rest@;
        assert(rest@.len() == rest@.map_values(|v: Vec<SkillMeta>| v@).len());
        let root = rest.remove(0);
        let ghost rv = root@;
        proof {
            assert(before_rest[0] == root);
            assert(roots.skip(i as int)[0] == rv);
            assert(rest@ == before_rest.remove(0));
            assert forall|x: int| 0 <= x < rest@.len() implies rest@.map_values(|v: Vec<SkillMeta>| v@)[x] == #[trigger] roots.skip(i + 1)[x] by {
                assert(rest@[x] == before_rest[x + 1]);
                assert(roots.skip(i as int)[x + 1] == roots.skip(i + 1)[x]);
            }
            assert(rest@.map_values(|v: Vec<SkillMeta>| v@) =~= roots.skip(i + 1));
        }
        let m = root.len();
        let mut src = root;
        let mut j: usize = 0;
        let ghost base = done;
        proof {
            assert(rv.skip(0) =~= rv);
            assert(base + rv.take(0) =~= base);
        }
        while j < m
            invariant
                0 <= j <= m,
                m == rv.len(),
                src@ == rv.skip(j as int),
                done == base + rv.take(j as int),
                out@ == first_by_name(done),
                same_names(out@, done),
            decreases m - j,
        {
            let skill = src.remove(0);
            proof {
                assert(src@ =~= rv.skip(j + 1));
            }
            push_if_new(&mut out, skill, Ghost(done));
            proof {
                assert(done.push(skill) =~= base + rv.take(j + 1));
                done = done.push(skill);
            }
            j = j + 1;
        }
        proof {
            assert(rv.take(m as int) =~= rv);
            assert(roots.take(i + 1).drop_last() =~= roots.take(i as int));
            assert(roots.take(i + 1).last() == rv);
        }
        i = i + 1;
    }
    proof {
        assert(roots.take(n as int) =~= roots);
    }
    out
}

/// A skill root directory and the latest modification time seen under it,
/// in nanoseconds from the Unix epoch (negative before it).
pub struct MonitoredRoot {
    pub path: PathBuf,
    pub latest_mtime: i128,
}

/// A root has changed when its directory can no longer be observed, or
/// when what is observed under it is newer than what was recorded.
pub open spec fn root_changed(recorded: i128, observed: Option<i128>) -> bool {
    match observed {
        Some(m) => m > recorded,
        None => true,
    }
}

/// Roots under which nothing newer than what was recorded is observed
/// (and whose directories can still be observed) have not changed.
pub proof fn lemma_unchanged_roots(roots: Seq<MonitoredRoot>, observed: Seq<Option<i128>>)
    requires
        observed.len() == roots.len(),
        forall|i: int| 0 <= i < roots.len() ==> ((#[trigger] observed[i]) matches Some(m) && m <= roots[i].latest_mtime),
    ensures
        !exists|i: int| 0 <= i < observed.len() && root_changed(roots[i].latest_mtime, #[trigger] observed[i]),
{
}

/// The process-wide skill index: the index built at the last refresh, if
/// any, and the roots that were watched then.
pub struct GlobalSkillIndex {
    inner: Option<SkillIndex>,
    roots: Vec<MonitoredRoot>,
}

impl GlobalSkillIndex {
    /// The skills of the current index, if one has been built.
    pub closed spec fn indexed(&self) -> Option<Seq<SkillMeta>> {
        match self.inner {
            Some(ix) => Some(ix.skills()),
            None => None,
        }
    }

    /// The roots watched since the last refresh.
    pub closed spec fn watched(&self) -> Seq<MonitoredRoot> {
        self.roots@
    }

    /// No index yet, and no roots watched.
    pub fn new() -> (r: Self)
        ensures
            r.indexed() is None,
            r.watched().len() == 0,
    {
        GlobalSkillIndex { inner: None, roots: Vec::new() }
    }

    /// The roots watched since the last refresh.
    pub fn monitored_roots(&self) -> (r: &[MonitoredRoot])
        ensures
            r@ == self.watched(),
    {
        self.roots.as_slice()
    }

    /// Whether some watched root has changed, given what is observed under
    /// each (in the order of `monitored_roots`).
    pub fn any_root_changed(&self, observed: &[Option<i128>]) -> (b: bool)
        requires
            observed@.len() == self.watched().len(),
        ensures
            b == exists|i: int|
                0 <= i < observed@.len() && root_changed(self.watched()[i].latest_mtime, #[trigger] observed@[i]),
    {
        let mut i: usize = 0;
        while i < observed.len()
            invariant
                0 <= i <= observed@.len(),
                observed@.len() == self.roots@.len(),
                forall|k: int| 0 <= k < i ==> !root_changed(self.roots@[k].latest_mtime, #[trigger] observed@[k]),
            decreases observed@.len() - i,
        {
            let changed = match observed[i] {
                Some(m) => m > self.roots[i].latest_mtime,
                None => true,
            };
            if changed {
                assert(root_changed(self.watched()[i as int].latest_mtime, observed@[i as int]));
                return true;
            }
            i = i + 1;
        }
        false
    }

    /// The index must be (re)built when none has been built yet or when a
    /// watched root has changed.
    pub fn needs_refresh(&self, observed: &[Option<i128>]) -> (b: bool)
        requires
            observed@.len() == self.watched().len(),
        ensures
            b == (self.indexed() is None || exists|i: int|
                0 <= i < observed@.len() && root_changed(self.watched()[i].latest_mtime, #[trigger] observed@[i])),
    {
        let changed = self.any_root_changed(observed);
        changed || self.inner.is_none()
    }

    /// Replaces the index by one over `skills` and watches `roots` from now on.
    pub fn rebuild(&mut self, skills: Vec<SkillMeta>, roots: Vec<MonitoredRoot>)
        ensures
            final(self).indexed() == Some(skills@),
            final(self).watched() == roots@,
    {
        self.inner = Some(SkillIndex::new(skills));
        self.roots = roots;
    }

    /// The current index, if one has been built.
    pub fn index(&self) -> (r: Option<&SkillIndex>)
        ensures
            r matches Some(ix) ==> self.indexed() == Some(ix.skills()),
            r is None ==> self.indexed() is None,
    {
        self.inner.as_ref()
    }

    /// The number of indexed skills; 0 before an index has been built.
    pub fn skill_count(&self) -> (n: usize)
        ensures
            n == match self.indexed() {
                Some(sk) => sk.len(),
                None => 0,
            },
    {
        match &self.inner {
            Some(ix) => ix.skill_names().len(),
            None => 0,
        }
    }

    /// The directory of the first indexed skill with the given name; none
    /// before an index has been built.
    pub fn get_skill_path(&self, name: &str) -> (r: Option<PathBuf>)
        ensures
            match self.indexed() {
                Some(sk) => is_first_path(sk, name@, r),
                None => r is None,
            },
    {
        match &self.inner {
            Some(ix) => {
                ix.get_skill_path(name)
            },
            None => None,
        }
    }
}

} // verus!
