//! Where skills are looked for, and in which order the places take
//! precedence: the project's directories from the working directory up,
//! then the user's home, then the configured homes.

use vstd::prelude::*;

verus! {

/// The directory a candidate root is found under.
#[derive(PartialEq, Eq, Structural, Clone, Copy, Debug)]
pub enum RootBase {
    /// The working directory (0) or one of its ancestors (1 is its parent).
    Ancestor(usize),
    /// The user's home directory.
    Home,
    /// A configured home, in the order the configuration lists them.
    ConfigHome(usize),
}

/// A component of a candidate root's path below its base.
#[derive(PartialEq, Eq, Structural, Clone, Copy, Debug)]
pub enum PathPart {
    /// `.omc`
    Omc,
    /// `.agents`
    Agents,
    /// `.claw`
    Claw,
    /// `.codex`
    Codex,
    /// The assistant's own configuration directory.
    Assistant,
    /// `.config`
    Config,
    /// `opencode`
    Opencode,
    /// `skills`
    Skills,
    /// `commands`
    Commands,
    /// `omc-learned`
    OmcLearned,
}

/// A directory that may hold skills: a base and the path below it.
pub struct RootCandidate {
    pub base: RootBase,
    pub parts: Vec<PathPart>,
}

pub open spec fn candidate_view(c: RootCandidate) -> (RootBase, Seq<PathPart>) {
    (c.base, c.parts@)
}

/// The tool directories looked into in a project directory, in order.
pub open spec fn project_tool_dirs() -> Seq<PathPart> {
    seq![PathPart::Omc, PathPart::Agents, PathPart::Claw, PathPart::Codex, PathPart::Assistant]
}

/// The tool directories looked into in the home directory, in order.
pub open spec fn home_tool_dirs() -> Seq<PathPart> {
    seq![PathPart::Omc, PathPart::Claw, PathPart::Codex, PathPart::Assistant]
}

/// For each tool directory in turn, its `skills` and then its `commands`.
pub open spec fn prefixed_roots(base: RootBase, dirs: Seq<PathPart>) -> Seq<(RootBase, Seq<PathPart>)>
    decreases dirs.len(),
{
    if dirs.len() == 0 {
        Seq::empty()
    } else {
        prefixed_roots(base, dirs.drop_last()) + seq![
            (base, seq![dirs.last(), PathPart::Skills]),
            (base, seq![dirs.last(), PathPart::Commands]),
        ]
    }
}

/// The roots in the working directory and its first `n - 1` ancestors,
/// nearest first.
pub open spec fn ancestor_roots(n: nat) -> Seq<(RootBase, Seq<PathPart>)>
    decreases n,
{
    if n == 0 {
        Seq::empty()
    } else {
        ancestor_roots((n - 1) as nat) + prefixed_roots(RootBase::Ancestor((n - 1) as usize), project_tool_dirs())
    }
}

/// The roots in the user's home directory.
pub open spec fn home_roots() -> Seq<(RootBase, Seq<PathPart>)> {
    prefixed_roots(RootBase::Home, home_tool_dirs()) + seq![
        (RootBase::Home, seq![PathPart::Agents, PathPart::Skills]),
        (RootBase::Home, seq![PathPart::Config, PathPart::Opencode, PathPart::Skills]),
        (RootBase::Home, seq![PathPart::Assistant, PathPart::Skills, PathPart::OmcLearned]),
    ]
}

/// The `skills` directory of each of the first `n` configured homes.
pub open spec fn config_roots(n: nat) -> Seq<(RootBase, Seq<PathPart>)>
    decreases n,
{
    if n == 0 {
        Seq::empty()
    } else {
        config_roots((n - 1) as nat) + seq![(RootBase::ConfigHome((n - 1) as usize), seq![PathPart::Skills])]
    }
}

/// All candidate roots in precedence order: project-local (nearest
/// directory first), then the user's home, then the configured homes.
pub open spec fn root_candidates(num_ancestors: nat, has_home: bool, num_config_homes: nat) -> Seq<
    (RootBase, Seq<PathPart>),
> {
    ancestor_roots(num_ancestors) + (if has_home {
        home_roots()
    } else {
        Seq::empty()
    }) + config_roots(num_config_homes)
}

/// The precedence of a base: the working directory and its ancestors by
/// distance, then the home directory, then the configured homes in order.
pub open spec fn base_rank(b: RootBase, num_ancestors: nat) -> int {
    match b {
        RootBase::Ancestor(i) => i as int,
        RootBase::Home => num_ancestors as int,
        RootBase::ConfigHome(c) => num_ancestors + 1 + c,
    }
}

/// The base is one of the directories that were given.
pub open spec fn base_given(b: RootBase, num_ancestors: nat, has_home: bool, num_config_homes: nat) -> bool {
    match b {
        RootBase::Ancestor(i) => i < num_ancestors,
        RootBase::Home => has_home,
        RootBase::ConfigHome(c) => c < num_config_homes,
    }
}

proof fn lemma_prefixed_base(base: RootBase, dirs: Seq<PathPart>)
    ensures
        forall|i: int| 0 <= i < prefixed_roots(base, dirs).len() ==> (#[trigger] prefixed_roots(base, dirs)[i]).0 == base,
    decreases dirs.len(),
{
    if dirs.len() > 0 {
        lemma_prefixed_base(base, dirs.drop_last());
        let prev = prefixed_roots(base, dirs.drop_last());
        assert forall|i: int| 0 <= i < prefixed_roots(base, dirs).len() implies (#[trigger] prefixed_roots(base, dirs)[i]).0 == base by {
            if i < prev.len() {
                assert(prefixed_roots(base, dirs)[i] == prev[i]);
            }
        }
    }
}

proof fn lemma_ancestor_roots(n: nat)
    requires
        n <= usize::MAX,
    ensures
        forall|i: int| 0 <= i < ancestor_roots(n).len() ==> ((#[trigger] ancestor_roots(n)[i]).0 matches RootBase::Ancestor(a) && a < n),
        forall|i: int, j: int|
            0 <= i < j < ancestor_roots(n).len() ==> base_rank(#[trigger] ancestor_roots(n)[i].0, 0) <= base_rank(
                #[trigger] ancestor_roots(n)[j].0,
                0,
            ),
    decreases n,
{
    if n > 0 {
        let m = (n - 1) as nat;
        lemma_ancestor_roots(m);
        let prev = ancestor_roots(m);
        let base = RootBase::Ancestor(m as usize);
        lemma_prefixed_base(base, project_tool_dirs());
        let p = prefixed_roots(base, project_tool_dirs());
        let all = ancestor_roots(n);
        assert(all == prev + p);
        assert forall|i: int| 0 <= i < all.len() implies ((#[trigger] all[i]).0 matches RootBase::Ancestor(a) && a < n) by {
            if i < prev.len() {
                assert(all[i] == prev[i]);
            } else {
                assert(all[i] == p[i - prev.len()]);
            }
        }
        assert forall|i: int, j: int| 0 <= i < j < all.len() implies base_rank(#[trigger] all[i].0, 0) <= base_rank(
            #[trigger] all[j].0,
            0,
        ) by {
            if j < prev.len() {
                assert(all[i] == prev[i]);
                assert(all[j] == prev[j]);
            } else if i < prev.len() {
                assert(all[i] == prev[i]);
                assert(all[j] == p[j - prev.len()]);
            } else {
                assert(all[i] == p[i - prev.len()]);
                assert(all[j] == p[j - prev.len()]);
            }
        }
    }
}

proof fn lemma_config_roots(n: nat)
    requires
        n <= usize::MAX,
    ensures
        forall|i: int| 0 <= i < config_roots(n).len() ==> ((#[trigger] config_roots(n)[i]).0 matches RootBase::ConfigHome(c) && c < n),
        forall|i: int, j: int|
            0 <= i < j < config_roots(n).len() ==> base_rank(#[trigger] config_roots(n)[i].0, 0) <= base_rank(
                #[trigger] config_roots(n)[j].0,
                0,
            ),
    decreases n,
{
    if n > 0 {
        let m = (n - 1) as nat;
        lemma_config_roots(m);
        let prev = config_roots(m);
        let all = config_roots(n);
        assert forall|i: int| 0 <= i < all.len() implies ((#[trigger] all[i]).0 matches RootBase::ConfigHome(c) && c < n) by {
            if i < prev.len() {
                assert(all[i] == prev[i]);
            }
        }
        assert forall|i: int, j: int| 0 <= i < j < all.len() implies base_rank(#[trigger] all[i].0, 0) <= base_rank(
            #[trigger] all[j].0,
            0,
        ) by {
            assert(all[i] == prev[i]);
            if j < prev.len() {
                assert(all[j] == prev[j]);
            }
        }
    }
}

/// Skills in a directory nearer the working directory take precedence over
/// those further up, project-local ones over the user's home, and the
/// user's home over the configured homes: candidates come in that order,
/// and each is under one of the given directories.
pub proof fn lemma_root_precedence(num_ancestors: nat, has_home: bool, num_config_homes: nat)
    requires
        num_ancestors <= usize::MAX,
        num_config_homes <= usize::MAX,
    ensures
        forall|i: int, j: int|
            0 <= i < j < root_candidates(num_ancestors, has_home, num_config_homes).len() ==> base_rank(
                #[trigger] root_candidates(num_ancestors, has_home, num_config_homes)[i].0,
                num_ancestors,
            ) <= base_rank(#[trigger] root_candidates(num_ancestors, has_home, num_config_homes)[j].0, num_ancestors),
        forall|i: int|
            0 <= i < root_candidates(num_ancestors, has_home, num_config_homes).len() ==> base_given(
                (#[trigger] root_candidates(num_ancestors, has_home, num_config_homes)[i]).0,
                num_ancestors,
                has_home,
                num_config_homes,
            ),
{
    lemma_ancestor_roots(num_ancestors);
    lemma_config_roots(num_config_homes);
    let a = ancestor_roots(num_ancestors);
    let h = if has_home { home_roots() } else { Seq::<(RootBase, Seq<PathPart>)>::empty() };
    let c = config_roots(num_config_homes);
    let all = root_candidates(num_ancestors, has_home, num_config_homes);
    assert(all == a + h + c);
    lemma_prefixed_base(RootBase::Home, home_tool_dirs());
    let hp = prefixed_roots(RootBase::Home, home_tool_dirs());
    assert forall|x: int| 0 <= x < h.len() implies (#[trigger] h[x]).0 == RootBase::Home by {
        if x < hp.len() {
            assert(home_roots()[x] == hp[x]);
        }
    }
    assert forall|i: int| 0 <= i < all.len() implies base_given(
        (#[trigger] all[i]).0,
        num_ancestors,
        has_home,
        num_config_homes,
    ) by {
        if i < a.len() {
            assert(all[i] == a[i]);
        } else if i < a.len() + h.len() {
            assert(all[i] == h[i - a.len()]);
        } else {
            assert(all[i] == c[i - a.len() - h.len()]);
        }
    }
    assert forall|i: int, j: int| 0 <= i < j < all.len() implies base_rank(#[trigger] all[i].0, num_ancestors)
        <= base_rank(#[trigger] all[j].0, num_ancestors) by {
        if j < a.len() {
            assert(all[i] == a[i]);
            assert(all[j] == a[j]);
            assert(base_rank(a[i].0, 0) <= base_rank(a[j].0, 0));
        } else if j < a.len() + h.len() {
            assert(all[j] == h[j - a.len()]);
            if i < a.len() {
                assert(all[i] == a[i]);
            } else {
                assert(all[i] == h[i - a.len()]);
            }
        } else {
            assert(all[j] == c[j - a.len() - h.len()]);
            if i < a.len() {
                assert(all[i] == a[i]);
            } else if i < a.len() + h.len() {
                assert(all[i] == h[i - a.len()]);
            } else {
                assert(all[i] == c[i - a.len() - h.len()]);
                assert(base_rank(c[i - a.len() - h.len()].0, 0) <= base_rank(c[j - a.len() - h.len()].0, 0));
            }
        }
    }
}

/// A tool directory searched in a project directory.
pub open spec fn is_project_tool_dir(d: PathPart) -> bool {
    d == PathPart::Omc || d == PathPart::Agents || d == PathPart::Claw || d == PathPart::Codex || d
        == PathPart::Assistant
}

/// The candidate `leaf` directory under tool directory `d` of ancestor `a`.
pub open spec fn ancestor_root(a: int, d: PathPart, leaf: PathPart) -> (RootBase, Seq<PathPart>) {
    (RootBase::Ancestor(a as usize), seq![d, leaf])
}

proof fn lemma_prefixed_roots_contents(base: RootBase, dirs: Seq<PathPart>)
    ensures
        prefixed_roots(base, dirs).len() == 2 * dirs.len(),
        forall|i: int|
            0 <= i < dirs.len() ==> prefixed_roots(base, dirs).contains((base, seq![#[trigger] dirs[i], PathPart::Skills]))
                && prefixed_roots(base, dirs).contains((base, seq![dirs[i], PathPart::Commands])),
    decreases dirs.len(),
{
    if dirs.len() > 0 {
        let p = dirs.drop_last();
        lemma_prefixed_roots_contents(base, p);
        let a = prefixed_roots(base, p);
        let all = prefixed_roots(base, dirs);
        let tail = seq![(base, seq![dirs.last(), PathPart::Skills]), (base, seq![dirs.last(), PathPart::Commands])];
        assert(all == a + tail);
        assert forall|i: int| 0 <= i < dirs.len() implies all.contains((base, seq![#[trigger] dirs[i], PathPart::Skills]))
            && all.contains((base, seq![dirs[i], PathPart::Commands])) by {
            if i < p.len() {
                assert(p[i] == dirs[i]);
                let x = choose|x: int| 0 <= x < a.len() && a[x] == (base, seq![p[i], PathPart::Skills]);
                assert(all[x] == a[x]);
                let y = choose|y: int| 0 <= y < a.len() && a[y] == (base, seq![p[i], PathPart::Commands]);
                assert(all[y] == a[y]);
            } else {
                assert(all[a.len() as int] == tail[0]);
                assert(all[a.len() as int + 1] == tail[1]);
            }
        }
    }
}

proof fn lemma_ancestor_roots_contents(n: nat)
    requires
        n <= usize::MAX,
    ensures
        ancestor_roots(n).len() == 10 * n,
        forall|a: int, d: PathPart|
            0 <= a < n && is_project_tool_dir(d) ==> ancestor_roots(n).contains(
                #[trigger] ancestor_root(a, d, PathPart::Skills),
            ) && ancestor_roots(n).contains(ancestor_root(a, d, PathPart::Commands)),
    decreases n,
{
    if n > 0 {
        let m = (n - 1) as nat;
        lemma_ancestor_roots_contents(m);
        let base = RootBase::Ancestor(m as usize);
        let dirs = project_tool_dirs();
        lemma_prefixed_roots_contents(base, dirs);
        let prev = ancestor_roots(m);
        let p = prefixed_roots(base, dirs);
        let all = ancestor_roots(n);
        assert(all == prev + p);
        assert forall|a: int, d: PathPart| 0 <= a < n && is_project_tool_dir(d) implies all.contains(
            #[trigger] ancestor_root(a, d, PathPart::Skills),
        ) && all.contains(ancestor_root(a, d, PathPart::Commands)) by {
            let e1 = ancestor_root(a, d, PathPart::Skills);
            let e2 = ancestor_root(a, d, PathPart::Commands);
            if a < m {
                assert(prev.contains(e1) && prev.contains(e2));
                let x = choose|x: int| 0 <= x < prev.len() && prev[x] == e1;
                assert(all[x] == prev[x]);
                let y = choose|y: int| 0 <= y < prev.len() && prev[y] == e2;
                assert(all[y] == prev[y]);
            } else {
                let i: int = if d == PathPart::Omc {
                    0
                } else if d == PathPart::Agents {
                    1
                } else if d == PathPart::Claw {
                    2
                } else if d == PathPart::Codex {
                    3
                } else {
                    4
                };
                assert(dirs[i] == d);
                assert(p.contains((base, seq![dirs[i], PathPart::Skills])));
                assert(p.contains((base, seq![dirs[i], PathPart::Commands])));
                let x = choose|x: int| 0 <= x < p.len() && p[x] == e1;
                assert(all[prev.len() + x] == p[x]);
                let y = choose|y: int| 0 <= y < p.len() && p[y] == e2;
                assert(all[prev.len() + y] == p[y]);
            }
        }
    }
}

proof fn lemma_config_roots_len(n: nat)
    ensures
        config_roots(n).len() == n,
    decreases n,
{
    if n > 0 {
        lemma_config_roots_len((n - 1) as nat);
    }
}

/// Every given ancestor of the working directory is searched: for each of
/// them and each project tool directory, its `skills` and `commands` are
/// candidates. There are ten candidates per ancestor, eleven in the home
/// directory when there is one, and one per configured home.
pub proof fn lemma_every_ancestor_searched(num_ancestors: nat, has_home: bool, num_config_homes: nat)
    requires
        num_ancestors <= usize::MAX,
    ensures
        forall|a: int, d: PathPart|
            0 <= a < num_ancestors && is_project_tool_dir(d) ==> root_candidates(
                num_ancestors,
                has_home,
                num_config_homes,
            ).contains(#[trigger] ancestor_root(a, d, PathPart::Skills))
                && root_candidates(num_ancestors, has_home, num_config_homes).contains(
                ancestor_root(a, d, PathPart::Commands),
            ),
        root_candidates(num_ancestors, has_home, num_config_homes).len() == 10 * num_ancestors + (if has_home {
            11int
        } else {
            0int
        }) + num_config_homes,
{
    lemma_ancestor_roots_contents(num_ancestors);
    lemma_config_roots_len(num_config_homes);
    lemma_prefixed_roots_contents(RootBase::Home, home_tool_dirs());
    let a = ancestor_roots(num_ancestors);
    let h = if has_home { home_roots() } else { Seq::<(RootBase, Seq<PathPart>)>::empty() };
    let c = config_roots(num_config_homes);
    let all = root_candidates(num_ancestors, has_home, num_config_homes);
    assert(all == a + h + c);
    assert forall|x: int, d: PathPart| 0 <= x < num_ancestors && is_project_tool_dir(d) implies all.contains(
        #[trigger] ancestor_root(x, d, PathPart::Skills),
    ) && all.contains(ancestor_root(x, d, PathPart::Commands)) by {
        assert(a.contains(ancestor_root(x, d, PathPart::Skills)));
        let i = choose|i: int| 0 <= i < a.len() && a[i] == ancestor_root(x, d, PathPart::Skills);
        assert(all[i] == a[i]);
        let j = choose|j: int| 0 <= j < a.len() && a[j] == ancestor_root(x, d, PathPart::Commands);
        assert(all[j] == a[j]);
    }
}

/// Appends the `skills` and `commands` directories of each tool directory.
fn push_prefixed(out: &mut Vec<RootCandidate>, base: RootBase, dirs: &Vec<PathPart>)
    ensures
        final(out)@.map_values(|c: RootCandidate| candidate_view(c)) == old(out)@.map_values(
            |c: RootCandidate| candidate_view(c),
        ) + prefixed_roots(base, dirs@),
{
    let ghost start = out@.map_values(|c: RootCandidate| candidate_view(c));
    let mut i: usize = 0;
    assert(dirs@.take(0) =~= Seq::<PathPart>::empty());
    assert(start + prefixed_roots(base, dirs@.take(0)) =~= start);
    while i < dirs.len()
        invariant
            0 <= i <= dirs@.len(),
            out@.map_values(|c: RootCandidate| candidate_view(c)) == start + prefixed_roots(base, dirs@.take(i as int)),
        decreases dirs@.len() - i,
    {
        let d = dirs[i];
        let ghost before = out@.map_values(|c: RootCandidate| candidate_view(c));
        let ghost prev = out@;
        let a = RootCandidate { base, parts: vec![d, PathPart::Skills] };
        let b = RootCandidate { base, parts: vec![d, PathPart::Commands] };
        assert(candidate_view(a) == (base, seq![d, PathPart::Skills])) by {
            assert(a.parts@ =~= seq![d, PathPart::Skills]);
        }
        assert(candidate_view(b) == (base, seq![d, PathPart::Commands])) by {
            assert(b.parts@ =~= seq![d, PathPart::Commands]);
        }
        out.push(a);
        out.push(b);
        proof {
            assert(dirs@.take(i + 1).drop_last() =~= dirs@.take(i as int));
            assert(dirs@.take(i + 1).last() == d);
            assert(out@ =~= prev.push(a).push(b));
            assert(out@.map_values(|c: RootCandidate| candidate_view(c)) =~= before + seq![
                candidate_view(a),
                candidate_view(b),
            ]);
        }
        i = i + 1;
    }
    assert(dirs@.take(dirs@.len() as int) =~= dirs@);
}

/// The candidate roots, in precedence order, for a working directory with
/// `num_ancestors` directories from itself up to the file-system root, a
/// home directory if `has_home`, and `num_config_homes` configured homes.
pub fn skill_root_candidates(num_ancestors: usize, has_home: bool, num_config_homes: usize) -> (r: Vec<RootCandidate>)
    ensures
        r@.map_values(|c: RootCandidate| candidate_view(c)) == root_candidates(
            num_ancestors as nat,
            has_home,
            num_config_homes as nat,
        ),
{
    let mut out: Vec<RootCandidate> = Vec::new();
    let project = vec![PathPart::Omc, PathPart::Agents, PathPart::Claw, PathPart::Codex, PathPart::Assistant];
    assert(project@ =~= project_tool_dirs());
    let mut i: usize = 0;
    assert(out@.map_values(|c: RootCandidate| candidate_view(c)) =~= ancestor_roots(0));
    while i < num_ancestors
        invariant
            0 <= i <= num_ancestors,
            project@ == project_tool_dirs(),
            out@.map_values(|c: RootCandidate| candidate_view(c)) == ancestor_roots(i as nat),
        decreases num_ancestors - i,
    {
        push_prefixed(&mut out, RootBase::Ancestor(i), &project);
        i = i + 1;
    }
    let ghost after_ancestors = out@.map_values(|c: RootCandidate| candidate_view(c));
    if has_home {
        let home_dirs = vec![PathPart::Omc, PathPart::Claw, PathPart::Codex, PathPart::Assistant];
        assert(home_dirs@ =~= home_tool_dirs());
        push_prefixed(&mut out, RootBase::Home, &home_dirs);
        let ghost mid = out@;
        let a = RootCandidate { base: RootBase::Home, parts: vec![PathPart::Agents, PathPart::Skills] };
        let b = RootCandidate {
            base: RootBase::Home,
            parts: vec![PathPart::Config, PathPart::Opencode, PathPart::Skills],
        };
        let c = RootCandidate {
            base: RootBase::Home,
            parts: vec![PathPart::Assistant, PathPart::Skills, PathPart::OmcLearned],
        };
        assert(a.parts@ =~= seq![PathPart::Agents, PathPart::Skills]);
        assert(b.parts@ =~= seq![PathPart::Config, PathPart::Opencode, PathPart::Skills]);
        assert(c.parts@ =~= seq![PathPart::Assistant, PathPart::Skills, PathPart::OmcLearned]);
        out.push(a);
        out.push(b);
        out.push(c);
        proof {
            let mv = mid.map_values(|x: RootCandidate| candidate_view(x));
            assert(mv == after_ancestors + prefixed_roots(RootBase::Home, home_tool_dirs()));
            assert(out@ =~= mid.push(a).push(b).push(c));
            assert(out@.map_values(|x: RootCandidate| candidate_view(x)) =~= mv + seq![
                candidate_view(a),
                candidate_view(b),
                candidate_view(c),
            ]);
            assert(candidate_view(a) == (RootBase::Home, seq![PathPart::Agents, PathPart::Skills]));
            assert(candidate_view(b) == (RootBase::Home, seq![PathPart::Config, PathPart::Opencode, PathPart::Skills]));
            assert(candidate_view(c) == (RootBase::Home, seq![PathPart::Assistant, PathPart::Skills, PathPart::OmcLearned]));
            assert(out@.map_values(|x: RootCandidate| candidate_view(x)) =~= after_ancestors + home_roots());
        }
    } else {
        assert(after_ancestors + Seq::<(RootBase, Seq<PathPart>)>::empty() =~= after_ancestors);
    }
    let ghost after_home = out@.map_values(|c: RootCandidate| candidate_view(c));
    let mut k: usize = 0;
    assert(after_home + config_roots(0) =~= after_home);
    while k < num_config_homes
        invariant
            0 <= k <= num_config_homes,
            out@.map_values(|c: RootCandidate| candidate_view(c)) == after_home + config_roots(k as nat),
        decreases num_config_homes - k,
    {
        let ghost prev = out@;
        let ghost old_k = k;
        let cand = RootCandidate { base: RootBase::ConfigHome(k), parts: vec![PathPart::Skills] };
        assert(cand.parts@ =~= seq![PathPart::Skills]);
        out.push(cand);
        k = k + 1;
        proof {
            assert(config_roots(k as nat) == config_roots(old_k as nat) + seq![
                (RootBase::ConfigHome(old_k), seq![PathPart::Skills]),
            ]);
            assert(candidate_view(cand) == (RootBase::ConfigHome(old_k), seq![PathPart::Skills]));
            assert(out@ =~= prev.push(cand));
            let pv = prev.map_values(|c: RootCandidate| candidate_view(c));
            assert(pv == after_home + config_roots(old_k as nat));
            assert(out@.map_values(|c: RootCandidate| candidate_view(c)) =~= pv.push(candidate_view(cand)));
            assert(out@.map_values(|c: RootCandidate| candidate_view(c)) =~= after_home + config_roots(k as nat));
        }
    }
    out
}

} // verus!
