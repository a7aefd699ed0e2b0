use vstd::prelude::*;

use crate::system::{contains_string, ExtensionSystem, SystemSpec};

verus! {

/// Whether `x` sits in one of the first `k` stages.
pub open spec fn placed_before(stages: Seq<Seq<usize>>, k: int, x: usize) -> bool {
    exists|j: int| 0 <= j < k && #[trigger] stages[j].contains(x)
}

/// Every dependency of `x` sits in one of the first `k` stages.
pub open spec fn deps_placed_before(deps: Seq<Seq<usize>>, stages: Seq<Seq<usize>>, k: int, x: usize) -> bool {
    forall|e: int| 0 <= e < deps[x as int].len() ==> placed_before(stages, k, #[trigger] deps[x as int][e])
}

/// `x` is not yet placed when stage `k` opens, and everything it depends on is.
pub open spec fn ready_at(deps: Seq<Seq<usize>>, stages: Seq<Seq<usize>>, k: int, x: usize) -> bool {
    &&& x < deps.len()
    &&& !placed_before(stages, k, x)
    &&& deps_placed_before(deps, stages, k, x)
}

pub open spec fn strictly_increasing(s: Seq<usize>) -> bool {
    forall|a: int, b: int| 0 <= a < b < s.len() ==> s[a] < s[b]
}

/// Every dependency index names a member of the list.
pub open spec fn deps_in_range(deps: Seq<Seq<usize>>) -> bool {
    forall|i: int, e: int|
        0 <= i < deps.len() && 0 <= e < deps[i].len() ==> #[trigger] deps[i][e] < deps.len()
}

/// The stages of a dependency list, as topological layering builds them: stage `k` holds,
/// in increasing order, exactly the members that are not in an earlier stage and whose
/// dependencies all are; every stage is non-empty and every member is placed. An empty
/// list has a single empty stage.
pub open spec fn is_layering(deps: Seq<Seq<usize>>, stages: Seq<Seq<usize>>) -> bool {
    if deps.len() == 0 {
        stages == seq![Seq::<usize>::empty()]
    } else {
        &&& forall|k: int, x: usize| 0 <= k < stages.len() ==>
                (#[trigger] stages[k].contains(x) <==> ready_at(deps, stages, k, x))
        &&& forall|k: int| 0 <= k < stages.len() ==> strictly_increasing(#[trigger] stages[k])
        &&& forall|k: int| 0 <= k < stages.len() ==> (#[trigger] stages[k]).len() > 0
        &&& forall|x: usize| x < deps.len() ==> placed_before(stages, stages.len() as int, x)
    }
}

/// A run order: every member appears in some stage, and each member's dependencies
/// appear in strictly earlier stages.
pub open spec fn respects_deps(deps: Seq<Seq<usize>>, stages: Seq<Seq<usize>>) -> bool {
    &&& forall|x: usize| x < deps.len() ==> placed_before(stages, stages.len() as int, x)
    &&& forall|k: int, x: usize| 0 <= k < stages.len() && #[trigger] stages[k].contains(x) ==>
            x < deps.len() && deps_placed_before(deps, stages, k, x)
}

/// A non-empty set of members each of which depends on a member of the set: no run
/// order can exist.
pub open spec fn is_cycle_witness(deps: Seq<Seq<usize>>, r: Seq<usize>) -> bool {
    &&& r.len() > 0
    &&& forall|a: int| 0 <= a < r.len() ==> (#[trigger] r[a]) < deps.len()
    &&& forall|a: int| 0 <= a < r.len() ==> depends_within(deps, r, #[trigger] r[a])
}

/// Some dependency of `x` is a member of `r`.
pub open spec fn depends_within(deps: Seq<Seq<usize>>, r: Seq<usize>, x: usize) -> bool {
    exists|e: int| 0 <= e < deps[x as int].len() && r.contains(#[trigger] deps[x as int][e])
}

pub open spec fn count_unplaced(s: Seq<bool>) -> nat
    decreases s.len(),
{
    if s.len() == 0 {
        0
    } else {
        count_unplaced(s.drop_last()) + if s.last() { 0nat } else { 1nat }
    }
}

proof fn lemma_count_bounded(s: Seq<bool>)
    ensures
        count_unplaced(s) <= s.len(),
        count_unplaced(s) > 0 ==> exists|i: int| 0 <= i < s.len() && !s[i],
    decreases s.len(),
{
    if s.len() > 0 {
        lemma_count_bounded(s.drop_last());
        if count_unplaced(s.drop_last()) > 0 {
            let i = choose|i: int| 0 <= i < s.drop_last().len() && !s.drop_last()[i];
            assert(!s[i]);
        } else if !s.last() {
            assert(!s[s.len() - 1]);
        }
    }
}

proof fn lemma_count_mark(s: Seq<bool>, i: int)
    requires
        0 <= i < s.len(),
        !s[i],
    ensures
        count_unplaced(s.update(i, true)) + 1 == count_unplaced(s),
    decreases s.len(),
{
    let t = s.update(i, true);
    if i == s.len() - 1 {
        assert(t.drop_last() =~= s.drop_last());
    } else {
        assert(t.drop_last() =~= s.drop_last().update(i, true));
        lemma_count_mark(s.drop_last(), i);
    }
}

/// A layering is a run order.
pub proof fn lemma_layering_respects_deps(deps: Seq<Seq<usize>>, stages: Seq<Seq<usize>>)
    requires
        is_layering(deps, stages),
    ensures
        respects_deps(deps, stages),
{
    if deps.len() == 0 {
        assert forall|k: int, x: usize| 0 <= k < stages.len() && #[trigger] stages[k].contains(x) implies
            x < deps.len() && deps_placed_before(deps, stages, k, x) by {
            assert(stages[k] == Seq::<usize>::empty());
        }
    }
}

proof fn lemma_no_member_before(deps: Seq<Seq<usize>>, r: Seq<usize>, stages: Seq<Seq<usize>>, k: int)
    requires
        respects_deps(deps, stages),
        is_cycle_witness(deps, r),
        0 <= k <= stages.len(),
    ensures
        forall|x: usize| r.contains(x) ==> !placed_before(stages, k, x),
    decreases k,
{
    if k > 0 {
        lemma_no_member_before(deps, r, stages, k - 1);
        assert forall|x: usize| r.contains(x) implies !placed_before(stages, k, x) by {
            if placed_before(stages, k, x) {
                let j = choose|j: int| 0 <= j < k && #[trigger] stages[j].contains(x);
                if j < k - 1 {
                    assert(placed_before(stages, k - 1, x));
                } else {
                    let a = choose|a: int| 0 <= a < r.len() && r[a] == x;
                    assert(depends_within(deps, r, r[a]));
                    let e = choose|e: int| 0 <= e < deps[x as int].len() && r.contains(#[trigger] deps[x as int][e]);
                    assert(placed_before(stages, k - 1, deps[x as int][e]));
                }
            }
        }
    }
}

/// When some members each depend on another of them, no run order of the list exists.
pub proof fn lemma_cycle_has_no_run_order(deps: Seq<Seq<usize>>, r: Seq<usize>, stages: Seq<Seq<usize>>)
    requires
        is_cycle_witness(deps, r),
    ensures
        !respects_deps(deps, stages),
{
    if respects_deps(deps, stages) {
        lemma_no_member_before(deps, r, stages, stages.len() as int);
        assert(r.contains(r[0]));
        assert(placed_before(stages, stages.len() as int, r[0]));
    }
}

/// Whether every index in `d` is marked in `placed`.
fn all_placed(d: &Vec<usize>, placed: &Vec<bool>) -> (r: bool)
    requires
        forall|e: int| 0 <= e < d.len() ==> #[trigger] d[e] < placed.len(),
    ensures
        r == forall|e: int| 0 <= e < d.len() ==> placed[#[trigger] d[e] as int],
{
    let mut e: usize = 0;
    while e < d.len()
        invariant
            e <= d.len(),
            forall|e: int| 0 <= e < d.len() ==> #[trigger] d[e] < placed.len(),
            forall|f: int| 0 <= f < e ==> placed[#[trigger] d[f] as int],
        decreases d.len() - e,
    {
        if !placed[d[e]] {
            return false;
        }
        e = e + 1;
    }
    true
}

/// `x` is unplaced and every dependency of it is placed.
pub open spec fn ready_in(deps: Seq<Seq<usize>>, placed: Seq<bool>, x: usize) -> bool {
    &&& x < deps.len()
    &&& !placed[x as int]
    &&& forall|e: int| 0 <= e < deps[x as int].len() ==> placed[#[trigger] deps[x as int][e] as int]
}

/// The members that are ready to run once the marked ones have, in increasing order.
fn ready_members(deps: &Vec<Vec<usize>>, placed: &Vec<bool>) -> (current: Vec<usize>)
    requires
        deps_in_range(deps.deep_view()),
        placed.len() == deps.len(),
    ensures
        forall|x: usize| current@.contains(x) <==> ready_in(deps.deep_view(), placed@, x),
        strictly_increasing(current@),
        forall|a: int| 0 <= a < current.len() ==> #[trigger] current@[a] < deps.len(),
{
    let ghost dv = deps.deep_view();
    let n = deps.len();
    let mut current: Vec<usize> = Vec::new();
    let mut i: usize = 0;
    while i < n
        invariant
            i <= n,
            n == deps.len(),
            dv == deps.deep_view(),
            deps_in_range(dv),
            placed.len() == n,
            forall|x: usize| current@.contains(x) <==> (x < i && ready_in(dv, placed@, x)),
            strictly_increasing(current@),
            forall|a: int| 0 <= a < current.len() ==> #[trigger] current@[a] < i,
        decreases n - i,
    {
        assert(forall|e: int| 0 <= e < deps[i as int].len() ==> #[trigger] deps[i as int][e] == dv[i as int][e]);
        let ok = !placed[i] && all_placed(&deps[i], &placed);
        assert(dv[i as int].len() == deps[i as int].len());
        assert(ok == ready_in(dv, placed@, i));
        let ghost prev = current@;
        if ok {
            current.push(i);
            proof {
                lemma_push_contains(prev, i);
                assert forall|x: usize| current@.contains(x) <==> (x < i + 1 && ready_in(dv, placed@, x)) by {
                    assert(current@.contains(x) <==> (prev.contains(x) || x == i));
                }
            }
        } else {
            assert(!current@.contains(i));
        }
        i = i + 1;
    }
    current
}

/// The members not yet marked, in increasing order.
fn unplaced_members(placed: &Vec<bool>) -> (rest: Vec<usize>)
    ensures
        forall|x: usize| rest@.contains(x) <==> (x < placed.len() && !placed@[x as int]),
        forall|a: int| 0 <= a < rest.len() ==> #[trigger] rest@[a] < placed.len(),
{
    let n = placed.len();
    let mut rest: Vec<usize> = Vec::new();
    let mut j: usize = 0;
    while j < n
        invariant
            j <= n,
            placed.len() == n,
            forall|x: usize| rest@.contains(x) <==> (x < j && !placed@[x as int]),
            forall|a: int| 0 <= a < rest.len() ==> #[trigger] rest@[a] < j,
        decreases n - j,
    {
        let ghost prev = rest@;
        if !placed[j] {
            rest.push(j);
            proof {
                lemma_push_contains(prev, j);
            }
        }
        j = j + 1;
    }
    rest
}

/// Marks every member of `current`; each was unmarked.
fn mark_all(placed: &mut Vec<bool>, current: &Vec<usize>, left: usize) -> (r: usize)
    requires
        strictly_increasing(current@),
        forall|a: int| 0 <= a < current.len() ==> #[trigger] current@[a] < old(placed).len(),
        forall|a: int| 0 <= a < current.len() ==> !old(placed)@[#[trigger] current@[a] as int],
        left == count_unplaced(old(placed)@),
    ensures
        final(placed).len() == old(placed).len(),
        forall|x: int| 0 <= x < old(placed).len() ==>
            (final(placed)@[x] <==> (old(placed)@[x] || current@.contains(x as usize))),
        r + current.len() == left,
        r == count_unplaced(final(placed)@),
{
    let ghost before = placed@;
    let n = placed.len();
    let mut left = left;
    let mut c: usize = 0;
    assert(current@.subrange(0, 0) =~= Seq::<usize>::empty());
    while c < current.len()
        invariant
            c <= current.len(),
            placed.len() == n,
            n == before.len(),
            strictly_increasing(current@),
            forall|a: int| 0 <= a < current.len() ==> #[trigger] current@[a] < n,
            forall|a: int| 0 <= a < current.len() ==> !before[#[trigger] current@[a] as int],
            forall|x: int| 0 <= x < n ==> (placed@[x] <==> (before[x] || current@.subrange(0, c as int).contains(x as usize))),
            left + c == count_unplaced(before),
            left == count_unplaced(placed@),
        decreases current.len() - c,
    {
        let x = current[c];
        assert(!current@.subrange(0, c as int).contains(x)) by {
            if current@.subrange(0, c as int).contains(x) {
                let a = choose|a: int| 0 <= a < c && current@.subrange(0, c as int)[a] == x;
                assert(current@[a] < current@[c as int]);
            }
        }
        proof {
            lemma_count_mark(placed@, x as int);
            lemma_count_bounded(placed@);
        }
        placed.set(x, true);
        left = left - 1;
        assert(current@.subrange(0, c + 1) =~= current@.subrange(0, c as int).push(x));
        proof {
            lemma_push_contains(current@.subrange(0, c as int), x);
        }
        c = c + 1;
    }
    assert(current@.subrange(0, c as int) =~= current@);
    left
}

/// Appending a stage keeps what the earlier stages say.
proof fn lemma_push_stage(deps: Seq<Seq<usize>>, sv: Seq<Seq<usize>>, cur: Seq<usize>)
    ensures
        forall|j: int, x: usize| 0 <= j <= sv.len() ==>
            (placed_before(sv.push(cur), j, x) <==> placed_before(sv, j, x)),
        forall|j: int, x: usize| 0 <= j <= sv.len() && x < deps.len() ==>
            (ready_at(deps, sv.push(cur), j, x) <==> ready_at(deps, sv, j, x)),
        forall|x: usize| placed_before(sv.push(cur), sv.len() + 1 as int, x) <==> (placed_before(sv, sv.len() as int, x) || cur.contains(x)),
{
    let nv = sv.push(cur);
    let k = sv.len() as int;
    assert forall|j: int, x: usize| 0 <= j <= k implies
        (placed_before(nv, j, x) <==> placed_before(sv, j, x)) by {
        if placed_before(nv, j, x) {
            let jj = choose|jj: int| 0 <= jj < j && #[trigger] nv[jj].contains(x);
            assert(sv[jj].contains(x));
        }
        if placed_before(sv, j, x) {
            let jj = choose|jj: int| 0 <= jj < j && #[trigger] sv[jj].contains(x);
            assert(nv[jj].contains(x));
        }
    }
    assert forall|j: int, x: usize| 0 <= j <= k && x < deps.len() implies
        (ready_at(deps, nv, j, x) <==> ready_at(deps, sv, j, x)) by {
        assert forall|e: int| 0 <= e < deps[x as int].len() implies
            (placed_before(nv, j, #[trigger] deps[x as int][e]) <==> placed_before(sv, j, deps[x as int][e])) by {}
    }
    assert forall|x: usize| placed_before(nv, k + 1, x) <==> (placed_before(sv, k, x) || cur.contains(x)) by {
        if cur.contains(x) {
            assert(nv[k].contains(x));
        }
        if placed_before(sv, k, x) {
            let jj = choose|jj: int| 0 <= jj < k && #[trigger] sv[jj].contains(x);
            assert(nv[jj].contains(x));
        }
        if placed_before(nv, k + 1, x) {
            let jj = choose|jj: int| 0 <= jj < k + 1 && #[trigger] nv[jj].contains(x);
            if jj < k {
                assert(sv[jj].contains(x));
            }
        }
    }
}

/// Layers a dependency list into stages: each stage holds the members whose dependencies
/// all lie in earlier stages. Fails with the members that could not be placed when the
/// dependencies form a cycle.
pub fn construct_run_order(deps: &Vec<Vec<usize>>) -> (r: Result<Vec<Vec<usize>>, Vec<usize>>)
    requires
        deps_in_range(deps.deep_view()),
    ensures
        match r {
            Ok(stages) => is_layering(deps.deep_view(), stages.deep_view()),
            Err(rest) => is_cycle_witness(deps.deep_view(), rest@),
        },
{
    let ghost dv = deps.deep_view();
    let n = deps.len();
    if n == 0 {
        let mut stages: Vec<Vec<usize>> = Vec::new();
        stages.push(Vec::new());
        assert(stages.deep_view()[0] =~= Seq::<usize>::empty());
        assert(stages.deep_view() =~= seq![Seq::<usize>::empty()]);
        return Ok(stages);
    }
    let mut placed: Vec<bool> = Vec::new();
    let mut i: usize = 0;
    while i < n
        invariant
            i <= n,
            placed.len() == i,
            forall|x: int| 0 <= x < i ==> !placed[x],
            count_unplaced(placed@) == i,
        decreases n - i,
    {
        assert(placed@.push(false).drop_last() =~= placed@);
        placed.push(false);
        i = i + 1;
    }
    let mut stages: Vec<Vec<usize>> = Vec::new();
    let mut left: usize = n;
    while left > 0
        invariant
            n == deps.len(),
            dv == deps.deep_view(),
            deps_in_range(dv),
            placed.len() == n,
            left == count_unplaced(placed@),
            forall|x: usize| x < n ==> (placed@[x as int] <==> placed_before(stages.deep_view(), stages.len() as int, x)),
            forall|k: int, x: usize| 0 <= k < stages.len() ==>
                (#[trigger] stages.deep_view()[k].contains(x) <==> ready_at(dv, stages.deep_view(), k, x)),
            forall|k: int| 0 <= k < stages.len() ==> strictly_increasing(#[trigger] stages.deep_view()[k]),
            forall|k: int| 0 <= k < stages.len() ==> (#[trigger] stages.deep_view()[k]).len() > 0,
        decreases left,
    {
        let ghost sv = stages.deep_view();
        let ghost k = stages.len() as int;
        let current = ready_members(deps, &placed);
        proof {
            lemma_ready_matches(dv, placed@, sv, k);
        }
        if current.len() == 0 {
            proof {
                lemma_count_bounded(placed@);
            }
            let rest = unplaced_members(&placed);
            proof {
                assert forall|x: usize| !ready_in(dv, placed@, x) by {
                    if ready_in(dv, placed@, x) {
                        assert(current@.contains(x));
                    }
                }
                lemma_cycle_witness(dv, placed@, rest@);
            }
            return Err(rest);
        }
        assert forall|a: int| 0 <= a < current.len() implies !placed@[#[trigger] current@[a] as int] by {
            assert(current@.contains(current@[a]));
        }
        left = mark_all(&mut placed, &current, left);
        let ghost cur = current@;
        assert(current.deep_view() =~= cur);
        stages.push(current);
        proof {
            let nv = stages.deep_view();
            assert(nv =~= sv.push(cur));
            lemma_push_stage(dv, sv, cur);
            assert forall|j: int, x: usize| 0 <= j < k + 1 implies
                (#[trigger] nv[j].contains(x) <==> ready_at(dv, nv, j, x)) by {
                if j < k {
                    assert(nv[j] == sv[j]);
                    if x >= n {
                        assert(!sv[j].contains(x));
                    }
                } else if x >= n {
                    assert(!cur.contains(x));
                }
            }
            assert forall|j: int| 0 <= j < k + 1 implies strictly_increasing(#[trigger] nv[j]) by {
                if j < k {
                    assert(nv[j] == sv[j]);
                }
            }
            assert forall|j: int| 0 <= j < k + 1 implies (#[trigger] nv[j]).len() > 0 by {
                if j < k {
                    assert(nv[j] == sv[j]);
                }
            }
        }
    }
    proof {
        let nv = stages.deep_view();
        assert forall|x: usize| x < dv.len() implies placed_before(nv, nv.len() as int, x) by {
            if !placed@[x as int] {
                lemma_count_bounded(placed@);
                lemma_unplaced_counted(placed@, x as int);
            }
        }
    }
    Ok(stages)
}

proof fn lemma_ready_matches(dv: Seq<Seq<usize>>, placed: Seq<bool>, sv: Seq<Seq<usize>>, k: int)
    requires
        deps_in_range(dv),
        placed.len() == dv.len(),
        forall|x: usize| x < dv.len() ==> (placed[x as int] <==> placed_before(sv, k, x)),
    ensures
        forall|x: usize| x < dv.len() ==> (ready_in(dv, placed, x) <==> ready_at(dv, sv, k, x)),
{
    assert forall|x: usize| x < dv.len() implies (ready_in(dv, placed, x) <==> ready_at(dv, sv, k, x)) by {
        assert forall|e: int| 0 <= e < dv[x as int].len() implies
            (placed[#[trigger] dv[x as int][e] as int] <==> placed_before(sv, k, dv[x as int][e])) by {
            assert(dv[x as int][e] < dv.len());
        }
    }
}

proof fn lemma_cycle_witness(dv: Seq<Seq<usize>>, placed: Seq<bool>, rest: Seq<usize>)
    requires
        deps_in_range(dv),
        placed.len() == dv.len(),
        placed.len() <= usize::MAX,
        forall|x: usize| !ready_in(dv, placed, x),
        exists|u: int| 0 <= u < placed.len() && !placed[u],
        forall|x: usize| rest.contains(x) <==> (x < placed.len() && !placed[x as int]),
        forall|a: int| 0 <= a < rest.len() ==> #[trigger] rest[a] < placed.len(),
    ensures
        is_cycle_witness(dv, rest),
{
    let u = choose|u: int| 0 <= u < placed.len() && !placed[u];
    assert(rest.contains(u as usize));
    assert forall|a: int| 0 <= a < rest.len() implies depends_within(dv, rest, #[trigger] rest[a]) by {
        let x = rest[a];
        assert(rest.contains(x));
        assert(!ready_in(dv, placed, x));
        let e = choose|e: int| 0 <= e < dv[x as int].len() && !placed[#[trigger] dv[x as int][e] as int];
        assert(dv[x as int][e] < dv.len());
        assert(rest.contains(dv[x as int][e]));
    }
}

proof fn lemma_push_contains<A>(s: Seq<A>, v: A)
    ensures
        forall|x: A| s.push(v).contains(x) <==> (s.contains(x) || x == v),
{
    assert forall|x: A| s.push(v).contains(x) implies (s.contains(x) || x == v) by {
        let a = choose|a: int| 0 <= a < s.push(v).len() && s.push(v)[a] == x;
        if a < s.len() {
            assert(s[a] == x);
        }
    }
    assert forall|x: A| s.contains(x) implies s.push(v).contains(x) by {
        let a = choose|a: int| 0 <= a < s.len() && s[a] == x;
        assert(s.push(v)[a] == x);
    }
    assert(s.push(v)[s.len() as int] == v);
}

proof fn lemma_unplaced_counted(s: Seq<bool>, i: int)
    requires
        0 <= i < s.len(),
        !s[i],
    ensures
        count_unplaced(s) > 0,
{
    lemma_count_mark(s, i);
}

/// What went wrong while compiling workloads.
pub enum WorkloadError {
    /// `system` asks to run after `dependency`, which no system of its group is.
    MissingDependency { system: String, dependency: String },
    /// The systems of `group` named here could not be ordered: each waits on one of them.
    /// `waiting_on` lists, for each of them, the ids of the systems it depends on.
    CycleInWorkload { group: String, systems: Vec<String>, waiting_on: Vec<Vec<String>> },
    /// Two systems share `id`.
    DuplicateSystem { id: String },
}

pub open spec fn specs_of(m: Seq<&ExtensionSystem>) -> Seq<SystemSpec> {
    m.map_values(|s: &ExtensionSystem| s@)
}

/// Some member is named `id`.
pub open spec fn has_id(m: Seq<SystemSpec>, id: Seq<char>) -> bool {
    exists|j: int| 0 <= j < m.len() && (#[trigger] m[j]).id == id
}

/// `j` is the first member named `id`.
pub open spec fn first_with_id(m: Seq<SystemSpec>, id: Seq<char>, j: int) -> bool {
    &&& 0 <= j < m.len()
    &&& m[j].id == id
    &&& forall|k: int| 0 <= k < j ==> (#[trigger] m[k]).id != id
}

/// The members among the first `n`, other than `i`, that ask to run before `i`, in order.
pub open spec fn before_deps(m: Seq<SystemSpec>, i: int, n: int) -> Seq<usize>
    decreases n,
{
    if n <= 0 {
        Seq::empty()
    } else {
        let p = before_deps(m, i, n - 1);
        if n - 1 != i && m[n - 1].run_before.contains(m[i].id) {
            p.push((n - 1) as usize)
        } else {
            p
        }
    }
}

/// The dependency list of member `i`: for each id it runs after, the member of that id;
/// then every other member that runs before it.
pub open spec fn is_dep_list(m: Seq<SystemSpec>, i: int, d: Seq<usize>) -> bool {
    let ra = m[i].run_after;
    &&& d.len() == ra.len() + before_deps(m, i, m.len() as int).len()
    &&& forall|a: int| 0 <= a < ra.len() ==> first_with_id(m, ra[a], #[trigger] d[a] as int)
    &&& d.subrange(ra.len() as int, d.len() as int) == before_deps(m, i, m.len() as int)
}

/// Every id that a member runs after names a member.
pub open spec fn resolvable(m: Seq<SystemSpec>) -> bool {
    forall|i: int, a: int| 0 <= i < m.len() && 0 <= a < m[i].run_after.len() ==>
        has_id(m, #[trigger] m[i].run_after[a])
}

proof fn lemma_before_deps(m: Seq<SystemSpec>, i: int, n: int)
    requires
        0 <= i < m.len(),
        0 <= n <= m.len(),
        m.len() <= usize::MAX,
    ensures
        forall|j: usize| before_deps(m, i, n).contains(j) <==>
            (j < n && j != i && m[j as int].run_before.contains(m[i].id)),
        forall|a: int| 0 <= a < before_deps(m, i, n).len() ==> #[trigger] before_deps(m, i, n)[a] < n,
    decreases n,
{
    if n > 0 {
        lemma_before_deps(m, i, n - 1);
        let p = before_deps(m, i, n - 1);
        let c = n - 1 != i && m[n - 1].run_before.contains(m[i].id);
        if c {
            lemma_push_contains(p, (n - 1) as usize);
            assert(before_deps(m, i, n) == p.push((n - 1) as usize));
        } else {
            assert(before_deps(m, i, n) == p);
        }
        assert forall|j: usize| before_deps(m, i, n).contains(j) <==>
            (j < n && j != i && m[j as int].run_before.contains(m[i].id)) by {
            assert(p.contains(j) <==> (j < n - 1 && j != i && m[j as int].run_before.contains(m[i].id)));
            if j as int == n - 1 {
                if !c {
                    assert(!p.contains(j));
                }
            }
        }
    }
}

/// The index of the first member named `id`.
fn find_id(members: &Vec<&ExtensionSystem>, id: &String) -> (r: Option<usize>)
    ensures
        match r {
            Some(j) => first_with_id(specs_of(members@), id@, j as int),
            None => !has_id(specs_of(members@), id@),
        },
{
    let ghost m = specs_of(members@);
    let mut j: usize = 0;
    while j < members.len()
        invariant
            j <= members.len(),
            m == specs_of(members@),
            forall|k: int| 0 <= k < j ==> (#[trigger] m[k]).id != id@,
        decreases members.len() - j,
    {
        if members[j].id == *id {
            return Some(j);
        }
        j = j + 1;
    }
    None
}

/// Member `i`'s dependency list, or the first id it runs after that names no member.
fn member_deps(members: &Vec<&ExtensionSystem>, i: usize) -> (r: Result<Vec<usize>, usize>)
    requires
        i < members.len(),
    ensures
        match r {
            Ok(d) => is_dep_list(specs_of(members@), i as int, d@)
                && forall|a: int| 0 <= a < specs_of(members@)[i as int].run_after.len() ==>
                    has_id(specs_of(members@), #[trigger] specs_of(members@)[i as int].run_after[a]),
            Err(a) => a < specs_of(members@)[i as int].run_after.len()
                && !has_id(specs_of(members@), specs_of(members@)[i as int].run_after[a as int]),
        },
{
    let ghost m = specs_of(members@);
    let s = members[i];
    let ghost ra = m[i as int].run_after;
    assert(ra == s.run_after.deep_view());
    let mut d: Vec<usize> = Vec::new();
    let mut a: usize = 0;
    while a < s.run_after.len()
        invariant
            a <= s.run_after.len(),
            m == specs_of(members@),
            ra == s.run_after.deep_view(),
            ra == m[i as int].run_after,
            d.len() == a,
            forall|b: int| 0 <= b < a ==> first_with_id(m, ra[b], #[trigger] d@[b] as int),
        decreases s.run_after.len() - a,
    {
        assert(s.run_after[a as int]@ == ra[a as int]);
        match find_id(members, &s.run_after[a]) {
            Some(j) => {
                d.push(j);
            },
            None => {
                assert(!has_id(m, ra[a as int]));
                return Err(a);
            },
        }
        a = a + 1;
    }
    let ghost na = d.len();
    let n = members.len();
    let mut j: usize = 0;
    while j < n
        invariant
            j <= n,
            n == members.len(),
            m == specs_of(members@),
            ra == m[i as int].run_after,
            i < n,
            m[i as int].id == s.id@,
            na == ra.len(),
            d.len() >= na,
            forall|b: int| 0 <= b < na ==> first_with_id(m, ra[b], #[trigger] d@[b] as int),
            d@.subrange(na as int, d.len() as int) == before_deps(m, i as int, j as int),
        decreases n - j,
    {
        let ghost prev = d@;
        assert(m[j as int].run_before == members[j as int].run_before.deep_view());
        assert(m[i as int].id == s.id@);
        if j != i && contains_string(&members[j].run_before, &s.id) {
            d.push(j);
            assert(d@.subrange(na as int, d.len() as int) =~= prev.subrange(na as int, prev.len() as int).push(j));
        }
        j = j + 1;
    }
    proof {
        assert forall|b: int| 0 <= b < ra.len() implies has_id(m, #[trigger] ra[b]) by {
            assert(first_with_id(m, ra[b], d@[b] as int));
        }
    }
    Ok(d)
}

/// The dependency lists of the members of one group.
pub fn group_deps(members: &Vec<&ExtensionSystem>) -> (r: Result<Vec<Vec<usize>>, WorkloadError>)
    ensures
        r is Ok <==> resolvable(specs_of(members@)),
        match r {
            Ok(deps) => deps.len() == members.len()
                && forall|i: int| 0 <= i < members.len() ==> is_dep_list(specs_of(members@), i, #[trigger] deps@[i]@),
            Err(WorkloadError::MissingDependency { system, dependency }) =>
                exists|i: int| 0 <= i < members.len()
                    && (#[trigger] specs_of(members@)[i]).id == system@
                    && specs_of(members@)[i].run_after.contains(dependency@)
                    && !has_id(specs_of(members@), dependency@),
            Err(_) => false,
        },
{
    let ghost m = specs_of(members@);
    let mut deps: Vec<Vec<usize>> = Vec::new();
    let mut i: usize = 0;
    while i < members.len()
        invariant
            i <= members.len(),
            m == specs_of(members@),
            deps.len() == i,
            forall|k: int| 0 <= k < i ==> is_dep_list(m, k, #[trigger] deps@[k]@),
            forall|k: int, a: int| 0 <= k < i && 0 <= a < m[k].run_after.len() ==>
                has_id(m, #[trigger] m[k].run_after[a]),
        decreases members.len() - i,
    {
        match member_deps(members, i) {
            Ok(d) => {
                deps.push(d);
            },
            Err(a) => {
                let s = members[i];
                let system = s.id.clone();
                let dependency = s.run_after[a].clone();
                proof {
                    assert(m[i as int].run_after[a as int] == dependency@);
                    assert(m[i as int].run_after.contains(dependency@));
                }
                return Err(WorkloadError::MissingDependency { system, dependency });
            },
        }
        i = i + 1;
    }
    Ok(deps)
}

proof fn lemma_dep_lists_in_range(m: Seq<SystemSpec>, deps: Seq<Seq<usize>>)
    requires
        deps.len() == m.len(),
        m.len() <= usize::MAX,
        forall|i: int| 0 <= i < m.len() ==> is_dep_list(m, i, #[trigger] deps[i]),
    ensures
        deps_in_range(deps),
{
    assert forall|i: int, e: int| 0 <= i < deps.len() && 0 <= e < deps[i].len() implies #[trigger] deps[i][e] < deps.len() by {
        assert(is_dep_list(m, i, deps[i]));
        let na = m[i].run_after.len() as int;
        if e < na {
            assert(first_with_id(m, m[i].run_after[e], deps[i][e] as int));
        } else {
            lemma_before_deps(m, i, m.len() as int);
            assert(deps[i][e] == deps[i].subrange(na, deps[i].len() as int)[e - na]);
        }
    }
}

/// The ids of the members listed in `rest`.
fn ids_of(members: &Vec<&ExtensionSystem>, rest: &Vec<usize>) -> (r: Vec<String>)
    requires
        forall|a: int| 0 <= a < rest.len() ==> #[trigger] rest@[a] < members.len(),
    ensures
        r.len() == rest.len(),
        forall|a: int| 0 <= a < rest.len() ==> #[trigger] r@[a]@ == specs_of(members@)[rest@[a] as int].id,
{
    let mut r: Vec<String> = Vec::new();
    let mut a: usize = 0;
    while a < rest.len()
        invariant
            a <= rest.len(),
            r.len() == a,
            forall|a: int| 0 <= a < rest.len() ==> #[trigger] rest@[a] < members.len(),
            forall|b: int| 0 <= b < a ==> #[trigger] r@[b]@ == specs_of(members@)[rest@[b] as int].id,
        decreases rest.len() - a,
    {
        r.push(members[rest[a]].id.clone());
        a = a + 1;
    }
    r
}

/// The ids of the members listed in `d`.
pub open spec fn names_of(m: Seq<SystemSpec>, d: Seq<usize>) -> Seq<Seq<char>> {
    d.map_values(|x: usize| m[x as int].id)
}

/// For each member listed in `rest`, the ids of its dependencies.
fn dependency_ids(members: &Vec<&ExtensionSystem>, deps: &Vec<Vec<usize>>, rest: &Vec<usize>) -> (r: Vec<Vec<String>>)
    requires
        deps.len() == members.len(),
        deps_in_range(deps.deep_view()),
        forall|a: int| 0 <= a < rest.len() ==> #[trigger] rest@[a] < members.len(),
    ensures
        r.len() == rest.len(),
        forall|a: int| 0 <= a < rest.len() ==>
            (#[trigger] r@[a]).deep_view() == names_of(specs_of(members@), deps.deep_view()[rest@[a] as int]),
{
    let mut r: Vec<Vec<String>> = Vec::new();
    let mut a: usize = 0;
    while a < rest.len()
        invariant
            a <= rest.len(),
            r.len() == a,
            deps.len() == members.len(),
            deps_in_range(deps.deep_view()),
            forall|a: int| 0 <= a < rest.len() ==> #[trigger] rest@[a] < members.len(),
            forall|b: int| 0 <= b < a ==>
                (#[trigger] r@[b]).deep_view() == names_of(specs_of(members@), deps.deep_view()[rest@[b] as int]),
        decreases rest.len() - a,
    {
        let d = &deps[rest[a]];
        let ghost dv = deps.deep_view()[rest@[a as int] as int];
        assert(dv =~= d@);
        let mut names: Vec<String> = Vec::new();
        let mut e: usize = 0;
        while e < d.len()
            invariant
                e <= d.len(),
                dv == d@,
                deps.len() == members.len(),
                forall|x: int| 0 <= x < d.len() ==> #[trigger] d@[x] < members.len(),
                names.deep_view() == names_of(specs_of(members@), d@.subrange(0, e as int)),
            decreases d.len() - e,
        {
            let ghost prev = names.deep_view();
            names.push(members[d[e]].id.clone());
            assert(names.deep_view() =~= prev.push(members@[d@[e as int] as int].id@));
            assert(specs_of(members@)[d@[e as int] as int] == members@[d@[e as int] as int]@);
            assert(names.deep_view() =~= names_of(specs_of(members@), d@.subrange(0, e + 1)));
            e = e + 1;
        }
        assert(d@.subrange(0, e as int) =~= d@);
        r.push(names);
        a = a + 1;
    }
    r
}

/// Compiles the members of `group` into their dependency lists and stages.
pub fn compile_group(group: &String, members: &Vec<&ExtensionSystem>) -> (r: Result<(Vec<Vec<usize>>, Vec<Vec<usize>>), WorkloadError>)
    ensures
        match r {
            Ok((deps, stages)) => resolvable(specs_of(members@))
                && deps.len() == members.len()
                && (forall|i: int| 0 <= i < members.len() ==> is_dep_list(specs_of(members@), i, #[trigger] deps@[i]@))
                && is_layering(deps.deep_view(), stages.deep_view()),
            Err(WorkloadError::MissingDependency { system, dependency }) =>
                exists|i: int| 0 <= i < members.len()
                    && (#[trigger] specs_of(members@)[i]).id == system@
                    && specs_of(members@)[i].run_after.contains(dependency@)
                    && !has_id(specs_of(members@), dependency@),
            Err(WorkloadError::CycleInWorkload { group: g, systems, waiting_on }) =>
                g@ == group@
                && resolvable(specs_of(members@))
                && exists|deps: Seq<Seq<usize>>, rest: Seq<usize>|
                    deps.len() == members.len()
                    && (forall|i: int| 0 <= i < members.len() ==> is_dep_list(specs_of(members@), i, #[trigger] deps[i]))
                    && #[trigger] is_cycle_witness(deps, rest)
                    && systems.len() == rest.len()
                    && (forall|a: int| 0 <= a < rest.len() ==> #[trigger] systems@[a]@ == specs_of(members@)[rest[a] as int].id)
                    && waiting_on.len() == rest.len()
                    && forall|a: int| 0 <= a < rest.len() ==>
                        (#[trigger] waiting_on@[a]).deep_view() == names_of(specs_of(members@), deps[rest[a] as int]),
            Err(WorkloadError::DuplicateSystem { .. }) => false,
        },
{
    let deps = group_deps(members)?;
    proof {
        assert forall|i: int| 0 <= i < members.len() implies is_dep_list(specs_of(members@), i, #[trigger] deps.deep_view()[i]) by {
            assert(deps.deep_view()[i] =~= deps@[i]@);
        }
        lemma_dep_lists_in_range(specs_of(members@), deps.deep_view());
    }
    match construct_run_order(&deps) {
        Ok(stages) => {
            Ok((deps, stages))
        },
        Err(rest) => {
            let systems = ids_of(members, &rest);
            let waiting_on = dependency_ids(members, &deps, &rest);
            Err(WorkloadError::CycleInWorkload { group: group.clone(), systems, waiting_on })
        },
    }
}

/// When a system asks to run before another of its group, it sits in an earlier stage.
pub proof fn lemma_run_before_dispatches_first(
    m: Seq<SystemSpec>,
    deps: Seq<Seq<usize>>,
    stages: Seq<Seq<usize>>,
    a: usize,
    b: usize,
)
    requires
        deps.len() == m.len(),
        m.len() <= usize::MAX,
        forall|i: int| 0 <= i < m.len() ==> is_dep_list(m, i, #[trigger] deps[i]),
        is_layering(deps, stages),
        a < m.len(),
        b < m.len(),
        a != b,
        m[a as int].run_before.contains(m[b as int].id),
    ensures
        exists|k: int| 0 <= k < stages.len() && #[trigger] stages[k].contains(a),
        exists|k: int| 0 <= k < stages.len() && #[trigger] stages[k].contains(b),
        forall|ka: int, kb: int| 0 <= ka < stages.len() && 0 <= kb < stages.len()
            && #[trigger] stages[ka].contains(a) && #[trigger] stages[kb].contains(b) ==> ka < kb,
{
    lemma_before_deps(m, b as int, m.len() as int);
    let d = deps[b as int];
    let na = m[b as int].run_after.len() as int;
    assert(is_dep_list(m, b as int, d));
    let bd = before_deps(m, b as int, m.len() as int);
    assert(bd.contains(a));
    let t = choose|t: int| 0 <= t < bd.len() && bd[t] == a;
    assert(d[na + t] == d.subrange(na, d.len() as int)[t]);
    assert(d[na + t] == a);
    assert(placed_before(stages, stages.len() as int, a));
    assert(placed_before(stages, stages.len() as int, b));
    assert forall|ka: int, kb: int| 0 <= ka < stages.len() && 0 <= kb < stages.len()
        && #[trigger] stages[ka].contains(a) && #[trigger] stages[kb].contains(b) implies ka < kb by {
        assert(ready_at(deps, stages, kb, b));
        assert(placed_before(stages, kb, d[na + t]));
        let j = choose|j: int| 0 <= j < kb && #[trigger] stages[j].contains(a);
        assert(ready_at(deps, stages, ka, a));
        if ka >= kb {
            assert(placed_before(stages, ka, a));
        }
    }
}

} // verus!
