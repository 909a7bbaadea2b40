//! Shortest routes over the cells that are no walls. The search spreads from
//! the goal, level by level; the route then runs downhill from the start.

use vstd::prelude::*;
use vstd::seq_lib::lemma_seq_contains_after_push;
use vstd::set_lib::lemma_len_subset;
use std::collections::HashMap;
use crate::location::Location;
use crate::sight::{
    cell, clear_line, lemma_line_walks, line_point, line_steps, opaque, sees, terrain_or_wall,
};
use crate::terrain::Terrain;

verus! {

/// A route may lead over `l`: the map holds the cell, and it is no wall.
pub open spec fn walkable(t: Map<u128, Terrain>, l: Location) -> bool {
    cell(t, l) != Terrain::Wall
}

/// Whether `c` is within `k` steps of `root`, over walkable cells only.
pub open spec fn within(t: Map<u128, Terrain>, root: Location, c: Location, k: nat) -> bool
    decreases k,
{
    walkable(t, c) && (c == root || (k > 0 && {
        ||| (c.spec_neighbor(0) is Some && within(t, root, c.spec_neighbor(0)->0, (k - 1) as nat))
        ||| (c.spec_neighbor(1) is Some && within(t, root, c.spec_neighbor(1)->0, (k - 1) as nat))
        ||| (c.spec_neighbor(2) is Some && within(t, root, c.spec_neighbor(2)->0, (k - 1) as nat))
        ||| (c.spec_neighbor(3) is Some && within(t, root, c.spec_neighbor(3)->0, (k - 1) as nat))
    }))
}

/// `c` is exactly `k` steps from `root`.
pub open spec fn exactly(t: Map<u128, Terrain>, root: Location, c: Location, k: nat) -> bool {
    within(t, root, c, k) && (k > 0 ==> !within(t, root, c, (k - 1) as nat))
}

/// Some route leads from `c` to `root`.
pub open spec fn connected(t: Map<u128, Terrain>, root: Location, c: Location) -> bool {
    exists|k: nat| within(t, root, c, k)
}

/// The number of steps from `c` to `root`, where a route leads there.
pub open spec fn steps_to(t: Map<u128, Terrain>, root: Location, c: Location) -> nat {
    choose|k: nat| exactly(t, root, c, k)
}

/// The direction that undoes a step in direction `d`.
pub open spec fn opposite(d: int) -> int {
    if d == 0 {
        1
    } else if d == 1 {
        0
    } else if d == 2 {
        3
    } else {
        2
    }
}

/// A step and the step in the opposite direction lead back.
pub proof fn lemma_step_back(c: Location, d: int)
    requires
        0 <= d < 4,
        c.spec_neighbor(d) is Some,
    ensures
        c.spec_neighbor(d)->0.spec_neighbor(opposite(d)) == Some(c),
{
}

/// What is within `k` steps is within any greater number of steps.
pub proof fn lemma_within_more(t: Map<u128, Terrain>, root: Location, c: Location, k: nat, k2: nat)
    requires
        within(t, root, c, k),
        k <= k2,
    ensures
        within(t, root, c, k2),
    decreases k,
{
    if c != root {
        let j = (k - 1) as nat;
        let j2 = (k2 - 1) as nat;
        if c.spec_neighbor(0) is Some && within(t, root, c.spec_neighbor(0)->0, j) {
            lemma_within_more(t, root, c.spec_neighbor(0)->0, j, j2);
        } else if c.spec_neighbor(1) is Some && within(t, root, c.spec_neighbor(1)->0, j) {
            lemma_within_more(t, root, c.spec_neighbor(1)->0, j, j2);
        } else if c.spec_neighbor(2) is Some && within(t, root, c.spec_neighbor(2)->0, j) {
            lemma_within_more(t, root, c.spec_neighbor(2)->0, j, j2);
        } else {
            lemma_within_more(t, root, c.spec_neighbor(3)->0, j, j2);
        }
    }
}

/// A walkable cell beside one that is within `k` steps is within `k + 1`.
pub proof fn lemma_within_step(
    t: Map<u128, Terrain>,
    root: Location,
    c: Location,
    d: int,
    k: nat,
)
    requires
        0 <= d < 4,
        walkable(t, c),
        c.spec_neighbor(d) is Some,
        within(t, root, c.spec_neighbor(d)->0, k),
    ensures
        within(t, root, c, k + 1),
{
}

/// A cell within `k > 0` steps that is not the root has a neighbour within
/// `k - 1` steps.
pub proof fn lemma_within_unfold(t: Map<u128, Terrain>, root: Location, c: Location, k: nat) -> (d:
    int)
    requires
        within(t, root, c, k),
        c != root,
    ensures
        k > 0,
        0 <= d < 4,
        c.spec_neighbor(d) is Some,
        within(t, root, c.spec_neighbor(d)->0, (k - 1) as nat),
{
    let j = (k - 1) as nat;
    if c.spec_neighbor(0) is Some && within(t, root, c.spec_neighbor(0)->0, j) {
        0
    } else if c.spec_neighbor(1) is Some && within(t, root, c.spec_neighbor(1)->0, j) {
        1
    } else if c.spec_neighbor(2) is Some && within(t, root, c.spec_neighbor(2)->0, j) {
        2
    } else {
        3
    }
}

/// A cell is exactly one number of steps from the root.
pub proof fn lemma_exactly_unique(t: Map<u128, Terrain>, root: Location, c: Location, k: nat)
    requires
        exactly(t, root, c, k),
    ensures
        steps_to(t, root, c) == k,
        forall|k2: nat| within(t, root, c, k2) ==> k <= k2,
{
    let j = steps_to(t, root, c);
    if j < k {
        lemma_within_more(t, root, c, j, (k - 1) as nat);
    }
    if k < j {
        lemma_within_more(t, root, c, k, (j - 1) as nat);
    }
    assert forall|k2: nat| within(t, root, c, k2) implies k <= k2 by {
        if k2 < k {
            lemma_within_more(t, root, c, k2, (k - 1) as nat);
        }
    }
}

/// Nothing is within reach of a root that is not walkable.
pub proof fn lemma_root_walkable(t: Map<u128, Terrain>, root: Location, c: Location, k: nat)
    requires
        within(t, root, c, k),
    ensures
        walkable(t, root),
    decreases k,
{
    if c != root {
        let d = lemma_within_unfold(t, root, c, k);
        lemma_root_walkable(t, root, c.spec_neighbor(d)->0, (k - 1) as nat);
    }
}

/// A route: walkable cells from `from` to `to`, each sharing an edge with
/// the next.
pub open spec fn is_route(t: Map<u128, Terrain>, p: Seq<Location>, from: Location, to: Location) -> bool {
    &&& p.len() > 0
    &&& p[0] == from
    &&& p[p.len() - 1] == to
    &&& forall|i: int| 0 <= i < p.len() ==> walkable(t, #[trigger] p[i])
    &&& forall|i: int| 0 <= i < p.len() - 1 ==> (#[trigger] p[i]).adjacent(p[i + 1])
}

/// The first direction from `d` on in which `c` has a neighbour within `k`
/// steps of `root`; 4 if there is none.
pub open spec fn first_downhill(
    t: Map<u128, Terrain>,
    root: Location,
    c: Location,
    k: nat,
    d: int,
) -> int
    decreases 4 - d,
{
    if d >= 4 || d < 0 {
        4
    } else if c.spec_neighbor(d) is Some && within(t, root, c.spec_neighbor(d)->0, k) {
        d
    } else {
        first_downhill(t, root, c, k, d + 1)
    }
}

/// The next cell of the route from `c`, which is exactly `k > 0` steps from
/// `root`: its first neighbour, in the order +x, -x, +y, -y, that is one
/// step nearer.
pub open spec fn downhill(t: Map<u128, Terrain>, root: Location, c: Location, k: nat) -> Location {
    c.spec_neighbor(first_downhill(t, root, c, (k - 1) as nat, 0))->0
}

/// The step that leads from `from` towards `to` on the shortest route.
pub open spec fn chase_step(t: Map<u128, Terrain>, from: Location, to: Location) -> Location {
    downhill(t, to, from, steps_to(t, to, from))
}

/// The route from `c`, which is exactly `k` steps from `root`, to `root`.
pub open spec fn descent(t: Map<u128, Terrain>, root: Location, c: Location, k: nat) -> Seq<Location>
    decreases k,
{
    if k == 0 {
        seq![c]
    } else {
        seq![c] + descent(t, root, downhill(t, root, c, k), (k - 1) as nat)
    }
}

/// The first direction downhill is a direction downhill, and none before
/// it is.
pub proof fn lemma_first_downhill(t: Map<u128, Terrain>, root: Location, c: Location, k: nat, d: int)
    requires
        0 <= d <= 4,
    ensures
        d <= first_downhill(t, root, c, k, d) <= 4,
        first_downhill(t, root, c, k, d) < 4 ==> {
            let f = first_downhill(t, root, c, k, d);
            c.spec_neighbor(f) is Some && within(t, root, c.spec_neighbor(f)->0, k)
        },
        forall|e: int|
            d <= e < first_downhill(t, root, c, k, d) ==> !(c.spec_neighbor(e) is Some && within(
                t,
                root,
                #[trigger] c.spec_neighbor(e)->0,
                k,
            )),
    decreases 4 - d,
{
    if d < 4 && !(c.spec_neighbor(d) is Some && within(t, root, c.spec_neighbor(d)->0, k)) {
        lemma_first_downhill(t, root, c, k, d + 1);
    }
}

/// From a cell exactly `k > 0` steps away, the downhill neighbour is
/// exactly `k - 1` steps away.
pub proof fn lemma_downhill(t: Map<u128, Terrain>, root: Location, c: Location, k: nat)
    requires
        exactly(t, root, c, k),
        k > 0,
    ensures
        first_downhill(t, root, c, (k - 1) as nat, 0) < 4,
        exactly(t, root, downhill(t, root, c, k), (k - 1) as nat),
        c.adjacent(downhill(t, root, c, k)),
{
    let j = (k - 1) as nat;
    if c == root {
        lemma_within_more(t, root, c, 0, j);
    }
    let d = lemma_within_unfold(t, root, c, k);
    lemma_first_downhill(t, root, c, j, 0);
    let f = first_downhill(t, root, c, j, 0);
    if f >= 4 {
        assert(!(c.spec_neighbor(d) is Some && within(t, root, c.spec_neighbor(d)->0, j)));
    }
    let n = c.spec_neighbor(f)->0;
    if j > 0 && within(t, root, n, (j - 1) as nat) {
        lemma_within_step(t, root, c, f, (j - 1) as nat);
    }
    c.lemma_adjacent_is_neighbor(n);
}

/// The descent is a route of exactly `k` steps.
pub proof fn lemma_descent_is_route(t: Map<u128, Terrain>, root: Location, c: Location, k: nat)
    requires
        exactly(t, root, c, k),
    ensures
        is_route(t, descent(t, root, c, k), c, root),
        descent(t, root, c, k).len() == k + 1,
    decreases k,
{
    if k == 0 {
        if c != root {
            let d = lemma_within_unfold(t, root, c, k);
        }
    } else {
        lemma_downhill(t, root, c, k);
        let n = downhill(t, root, c, k);
        let rest = descent(t, root, n, (k - 1) as nat);
        lemma_descent_is_route(t, root, n, (k - 1) as nat);
        let p = descent(t, root, c, k);
        assert(p =~= seq![c] + rest);
        assert forall|i: int| 0 <= i < p.len() implies walkable(t, #[trigger] p[i]) by {
            if i > 0 {
                assert(p[i] == rest[i - 1]);
            }
        }
        assert forall|i: int| 0 <= i < p.len() - 1 implies (#[trigger] p[i]).adjacent(p[i + 1]) by {
            if i > 0 {
                assert(p[i] == rest[i - 1]);
                assert(p[i + 1] == rest[i]);
            } else {
                assert(p[1] == rest[0]);
            }
        }
    }
}

/// Whoever can walk a route of `n` steps to `to` is within `n` steps of it.
pub proof fn lemma_route_within(t: Map<u128, Terrain>, p: Seq<Location>, from: Location, to: Location)
    requires
        is_route(t, p, from, to),
    ensures
        within(t, to, from, (p.len() - 1) as nat),
    decreases p.len(),
{
    if p.len() == 1 {
        assert(walkable(t, p[0]));
    } else {
        let rest = p.drop_first();
        assert(rest[0] == p[1]);
        assert forall|i: int| 0 <= i < rest.len() implies walkable(t, #[trigger] rest[i]) by {
            assert(rest[i] == p[i + 1]);
        }
        assert forall|i: int| 0 <= i < rest.len() - 1 implies (#[trigger] rest[i]).adjacent(
            rest[i + 1],
        ) by {
            assert(rest[i] == p[i + 1]);
            assert(rest[i + 1] == p[i + 2]);
            assert(p[i + 1].adjacent(p[i + 2]));
        }
        lemma_route_within(t, rest, p[1], to);
        assert(p[0].adjacent(p[1]));
        from.lemma_adjacent_is_neighbor(p[1]);
        let d = choose|d: int| 0 <= d < 4 && #[trigger] from.spec_neighbor(d) == Some(p[1]);
        assert(walkable(t, p[0]));
        lemma_within_step(t, to, from, d, (rest.len() - 1) as nat);
    }
}

/// The survey up to `level`: `seen` holds exactly the cells within `level`
/// steps of `root`, each with its exact number of steps.
pub open spec fn surveyed(
    t: Map<u128, Terrain>,
    root: Location,
    seen: Map<u128, usize>,
    level: nat,
) -> bool {
    &&& forall|c: Location| #[trigger] seen.contains_key(c.key()) <==> within(t, root, c, level)
    &&& forall|c: Location| #[trigger]
        seen.contains_key(c.key()) ==> exactly(t, root, c, seen[c.key()] as nat)
    &&& forall|k: u128| #[trigger] seen.contains_key(k) ==> t.contains_key(k)
}

/// `frontier` lists the cells that `seen` holds at exactly `level` steps.
pub open spec fn rim(seen: Map<u128, usize>, frontier: Seq<Location>, level: nat) -> bool {
    forall|c: Location| #[trigger]
        frontier.contains(c) <==> seen.contains_key(c.key()) && seen[c.key()] == level
}

/// The survey while the cells at `level + 1` steps are being added: `next`
/// lists what was added to `before`.
pub open spec fn growing(
    t: Map<u128, Terrain>,
    root: Location,
    before: Map<u128, usize>,
    seen: Map<u128, usize>,
    next: Seq<Location>,
    level: nat,
) -> bool {
    &&& forall|c: Location| #[trigger] seen.contains_key(c.key()) ==> within(t, root, c, level + 1)
    &&& forall|k: u128| #[trigger]
        before.contains_key(k) ==> seen.contains_key(k) && seen[k] == before[k]
    &&& forall|c: Location| #[trigger]
        next.contains(c) <==> seen.contains_key(c.key()) && !before.contains_key(c.key())
    &&& forall|c: Location| #[trigger] next.contains(c) ==> seen[c.key()] == level + 1
    &&& forall|k: u128| #[trigger] seen.contains_key(k) ==> t.contains_key(k)
    &&& seen.dom().finite()
    &&& before.dom().finite()
    &&& seen.len() == before.len() + next.len()
}

/// Every walkable neighbour of the first `i` cells of `frontier` is in
/// `seen`.
pub open spec fn covered(
    t: Map<u128, Terrain>,
    seen: Map<u128, usize>,
    frontier: Seq<Location>,
    i: int,
) -> bool {
    forall|j: int, d: int|
        0 <= j < i && 0 <= d < 4 ==> ((#[trigger] frontier[j].spec_neighbor(d)) is Some && walkable(
            t,
            frontier[j].spec_neighbor(d)->0,
        ) ==> seen.contains_key(frontier[j].spec_neighbor(d)->0.key()))
}

/// A survey up to a level holds no cell further off than that level.
proof fn lemma_survey_bound(t: Map<u128, Terrain>, root: Location, seen: Map<u128, usize>, level: nat, c: Location)
    requires
        surveyed(t, root, seen, level),
        seen.contains_key(c.key()),
    ensures
        seen[c.key()] <= level,
{
    let v = seen[c.key()] as nat;
    if v > level {
        assert(within(t, root, c, level));
        lemma_within_more(t, root, c, level, (v - 1) as nat);
    }
}

/// When every neighbour of the frontier has been looked at, the survey is
/// complete one level further.
proof fn lemma_level_done(
    t: Map<u128, Terrain>,
    root: Location,
    before: Map<u128, usize>,
    seen: Map<u128, usize>,
    frontier: Seq<Location>,
    next: Seq<Location>,
    level: nat,
)
    requires
        surveyed(t, root, before, level),
        rim(before, frontier, level),
        growing(t, root, before, seen, next, level),
        covered(t, seen, frontier, frontier.len() as int),
    ensures
        surveyed(t, root, seen, level + 1),
        rim(seen, next, level + 1),
{
    assert forall|c: Location| within(t, root, c, level + 1) implies #[trigger] seen.contains_key(
        c.key(),
    ) by {
        if c == root {
            lemma_within_more(t, root, c, 0, level);
            assert(before.contains_key(c.key()));
        } else {
            let d = lemma_within_unfold(t, root, c, level + 1);
            let n = c.spec_neighbor(d)->0;
            assert(before.contains_key(n.key()));
            lemma_survey_bound(t, root, before, level, n);
            if before[n.key()] == level {
                assert(frontier.contains(n));
                let j = choose|j: int| 0 <= j < frontier.len() && frontier[j] == n;
                lemma_step_back(c, d);
                assert(frontier[j].spec_neighbor(opposite(d)) == Some(c));
            } else {
                let v = before[n.key()] as nat;
                assert(exactly(t, root, n, v));
                lemma_within_more(t, root, n, v, (level - 1) as nat);
                lemma_within_step(t, root, c, d, (level - 1) as nat);
                assert(before.contains_key(c.key()));
            }
        }
    }
    assert forall|c: Location| #[trigger] seen.contains_key(c.key()) implies exactly(
        t,
        root,
        c,
        seen[c.key()] as nat,
    ) by {
        if before.contains_key(c.key()) {
            assert(exactly(t, root, c, before[c.key()] as nat));
        } else {
            assert(next.contains(c));
            assert(!within(t, root, c, level));
        }
    }
    assert forall|c: Location| #[trigger]
        next.contains(c) <==> seen.contains_key(c.key()) && seen[c.key()] == level + 1 by {
        if seen.contains_key(c.key()) && seen[c.key()] == level + 1 {
            if before.contains_key(c.key()) {
                lemma_survey_bound(t, root, before, level, c);
            }
        }
    }
}

/// When a level of the survey is empty, nothing lies beyond it.
proof fn lemma_closed(t: Map<u128, Terrain>, root: Location, level: nat, c: Location, k: nat)
    requires
        forall|c2: Location| #[trigger] within(t, root, c2, level + 1) ==> within(t, root, c2, level),
        within(t, root, c, k),
    ensures
        within(t, root, c, level),
    decreases k,
{
    if k <= level {
        lemma_within_more(t, root, c, k, level);
    } else if c == root {
        lemma_within_more(t, root, c, 0, level);
    } else {
        let d = lemma_within_unfold(t, root, c, k);
        lemma_closed(t, root, level, c.spec_neighbor(d)->0, (k - 1) as nat);
        lemma_within_step(t, root, c, d, level);
    }
}

/// Looks at the neighbour of `c` in direction `d` and adds it to the
/// survey if it is walkable and new.
fn visit(
    t: &HashMap<u128, Terrain>,
    seen: &mut HashMap<u128, usize>,
    next: &mut Vec<Location>,
    c: Location,
    d: u8,
    level: usize,
    Ghost(root): Ghost<Location>,
    Ghost(before): Ghost<Map<u128, usize>>,
)
    requires
        d < 4,
        level < usize::MAX,
        within(t@, root, c, level as nat),
        growing(t@, root, before, old(seen)@, old(next)@, level as nat),
    ensures
        growing(t@, root, before, final(seen)@, final(next)@, level as nat),
        forall|k: u128| #[trigger]
            old(seen)@.contains_key(k) ==> final(seen)@.contains_key(k),
        c.spec_neighbor(d as int) is Some && walkable(t@, c.spec_neighbor(d as int)->0)
            ==> final(seen)@.contains_key(c.spec_neighbor(d as int)->0.key()),
{
    match c.neighbor(d) {
        Some(n) => {
            if !terrain_or_wall(t, n).blocks_route() {
                let key = n.key();
                if !seen.contains_key(&key) {
                    let ghost seen0 = seen@;
                    let ghost next0 = next@;
                    seen.insert(key, level + 1);
                    next.push(n);
                    proof {
                        lemma_step_back(c, d as int);
                        lemma_within_step(t@, root, n, opposite(d as int), level as nat);
                        assert forall|c2: Location| #[trigger]
                            seen@.contains_key(c2.key()) implies within(
                            t@,
                            root,
                            c2,
                            (level + 1) as nat,
                        ) by {
                            if c2 != n {
                                Location::lemma_key_injective(c2, n);
                                assert(seen0.contains_key(c2.key()));
                            }
                        }
                        assert forall|c2: Location| #[trigger]
                            next@.contains(c2) <==> seen@.contains_key(c2.key())
                                && !before.contains_key(c2.key()) by {
                            lemma_seq_contains_after_push(next0, n, c2);
                            Location::lemma_key_injective(c2, n);
                            assert(next0.contains(c2) <==> seen0.contains_key(c2.key())
                                && !before.contains_key(c2.key()));
                        }
                        assert forall|c2: Location| #[trigger] next@.contains(c2) implies seen@[c2.key()]
                            == level + 1 by {
                            lemma_seq_contains_after_push(next0, n, c2);
                            Location::lemma_key_injective(c2, n);
                            if c2 != n {
                                assert(next0.contains(c2));
                            }
                        }
                        assert(seen@.dom() =~= seen0.dom().insert(key));
                    }
                }
            }
        },
        None => {},
    }
}

/// Adds to the survey the cells that are one step beyond `frontier`, and
/// lists them.
fn expand(
    t: &HashMap<u128, Terrain>,
    seen: &mut HashMap<u128, usize>,
    frontier: &Vec<Location>,
    level: usize,
    Ghost(root): Ghost<Location>,
) -> (next: Vec<Location>)
    requires
        level < usize::MAX,
        surveyed(t@, root, old(seen)@, level as nat),
        rim(old(seen)@, frontier@, level as nat),
    ensures
        surveyed(t@, root, final(seen)@, (level + 1) as nat),
        rim(final(seen)@, next@, (level + 1) as nat),
        final(seen)@.len() == old(seen)@.len() + next@.len(),
        final(seen)@.dom().finite(),
        forall|k: u128| #[trigger]
            old(seen)@.contains_key(k) ==> final(seen)@.contains_key(k) && final(seen)@[k] == old(
                seen,
            )@[k],
{
    let mut next: Vec<Location> = Vec::new();
    let ghost before = seen@;
    let mut i: usize = 0;
    proof {
        assert forall|c: Location| #[trigger] seen@.contains_key(c.key()) implies within(
            t@,
            root,
            c,
            (level + 1) as nat,
        ) by {
            lemma_within_more(t@, root, c, level as nat, (level + 1) as nat);
        }
    }
    while i < frontier.len()
        invariant
            i <= frontier.len(),
            level < usize::MAX,
            surveyed(t@, root, before, level as nat),
            rim(before, frontier@, level as nat),
            growing(t@, root, before, seen@, next@, level as nat),
            covered(t@, seen@, frontier@, i as int),
        decreases frontier.len() - i,
    {
        let c = frontier[i];
        let ghost at_start = seen@;
        proof {
            assert(frontier@.contains(c));
            assert(before.contains_key(c.key()));
        }
        visit(t, seen, &mut next, c, 0, level, Ghost(root), Ghost(before));
        visit(t, seen, &mut next, c, 1, level, Ghost(root), Ghost(before));
        visit(t, seen, &mut next, c, 2, level, Ghost(root), Ghost(before));
        visit(t, seen, &mut next, c, 3, level, Ghost(root), Ghost(before));
        proof {
            assert forall|j: int, d: int|
                0 <= j < i + 1 && 0 <= d < 4 && (#[trigger] frontier@[j].spec_neighbor(d)) is Some
                    && walkable(t@, frontier@[j].spec_neighbor(d)->0) implies seen@.contains_key(
                frontier@[j].spec_neighbor(d)->0.key(),
            ) by {
                if j < i {
                    assert(at_start.contains_key(frontier@[j].spec_neighbor(d)->0.key()));
                }
            }
        }
        i = i + 1;
    }
    proof {
        lemma_level_done(t@, root, before, seen@, frontier@, next@, level as nat);
    }
    next
}

/// Counts the steps from `root` to `target` over walkable cells. Returns
/// the survey that it made on the way: every cell no further from `root`
/// than `target` is, with its number of steps.
pub fn survey(t: &HashMap<u128, Terrain>, root: Location, target: Location) -> (r: (
    HashMap<u128, usize>,
    Option<usize>,
))
    ensures
        r.1 is Some <==> connected(t@, root, target),
        r.1 matches Some(n) ==> exactly(t@, root, target, n as nat) && surveyed_to(
            t@,
            root,
            r.0@,
            n as nat,
        ),
{
    let mut seen: HashMap<u128, usize> = HashMap::new();
    if terrain_or_wall(t, root).blocks_route() {
        proof {
            assert forall|k: nat| !within(t@, root, target, k) by {
                if within(t@, root, target, k) {
                    lemma_root_walkable(t@, root, target, k);
                }
            }
        }
        return (seen, None);
    }
    seen.insert(root.key(), 0);
    let mut frontier: Vec<Location> = Vec::new();
    frontier.push(root);
    let mut level: usize = 0;
    let target_key = target.key();
    proof {
        assert(seen@.dom() =~= Set::<u128>::empty().insert(root.key()));
        assert forall|c: Location| #[trigger] seen@.contains_key(c.key()) <==> within(
            t@,
            root,
            c,
            0,
        ) by {
            Location::lemma_key_injective(c, root);
        }
        assert forall|c: Location| #[trigger]
            frontier@.contains(c) <==> seen@.contains_key(c.key()) && seen@[c.key()] == 0 by {
            Location::lemma_key_injective(c, root);
            if c == root {
                assert(frontier@[0] == c);
            }
        }
        assert(forall|k: u128| #[trigger] seen@.contains_key(k) ==> t@.contains_key(k));
    }
    while !seen.contains_key(&target_key) && frontier.len() > 0
        invariant
            target_key == target.key(),
            surveyed(t@, root, seen@, level as nat),
            rim(seen@, frontier@, level as nat),
            seen@.dom().finite(),
            t@.dom().finite(),
            level + (if frontier@.len() > 0 {
                1int
            } else {
                0int
            }) <= seen@.len(),
            seen@.len() <= usize::MAX,
        decreases t@.len() - seen@.len(), frontier@.len(),
    {
        proof {
            lemma_len_subset(seen@.dom(), t@.dom());
        }
        let ghost before = seen@;
        let next = expand(t, &mut seen, &frontier, level, Ghost(root));
        proof {
            lemma_len_subset(seen@.dom(), t@.dom());
            assert(seen.len() == seen@.len());
        }
        frontier = next;
        level = level + 1;
    }
    match seen.get(&target_key) {
        Some(n) => {
            let steps: usize = *n;
            proof {
                assert(seen@.contains_key(target.key()));
                assert(exactly(t@, root, target, steps as nat));
                lemma_survey_bound(t@, root, seen@, level as nat, target);
                lemma_survey_steps(t@, root, seen@, level as nat, steps as nat);
            }
            (seen, Some(steps))
        },
        None => {
            proof {
                assert(frontier@.len() == 0);
                assert forall|c2: Location| #[trigger]
                    within(t@, root, c2, (level + 1) as nat) implies within(
                    t@,
                    root,
                    c2,
                    level as nat,
                ) by {
                    lemma_nothing_beyond(t@, root, seen@, frontier@, level as nat, c2);
                }
                assert forall|k: nat| !within(t@, root, target, k) by {
                    if within(t@, root, target, k) {
                        lemma_closed(t@, root, level as nat, target, k);
                        assert(seen@.contains_key(target.key()));
                    }
                }
            }
            (seen, None)
        },
    }
}

/// `seen` holds every cell within `steps` steps of `root`, and holds each
/// of its cells with the exact number of steps.
pub open spec fn surveyed_to(
    t: Map<u128, Terrain>,
    root: Location,
    seen: Map<u128, usize>,
    steps: nat,
) -> bool {
    &&& forall|c: Location| #[trigger] within(t, root, c, steps) ==> seen.contains_key(c.key())
    &&& forall|c: Location| #[trigger]
        seen.contains_key(c.key()) ==> exactly(t, root, c, seen[c.key()] as nat)
}

/// A survey up to a level holds every cell within any lesser number of
/// steps.
proof fn lemma_survey_steps(
    t: Map<u128, Terrain>,
    root: Location,
    seen: Map<u128, usize>,
    level: nat,
    steps: nat,
)
    requires
        surveyed(t, root, seen, level),
    ensures
        steps <= level ==> surveyed_to(t, root, seen, steps),
{
    if steps <= level {
        assert forall|c: Location| #[trigger] within(t, root, c, steps) implies seen.contains_key(
            c.key(),
        ) by {
            lemma_within_more(t, root, c, steps, level);
            assert(seen.contains_key(c.key()));
        }
    }
}

/// Where the rim of a survey is empty, what is within one step more is
/// within the survey.
proof fn lemma_nothing_beyond(
    t: Map<u128, Terrain>,
    root: Location,
    seen: Map<u128, usize>,
    frontier: Seq<Location>,
    level: nat,
    c: Location,
)
    requires
        surveyed(t, root, seen, level),
        rim(seen, frontier, level),
        frontier.len() == 0,
        within(t, root, c, level + 1),
    ensures
        within(t, root, c, level),
{
    if c == root {
        lemma_within_more(t, root, c, 0, level);
    } else {
        let d = lemma_within_unfold(t, root, c, level + 1);
        let n = c.spec_neighbor(d)->0;
        assert(seen.contains_key(n.key()));
        lemma_survey_bound(t, root, seen, level, n);
        assert(!frontier.contains(n));
        let v = seen[n.key()] as nat;
        assert(exactly(t, root, n, v));
        lemma_within_more(t, root, n, v, (level - 1) as nat);
        lemma_within_step(t, root, c, d, (level - 1) as nat);
    }
}

/// The next cell on the way from `cur` to the root of the survey.
fn step_downhill(
    t: &HashMap<u128, Terrain>,
    seen: &HashMap<u128, usize>,
    cur: Location,
    k: usize,
    Ghost(root): Ghost<Location>,
    Ghost(steps): Ghost<nat>,
) -> (n: Location)
    requires
        0 < k <= steps,
        exactly(t@, root, cur, k as nat),
        surveyed_to(t@, root, seen@, steps),
    ensures
        n == downhill(t@, root, cur, k as nat),
{
    let ghost j = (k - 1) as nat;
    let mut d: u8 = 0;
    proof {
        lemma_downhill(t@, root, cur, k as nat);
    }
    while d < 4
        invariant
            d <= 4,
            0 < k <= steps,
            j == k - 1,
            exactly(t@, root, cur, k as nat),
            surveyed_to(t@, root, seen@, steps),
            first_downhill(t@, root, cur, j, 0) == first_downhill(t@, root, cur, j, d as int),
            first_downhill(t@, root, cur, j, 0) < 4,
        decreases 4 - d,
    {
        match cur.neighbor(d) {
            Some(n) => {
                proof {
                    if within(t@, root, n, j) {
                        lemma_within_more(t@, root, n, j, steps);
                        assert(seen@.contains_key(n.key()));
                        let v = seen@[n.key()] as nat;
                        assert(exactly(t@, root, n, v));
                        if v > j {
                            lemma_within_more(t@, root, n, j, (v - 1) as nat);
                        }
                        if v < j {
                            lemma_within_step(t@, root, cur, d as int, v);
                            lemma_within_more(t@, root, cur, v + 1, j);
                        }
                    }
                }
                match seen.get(&n.key()) {
                    Some(v) => {
                        if *v == k - 1 {
                            return n;
                        }
                    },
                    None => {},
                }
            },
            None => {},
        }
        d = d + 1;
    }
    proof {
        lemma_first_downhill(t@, root, cur, j, 4);
    }
    cur
}

/// The first step of a shortest route from `from` to `to`, if there is a
/// route and it has a step: the second cell of `shortest_path`.
pub fn first_step(t: &HashMap<u128, Terrain>, from: Location, to: Location) -> (r: Option<Location>)
    ensures
        r is Some <==> connected(t@, to, from) && from != to,
        r matches Some(n) ==> n == chase_step(t@, from, to) && from.adjacent(n) && exactly(
            t@,
            to,
            from,
            steps_to(t@, to, from),
        ) && exactly(t@, to, n, (steps_to(t@, to, from) - 1) as nat),
{
    let (seen, found) = survey(t, to, from);
    match found {
        None => None,
        Some(steps) => {
            if steps == 0 {
                proof {
                    if from != to {
                        let d = lemma_within_unfold(t@, to, from, 0);
                    }
                }
                None
            } else {
                proof {
                    if from == to {
                        lemma_within_more(t@, to, from, 0, (steps - 1) as nat);
                    }
                    lemma_exactly_unique(t@, to, from, steps as nat);
                    lemma_downhill(t@, to, from, steps as nat);
                }
                Some(step_downhill(t, &seen, from, steps, Ghost(to), Ghost(steps as nat)))
            }
        },
    }
}

/// A shortest route from `from` to `to` over cells that are no walls, both
/// ends included; `None` if there is no route. Among the shortest routes it
/// is the one that takes, at each cell, the first neighbour that leads on,
/// in the order +x, -x, +y, -y.
pub fn shortest_path(t: &HashMap<u128, Terrain>, from: Location, to: Location) -> (r: Option<
    Vec<Location>,
>)
    ensures
        r is Some <==> connected(t@, to, from),
        r matches Some(p) ==> {
            &&& p@ == descent(t@, to, from, steps_to(t@, to, from))
            &&& is_route(t@, p@, from, to)
            &&& p@.len() == steps_to(t@, to, from) + 1
            &&& forall|k: nat| within(t@, to, from, k) ==> p@.len() <= k + 1
        },
{
    let (seen, found) = survey(t, to, from);
    match found {
        None => None,
        Some(steps) => {
            let mut path: Vec<Location> = Vec::new();
            path.push(from);
            let mut cur = from;
            let mut k: usize = steps;
            proof {
                assert(path@.drop_last() + descent(t@, to, cur, k as nat) =~= descent(
                    t@,
                    to,
                    from,
                    steps as nat,
                ));
            }
            while k > 0
                invariant
                    k <= steps,
                    exactly(t@, to, cur, k as nat),
                    surveyed_to(t@, to, seen@, steps as nat),
                    path@.len() == steps - k + 1,
                    path@[path@.len() - 1] == cur,
                    path@.drop_last() + descent(t@, to, cur, k as nat) == descent(
                        t@,
                        to,
                        from,
                        steps as nat,
                    ),
                decreases k,
            {
                let n = step_downhill(t, &seen, cur, k, Ghost(to), Ghost(steps as nat));
                proof {
                    lemma_downhill(t@, to, cur, k as nat);
                    let ghost rest = descent(t@, to, n, (k - 1) as nat);
                    assert(descent(t@, to, cur, k as nat) == seq![cur] + rest);
                    assert(path@.push(n).drop_last() =~= path@);
                    assert(path@ =~= path@.drop_last() + seq![cur]);
                    assert(path@ + rest =~= path@.drop_last() + (seq![cur] + rest));
                }
                path.push(n);
                cur = n;
                k = k - 1;
            }
            proof {
                assert(descent(t@, to, cur, 0) == seq![cur]);
                assert(path@ =~= path@.drop_last() + seq![cur]);
                lemma_descent_is_route(t@, to, from, steps as nat);
                lemma_exactly_unique(t@, to, from, steps as nat);
            }
            Some(path)
        },
    }
}

/// No route is shorter than the one that `shortest_path` returns.
pub proof fn lemma_shortest(
    t: Map<u128, Terrain>,
    from: Location,
    to: Location,
    steps: nat,
    other: Seq<Location>,
)
    requires
        exactly(t, to, from, steps),
        is_route(t, other, from, to),
    ensures
        descent(t, to, from, steps).len() <= other.len(),
{
    lemma_route_within(t, other, from, to);
    lemma_descent_is_route(t, to, from, steps);
    if other.len() - 1 < steps {
        lemma_within_more(t, to, from, (other.len() - 1) as nat, (steps - 1) as nat);
    }
}

/// The cells of the sight line from `a` to `b`, in order.
pub open spec fn line_cells(a: Location, b: Location) -> Seq<Location> {
    Seq::new((line_steps(a, b) + 1) as nat, |k: int| line_point(a, b, k))
}

/// A clear sight line between two walkable cells is a route.
pub proof fn lemma_line_is_route(t: Map<u128, Terrain>, a: Location, b: Location, ice_blocks: bool)
    requires
        a.z == b.z,
        clear_line(t, a, b, ice_blocks),
        walkable(t, a),
        walkable(t, b),
    ensures
        is_route(t, line_cells(a, b), a, b),
{
    let n = line_steps(a, b);
    let p = line_cells(a, b);
    lemma_line_walks(a, b, 0);
    lemma_line_walks(a, b, n);
    assert forall|i: int| 0 <= i < p.len() implies walkable(t, #[trigger] p[i]) by {
        lemma_line_walks(a, b, i);
        if 0 < i < n {
            assert(!opaque(t, line_point(a, b, i), ice_blocks));
        }
    }
    assert forall|i: int| 0 <= i < p.len() - 1 implies (#[trigger] p[i]).adjacent(p[i + 1]) by {
        lemma_line_walks(a, b, i);
    }
}

/// A route walked backwards is a route.
pub proof fn lemma_route_back(t: Map<u128, Terrain>, p: Seq<Location>, from: Location, to: Location)
    requires
        is_route(t, p, from, to),
    ensures
        is_route(t, p.reverse(), to, from),
{
    let q = p.reverse();
    assert forall|i: int| 0 <= i < q.len() implies walkable(t, #[trigger] q[i]) by {
        assert(q[i] == p[p.len() - 1 - i]);
    }
    assert forall|i: int| 0 <= i < q.len() - 1 implies (#[trigger] q[i]).adjacent(q[i + 1]) by {
        assert(q[i] == p[p.len() - 1 - i]);
        assert(q[i + 1] == p[p.len() - 2 - i]);
        assert(p[p.len() - 2 - i].adjacent(p[p.len() - 2 - i + 1]));
    }
}

/// Whoever is seen can be reached: between two walkable cells of which one
/// sees the other, a route leads from each to the other.
pub proof fn lemma_seen_is_connected(
    t: Map<u128, Terrain>,
    o: Location,
    c: Location,
    radius: u32,
    ice_blocks: bool,
)
    requires
        sees(t, o, c, radius, ice_blocks),
        walkable(t, o),
        walkable(t, c),
    ensures
        connected(t, c, o),
{
    if clear_line(t, o, c, ice_blocks) {
        lemma_line_is_route(t, o, c, ice_blocks);
        lemma_route_within(t, line_cells(o, c), o, c);
    } else {
        lemma_line_is_route(t, c, o, ice_blocks);
        lemma_route_back(t, line_cells(c, o), c, o);
        lemma_route_within(t, line_cells(c, o).reverse(), o, c);
    }
}

/// Where a route leads from `from` to another cell `to`, its first step is
/// a neighbour of `from` on the same floor.
pub proof fn lemma_chase_step(t: Map<u128, Terrain>, from: Location, to: Location)
    requires
        connected(t, to, from),
        from != to,
    ensures
        from.adjacent(chase_step(t, from, to)),
{
    let k = choose|k: nat| within(t, to, from, k);
    lemma_least_steps(t, to, from, k);
    let j = steps_to(t, to, from);
    if j == 0 {
        let d = lemma_within_unfold(t, to, from, 0);
    }
    lemma_downhill(t, to, from, j);
}

/// What is within some number of steps is exactly some number of steps
/// away.
pub proof fn lemma_least_steps(t: Map<u128, Terrain>, root: Location, c: Location, k: nat)
    requires
        within(t, root, c, k),
    ensures
        exactly(t, root, c, steps_to(t, root, c)),
        steps_to(t, root, c) <= k,
    decreases k,
{
    if k > 0 && within(t, root, c, (k - 1) as nat) {
        lemma_least_steps(t, root, c, (k - 1) as nat);
    } else {
        assert(exactly(t, root, c, k));
        lemma_exactly_unique(t, root, c, k);
    }
}

} // verus!
