//! Telling the floor inside a level apart from the empty space around it: every cell that can be
//! reached from the worker, a crate or a goal without crossing a wall is inside.
use vstd::prelude::*;

use crate::cell::Background;

verus! {

broadcast use vstd::seq_lib::lemma_seq_contains_after_push;

/// Cells `i` and `j` of a grid with `c` columns and `n` cells are horizontal or vertical
/// neighbours.
pub open spec fn adjacent(c: int, n: int, i: int, j: int) -> bool {
    &&& 0 <= i < n
    &&& 0 <= j < n
    &&& {
        ||| (i % c > 0 && j == i - 1)
        ||| (i % c + 1 < c && j == i + 1)
        ||| (i >= c && j == i - c)
        ||| (i + c < n && j == i + c)
    }
}

/// A walk from neighbour to neighbour that never enters a wall.
pub open spec fn is_walk(bg: Seq<Background>, c: int, p: Seq<int>) -> bool {
    &&& p.len() >= 1
    &&& forall|k: int| 0 <= k < p.len() ==> 0 <= #[trigger] p[k] < bg.len()
    &&& forall|k: int| 0 <= k < p.len() ==> bg[#[trigger] p[k]] != Background::Wall
    &&& forall|k: int| 0 <= k < p.len() - 1 ==> adjacent(c, bg.len() as int, #[trigger] p[k], p[k + 1])
}

/// Cell `i` can be reached from one of the seeds without crossing a wall.
pub open spec fn reachable(bg: Seq<Background>, c: int, seeds: Set<int>, i: int) -> bool {
    exists|p: Seq<int>| #[trigger] is_walk(bg, c, p) && seeds.contains(p[0]) && p.last() == i
}

/// The background with every floor cell that cannot be reached from a seed turned into empty
/// space.
pub open spec fn corrected_background(bg: Seq<Background>, c: int, seeds: Set<int>) -> Seq<
    Background,
> {
    Seq::new(
        bg.len(),
        |i: int|
            if bg[i] == Background::Floor && !reachable(bg, c, seeds, i) {
                Background::Empty
            } else {
                bg[i]
            },
    )
}

/// The number of `true` entries.
pub open spec fn count_true(s: Seq<bool>) -> nat
    decreases s.len(),
{
    if s.len() == 0 {
        0
    } else {
        count_true(s.drop_last()) + if s.last() { 1nat } else { 0nat }
    }
}

proof fn lemma_count_true_bound(s: Seq<bool>)
    ensures
        count_true(s) <= s.len(),
    decreases s.len(),
{
    if s.len() > 0 {
        lemma_count_true_bound(s.drop_last());
    }
}

proof fn lemma_count_true_update(s: Seq<bool>, i: int)
    requires
        0 <= i < s.len(),
        !s[i],
    ensures
        count_true(s.update(i, true)) == count_true(s) + 1,
    decreases s.len(),
{
    if i < s.len() - 1 {
        lemma_count_true_update(s.drop_last(), i);
        assert(s.update(i, true).drop_last() =~= s.drop_last().update(i, true));
    } else {
        assert(s.update(i, true).drop_last() =~= s.drop_last());
    }
}

pub proof fn lemma_reach_seed(bg: Seq<Background>, c: int, seeds: Set<int>, s: int)
    requires
        seeds.contains(s),
        0 <= s < bg.len(),
        bg[s] != Background::Wall,
    ensures
        reachable(bg, c, seeds, s),
{
    let p = seq![s];
    assert(is_walk(bg, c, p));
}

proof fn lemma_reach_step(bg: Seq<Background>, c: int, seeds: Set<int>, i: int, j: int)
    requires
        reachable(bg, c, seeds, i),
        adjacent(c, bg.len() as int, i, j),
        bg[j] != Background::Wall,
    ensures
        reachable(bg, c, seeds, j),
{
    let p = choose|p: Seq<int>| #[trigger] is_walk(bg, c, p) && seeds.contains(p[0]) && p.last() == i;
    let q = p.push(j);
    assert forall|k: int| 0 <= k < q.len() - 1 implies adjacent(c, bg.len() as int, #[trigger] q[k], q[k + 1]) by {
        if k < p.len() - 1 {
            assert(q[k] == p[k] && q[k + 1] == p[k + 1]);
        }
    }
    assert(is_walk(bg, c, q));
    assert(q[0] == p[0]);
}

/// A set of cells that contains the seeds and every non-wall neighbour of its cells contains
/// every cell reachable from the seeds.
proof fn lemma_closed_contains_reachable(
    bg: Seq<Background>,
    c: int,
    seeds: Set<int>,
    inside: Seq<bool>,
    i: int,
)
    requires
        inside.len() == bg.len(),
        forall|s: int| seeds.contains(s) && 0 <= s < bg.len() && bg[s] != Background::Wall ==> #[trigger] inside[s],
        forall|a: int, b: int|
            0 <= a < bg.len() && #[trigger] inside[a] && adjacent(c, bg.len() as int, a, b) && bg[b]
                != Background::Wall ==> #[trigger] inside[b],
        reachable(bg, c, seeds, i),
    ensures
        inside[i],
{
    let p = choose|p: Seq<int>| #[trigger] is_walk(bg, c, p) && seeds.contains(p[0]) && p.last() == i;
    assert(inside[p[0]]);
    lemma_walk_inside(bg, c, inside, p, p.len() - 1);
}

proof fn lemma_walk_inside(bg: Seq<Background>, c: int, inside: Seq<bool>, p: Seq<int>, k: int)
    requires
        inside.len() == bg.len(),
        is_walk(bg, c, p),
        0 <= k < p.len(),
        inside[p[0]],
        forall|a: int, b: int|
            0 <= a < bg.len() && #[trigger] inside[a] && adjacent(c, bg.len() as int, a, b) && bg[b]
                != Background::Wall ==> #[trigger] inside[b],
    ensures
        inside[p[k]],
    decreases k,
{
    if k > 0 {
        lemma_walk_inside(bg, c, inside, p, k - 1);
        assert(adjacent(c, bg.len() as int, p[k - 1], p[k]));
        assert(bg[p[k]] != Background::Wall);
        assert(0 <= p[k - 1] < bg.len());
    }
}

/// Which cells are inside the level: those reachable from a seed without crossing a wall.
/// Seeds are given by `seed`; walls are never inside.
pub fn inside_cells(bg: &Vec<Background>, columns: usize, seed: &Vec<bool>) -> (inside: Vec<bool>)
    requires
        columns >= 1,
        seed@.len() == bg@.len(),
    ensures
        inside@.len() == bg@.len(),
        forall|i: int|
            0 <= i < bg@.len() ==> #[trigger] inside@[i] == reachable(
                bg@,
                columns as int,
                Set::new(|s: int| 0 <= s < seed@.len() && seed@[s]),
                i,
            ),
{
    let n = bg.len();
    let ghost seeds = Set::new(|s: int| 0 <= s < seed@.len() && seed@[s]);
    let ghost c = columns as int;
    let mut visited: Vec<bool> = Vec::new();
    let mut inside: Vec<bool> = Vec::new();
    let mut stack: Vec<usize> = Vec::new();
    let mut i: usize = 0;
    // Walls are never entered; seeds are where the search starts.
    while i < n
        invariant
            n == bg@.len(),
            seed@.len() == n,
            i <= n,
            visited@.len() == i,
            inside@.len() == i,
            forall|k: int| 0 <= k < i ==> !#[trigger] inside@[k],
            forall|k: int|
                0 <= k < i ==> #[trigger] visited@[k] == (bg@[k] == Background::Wall || seed@[k]),
            forall|k: int|
                0 <= k < stack@.len() ==> #[trigger] stack@[k] < i && seed@[stack@[k] as int]
                    && bg@[stack@[k] as int] != Background::Wall,
            forall|k: int|
                0 <= k < i && seed@[k] && bg@[k] != Background::Wall ==> #[trigger] stack@.contains(k as usize),
        decreases n - i,
    {
        let is_wall = bg[i] == Background::Wall;
        visited.push(is_wall || seed[i]);
        inside.push(false);
        if !is_wall && seed[i] {
            stack.push(i);
            assert(stack@.last() == i);
        }
        i = i + 1;
    }
    let ghost mut count: nat = count_true(visited@);
    proof {
        lemma_count_true_bound(visited@);
        assert forall|k: int| 0 <= k < n && #[trigger] visited@[k] && bg@[k] != Background::Wall implies reachable(bg@, c, seeds, k) by {
            assert(seeds.contains(k));
            lemma_reach_seed(bg@, c, seeds, k);
        }
    }
    while stack.len() > 0
        invariant
            n == bg@.len(),
            seed@.len() == n,
            columns >= 1,
            c == columns as int,
            seeds == Set::new(|s: int| 0 <= s < seed@.len() && seed@[s]),
            visited@.len() == n,
            inside@.len() == n,
            count == count_true(visited@),
            count <= n,
            forall|k: int| 0 <= k < n && seed@[k] ==> #[trigger] visited@[k],
            forall|k: int| 0 <= k < n && bg@[k] == Background::Wall ==> #[trigger] visited@[k],
            forall|k: int|
                0 <= k < n && #[trigger] visited@[k] && bg@[k] != Background::Wall ==> reachable(
                    bg@,
                    c,
                    seeds,
                    k,
                ),
            forall|k: int|
                0 <= k < stack@.len() ==> #[trigger] stack@[k] < n && visited@[stack@[k] as int]
                    && bg@[stack@[k] as int] != Background::Wall,
            forall|k: int|
                0 <= k < n && #[trigger] inside@[k] ==> visited@[k] && bg@[k] != Background::Wall,
            forall|a: int, b: int|
                0 <= a < n && #[trigger] inside@[a] && adjacent(c, n as int, a, b) ==> #[trigger] visited@[b],
            forall|k: int|
                0 <= k < n && #[trigger] visited@[k] && bg@[k] != Background::Wall ==> inside@[k]
                    || stack@.contains(k as usize),
        decreases n - count, stack@.len(),
    {
        let ghost stack_before_pop = stack@;
        let i = stack.pop().unwrap();
        let ghost stack_after_pop = stack@;
        proof {
            assert forall|k2: int| 0 <= k2 < n && #[trigger] visited@[k2] && bg@[k2] != Background::Wall && k2 != i
                && !inside@[k2] implies stack@.contains(k2 as usize) by {
                assert(stack_before_pop.contains(k2 as usize));
                let q = choose|q: int| 0 <= q < stack_before_pop.len() && stack_before_pop[q] == k2 as usize;
                assert(q != stack_before_pop.len() - 1);
                assert(stack@[q] == k2 as usize);
            }
        }
        inside.set(i, true);
        let x = i % columns;
        proof {
            if i == 0 {
                vstd::arithmetic::div_mod::lemma_small_mod(0, columns as nat);
            }
        }
        let cand: [Option<usize>; 4] = [
            if x > 0 { Some(i - 1) } else { None },
            if x + 1 < columns && i + 1 < n { Some(i + 1) } else { None },
            if i >= columns { Some(i - columns) } else { None },
            if columns < n && i < n - columns { Some(i + columns) } else { None },
        ];
        proof {
            assert(cand@[0] is Some ==> adjacent(c, n as int, i as int, cand@[0]->0 as int));
            assert(cand@[1] is Some ==> adjacent(c, n as int, i as int, cand@[1]->0 as int));
            assert(cand@[2] is Some ==> adjacent(c, n as int, i as int, cand@[2]->0 as int));
            assert(cand@[3] is Some ==> adjacent(c, n as int, i as int, cand@[3]->0 as int));
            assert forall|b: int| adjacent(c, n as int, i as int, b) implies exists|q: int|
                0 <= q < 4 && #[trigger] cand@[q] == Some(b as usize) by {
                if (i as int) % c > 0 && b == i - 1 {
                    assert(cand@[0] == Some(b as usize));
                } else if (i as int) % c + 1 < c && b == i + 1 {
                    assert(cand@[1] == Some(b as usize));
                } else if i >= c && b == i - c {
                    assert(cand@[2] == Some(b as usize));
                } else {
                    assert(cand@[3] == Some(b as usize));
                }
            }
        }
        let ghost count_before = count;
        let mut k: usize = 0;
        while k < 4
            invariant
                n == bg@.len(),
                seed@.len() == n,
                columns >= 1,
                c == columns as int,
                i < n,
                forall|q: int|
                    0 <= q < 4 && #[trigger] cand@[q] is Some ==> adjacent(
                        c,
                        n as int,
                        i as int,
                        cand@[q]->0 as int,
                    ),
                seeds == Set::new(|s: int| 0 <= s < seed@.len() && seed@[s]),
                visited@.len() == n,
                inside@.len() == n,
                inside@[i as int],
                bg@[i as int] != Background::Wall,
                reachable(bg@, c, seeds, i as int),
                k <= 4,
                count == count_true(visited@),
                count <= n,
                count_before <= count,
                count == count_before ==> stack@ == stack_after_pop,
                stack@.len() <= stack_after_pop.len() + (count - count_before),
                forall|q: int| 0 <= q < k && #[trigger] cand@[q] is Some ==> visited@[cand@[q]->0 as int],
                forall|k2: int| 0 <= k2 < n && seed@[k2] ==> #[trigger] visited@[k2],
                forall|k2: int| 0 <= k2 < n && bg@[k2] == Background::Wall ==> #[trigger] visited@[k2],
                forall|k2: int|
                    0 <= k2 < n && #[trigger] visited@[k2] && bg@[k2] != Background::Wall ==> reachable(
                        bg@,
                        c,
                        seeds,
                        k2,
                    ),
                forall|k2: int|
                    0 <= k2 < stack@.len() ==> #[trigger] stack@[k2] < n && visited@[stack@[k2] as int]
                        && bg@[stack@[k2] as int] != Background::Wall,
                forall|k2: int|
                    0 <= k2 < n && #[trigger] inside@[k2] ==> visited@[k2] && bg@[k2]
                        != Background::Wall,
                forall|a: int, b: int|
                    0 <= a < n && a != i && #[trigger] inside@[a] && adjacent(c, n as int, a, b) ==> #[trigger] visited@[b],
                forall|k2: int|
                    0 <= k2 < n && #[trigger] visited@[k2] && bg@[k2] != Background::Wall ==> inside@[k2]
                        || stack@.contains(k2 as usize),
            decreases 4 - k,
        {
            if let Some(j) = cand[k] {
                assert(cand@[k as int] is Some);
                if !visited[j] {
                    proof {
                        lemma_count_true_update(visited@, j as int);
                        lemma_count_true_bound(visited@.update(j as int, true));
                        if bg@[j as int] != Background::Wall {
                            lemma_reach_step(bg@, c, seeds, i as int, j as int);
                        }
                    }
                    visited.set(j, true);
                    proof { count = count + 1; }
                    if bg[j] != Background::Wall {
                        stack.push(j);
                        assert(stack@.last() == j);
                    }
                }
            }
            k = k + 1;
        }
        proof {
            assert forall|a: int, b: int|
                0 <= a < n && #[trigger] inside@[a] && adjacent(c, n as int, a, b) implies #[trigger] visited@[b] by {
                if a == i {
                    let q = choose|q: int| 0 <= q < 4 && #[trigger] cand@[q] == Some(b as usize);
                    assert(cand@[q] is Some);
                }
            }
        }
    }
    proof {
        assert forall|k: int| 0 <= k < n implies #[trigger] inside@[k] == reachable(bg@, c, seeds, k) by {
            if reachable(bg@, c, seeds, k) {
                assert forall|s: int| seeds.contains(s) && 0 <= s < bg@.len() && bg@[s] != Background::Wall implies #[trigger] inside@[s] by {
                    assert(visited@[s]);
                }
                assert forall|a: int, b: int|
                    0 <= a < bg@.len() && #[trigger] inside@[a] && adjacent(c, bg@.len() as int, a, b)
                        && bg@[b] != Background::Wall implies #[trigger] inside@[b] by {
                    assert(visited@[b]);
                }
                lemma_closed_contains_reachable(bg@, c, seeds, inside@, k);
            }
        }
    }
    inside
}

} // verus!
