//! The farthest-node search: an iterative depth-first traversal over an
//! adjacency sequence, using an explicit work stack of
//! `(node id, next neighbor index)` frames. The hop distance of the node
//! being visited is the size of the stack right after its frame is popped,
//! and the first node to reach a new strictly greater depth is kept.
//!
//! The traversal is pinned down exactly by the step relation [`run`], so the
//! contract of [`get_farthest`] determines the returned node and distance
//! for every well-formed adjacency structure.

use vstd::prelude::*;
use vstd::set_lib::lemma_int_range;
use vstd::set_lib::lemma_len_subset;
use vstd::set_lib::set_int_range;

verus! {

/// Every neighbor id recorded in the adjacency sequence refers to an entry
/// of that sequence.
pub open spec fn wf_edges(edges: Seq<Seq<usize>>) -> bool {
    forall|i: int, j: int|
        0 <= i < edges.len() && 0 <= j < edges[i].len() ==> (#[trigger] edges[i][j]) < edges.len()
}

/// Each neighbor list is small enough to be indexed by a `usize`; this holds
/// of any adjacency structure built from vectors.
pub open spec fn bounded_edges(edges: Seq<Seq<usize>>) -> bool {
    forall|i: int| 0 <= i < edges.len() ==> (#[trigger] edges[i]).len() <= usize::MAX
}

/// A work-stack frame refers to a valid node and a neighbor index that has
/// not run past the end of that node's neighbor list.
pub open spec fn frame_ok(edges: Seq<Seq<usize>>, f: (usize, usize)) -> bool {
    f.0 < edges.len() && f.1 <= edges[f.0 as int].len()
}

/// All frames are valid, and every frame below the top holds an already
/// visited node: the stack is a trail of nodes whose exploration is paused.
pub open spec fn frames_wf(
    edges: Seq<Seq<usize>>,
    stack: Seq<(usize, usize)>,
    visited: Seq<bool>,
) -> bool {
    forall|k: int|
        0 <= k < stack.len() ==> frame_ok(edges, #[trigger] stack[k]) && (k < stack.len() - 1
            ==> visited[stack[k].0 as int])
}

/// The traversal states over which the step relation is defined.
pub open spec fn wf_state(
    edges: Seq<Seq<usize>>,
    stack: Seq<(usize, usize)>,
    visited: Seq<bool>,
) -> bool {
    &&& wf_edges(edges)
    &&& bounded_edges(edges)
    &&& edges.len() <= usize::MAX
    &&& visited.len() == edges.len()
    &&& frames_wf(edges, stack, visited)
}

/// Termination budget an unvisited node still holds: its whole neighbor
/// list, one frame pop, and one visit.
pub open spec fn node_weight(edges: Seq<Seq<usize>>, visited: Seq<bool>, v: int) -> nat {
    if 0 <= v < visited.len() && !visited[v] {
        edges[v].len() + 2
    } else {
        0
    }
}

/// Sum of [`node_weight`] over the node ids below `k`.
pub open spec fn unvisited_sum(edges: Seq<Seq<usize>>, visited: Seq<bool>, k: int) -> nat
    decreases k,
{
    if k <= 0 {
        0
    } else {
        unvisited_sum(edges, visited, k - 1) + node_weight(edges, visited, k - 1)
    }
}

/// Termination budget of one frame: the neighbors it has yet to inspect,
/// plus its own final pop. A frame of an unvisited node carries no budget of
/// its own; the node's [`node_weight`] pays for it when the node is visited.
pub open spec fn frame_weight(edges: Seq<Seq<usize>>, visited: Seq<bool>, f: (usize, usize)) -> nat {
    if f.0 < visited.len() && visited[f.0 as int] && f.1 <= edges[f.0 as int].len() {
        (edges[f.0 as int].len() - f.1 + 1) as nat
    } else {
        0
    }
}

/// Sum of [`frame_weight`] over the stack.
pub open spec fn stack_sum(
    edges: Seq<Seq<usize>>,
    visited: Seq<bool>,
    stack: Seq<(usize, usize)>,
) -> nat
    decreases stack.len(),
{
    if stack.len() == 0 {
        0
    } else {
        stack_sum(edges, visited, stack.drop_last()) + frame_weight(edges, visited, stack.last())
    }
}

/// The total termination budget of a traversal state; every step of [`run`]
/// strictly decreases it.
pub open spec fn phi(
    edges: Seq<Seq<usize>>,
    stack: Seq<(usize, usize)>,
    visited: Seq<bool>,
) -> nat {
    unvisited_sum(edges, visited, edges.len() as int) + stack_sum(edges, visited, stack)
}

/// One traversal to completion: pop a frame, record its depth if it is a new
/// strict maximum, mark the node visited, push the resume frame and the next
/// unvisited neighbor, and continue until the stack is empty. Returns the
/// deepest node seen first, with its depth.
pub open spec fn run(
    edges: Seq<Seq<usize>>,
    stack: Seq<(usize, usize)>,
    visited: Seq<bool>,
    best: (usize, usize),
) -> (usize, usize)
    decreases phi(edges, stack, visited),
    when wf_state(edges, stack, visited)
    via run_decreases
{
    if stack.len() == 0 {
        best
    } else {
        let frame = stack.last();
        let current = frame.0;
        let i = frame.1;
        let rest = stack.drop_last();
        let best1 = if rest.len() > best.1 {
            (current, rest.len() as usize)
        } else {
            best
        };
        let visited1 = visited.update(current as int, true);
        if (i as int) < edges[current as int].len() {
            let stack1 = rest.push((current, (i + 1) as usize));
            let next = edges[current as int][i as int];
            if !visited1[next as int] {
                run(edges, stack1.push((next, 0usize)), visited1, best1)
            } else {
                run(edges, stack1, visited1, best1)
            }
        } else {
            run(edges, rest, visited1, best1)
        }
    }
}

#[via_fn]
proof fn run_decreases(
    edges: Seq<Seq<usize>>,
    stack: Seq<(usize, usize)>,
    visited: Seq<bool>,
    best: (usize, usize),
) {
    if wf_state(edges, stack, visited) && stack.len() > 0 {
        lemma_run_step(edges, stack, visited);
    }
}

/// Visiting node `c` transfers its [`node_weight`] out of the unvisited sum.
proof fn lemma_unvisited_insert(edges: Seq<Seq<usize>>, visited: Seq<bool>, k: int, c: int)
    requires
        0 <= c < visited.len(),
        !visited[c],
    ensures
        unvisited_sum(edges, visited.update(c, true), k) + (if c < k {
            node_weight(edges, visited, c)
        } else {
            0
        }) == unvisited_sum(edges, visited, k),
    decreases k,
{
    let visited1 = visited.update(c, true);
    if k > 0 {
        lemma_unvisited_insert(edges, visited, k - 1, c);
        if k - 1 == c {
            assert(node_weight(edges, visited1, c) == 0);
        } else {
            assert(node_weight(edges, visited1, k - 1) == node_weight(edges, visited, k - 1));
        }
    }
}

/// The stack budget does not change when the visited flags of all the nodes
/// on the stack are untouched.
proof fn lemma_stack_sum_same(
    edges: Seq<Seq<usize>>,
    visited1: Seq<bool>,
    visited2: Seq<bool>,
    stack: Seq<(usize, usize)>,
)
    requires
        forall|k: int|
            0 <= k < stack.len() ==> frame_weight(edges, visited1, #[trigger] stack[k])
                == frame_weight(edges, visited2, stack[k]),
    ensures
        stack_sum(edges, visited1, stack) == stack_sum(edges, visited2, stack),
    decreases stack.len(),
{
    if stack.len() > 0 {
        let rest = stack.drop_last();
        assert(forall|k: int| 0 <= k < rest.len() ==> rest[k] == stack[k]);
        lemma_stack_sum_same(edges, visited1, visited2, rest);
        assert(stack.last() == stack[stack.len() - 1]);
    }
}

/// One step of the traversal keeps the state well formed and strictly
/// shrinks the termination budget, whichever of the three successor shapes
/// it takes.
proof fn lemma_run_step(edges: Seq<Seq<usize>>, stack: Seq<(usize, usize)>, visited: Seq<bool>)
    requires
        wf_state(edges, stack, visited),
        stack.len() > 0,
    ensures
        ({
            let frame = stack.last();
            let current = frame.0;
            let i = frame.1;
            let rest = stack.drop_last();
            let visited1 = visited.update(current as int, true);
            &&& wf_state(edges, rest, visited1)
            &&& phi(edges, rest, visited1) < phi(edges, stack, visited)
            &&& ((i as int) < edges[current as int].len() ==> ({
                let stack1 = rest.push((current, (i + 1) as usize));
                let next = edges[current as int][i as int];
                &&& wf_state(edges, stack1, visited1)
                &&& phi(edges, stack1, visited1) < phi(edges, stack, visited)
                &&& (!visited1[next as int] ==> wf_state(
                    edges,
                    stack1.push((next, 0usize)),
                    visited1,
                ) && phi(edges, stack1.push((next, 0usize)), visited1) < phi(
                    edges,
                    stack,
                    visited,
                ))
            }))
        }),
{
    let frame = stack.last();
    let current = frame.0;
    let c = current as int;
    let i = frame.1;
    let rest = stack.drop_last();
    let visited1 = visited.update(c, true);
    let deg = edges[c].len();
    let nn = edges.len() as int;

    assert(stack[stack.len() - 1] == frame);
    assert(frame_ok(edges, frame));
    assert(c < edges.len() && i <= deg);
    assert(deg <= usize::MAX);
    assert(forall|k: int| 0 <= k < rest.len() ==> rest[k] == stack[k]);
    // every frame of `rest` sat below the top, so its node is visited
    assert(forall|k: int|
        0 <= k < rest.len() ==> frame_ok(edges, #[trigger] rest[k]) && visited[rest[k].0 as int]);
    assert(forall|k: int| 0 <= k < rest.len() ==> visited1[(#[trigger] rest[k]).0 as int]);

    // the new top frames are valid
    if (i as int) < deg {
        assert((i + 1) as usize as int == i + 1);
        assert(frame_ok(edges, (current, (i + 1) as usize)));
        let next = edges[c][i as int];
        assert(next < edges.len());
        assert(frame_ok(edges, (next, 0usize)));
    }

    // well-formedness of all three successor states
    assert(wf_state(edges, rest, visited1));
    if (i as int) < deg {
        let stack1 = rest.push((current, (i + 1) as usize));
        let next = edges[c][i as int];
        assert(forall|k: int| 0 <= k < rest.len() ==> stack1[k] == rest[k]);
        assert(stack1[stack1.len() - 1] == (current, (i + 1) as usize));
        assert(frames_wf(edges, stack1, visited1));
        if !visited1[next as int] {
            let stack2 = stack1.push((next, 0usize));
            assert(forall|k: int| 0 <= k < stack1.len() ==> stack2[k] == stack1[k]);
            assert(stack2[stack2.len() - 1] == (next, 0usize));
            assert(frames_wf(edges, stack2, visited1));
        }
    }

    // budget accounting
    let u0 = unvisited_sum(edges, visited, nn);
    let u1 = unvisited_sum(edges, visited1, nn);
    let r0 = stack_sum(edges, visited, rest);
    let r1 = stack_sum(edges, visited1, rest);
    let w_old = frame_weight(edges, visited, frame);
    assert(stack_sum(edges, visited, stack) == r0 + w_old);

    if visited[c] {
        assert(visited1 =~= visited);
        assert(u1 == u0);
        assert(r1 == r0);
        assert(w_old == deg - i + 1);
    } else {
        lemma_unvisited_insert(edges, visited, nn, c);
        assert(node_weight(edges, visited, c) == deg + 2);
        assert(u1 + deg + 2 == u0);
        assert(forall|k: int| 0 <= k < rest.len() ==> (#[trigger] rest[k]).0 as int != c);
        assert(forall|k: int|
            0 <= k < rest.len() ==> frame_weight(edges, visited1, #[trigger] rest[k])
                == frame_weight(edges, visited, rest[k])) by {
            assert(forall|k: int|
                0 <= k < rest.len() ==> visited1[(#[trigger] rest[k]).0 as int] == visited[rest[k].0 as int]);
        }
        lemma_stack_sum_same(edges, visited1, visited, rest);
        assert(r1 == r0);
        assert(w_old == 0);
    }

    // successor: the frame is exhausted, only `rest` remains
    assert(phi(edges, rest, visited1) == u1 + r1);
    assert(phi(edges, stack, visited) == u0 + r0 + w_old);
    assert(phi(edges, rest, visited1) < phi(edges, stack, visited));

    if (i as int) < deg {
        let resume = (current, (i + 1) as usize);
        let stack1 = rest.push(resume);
        assert(stack1.drop_last() =~= rest);
        assert(stack1.last() == resume);
        assert(visited1[c]);
        assert(frame_weight(edges, visited1, resume) == deg - i);
        assert(stack_sum(edges, visited1, stack1) == r1 + (deg - i));
        assert(phi(edges, stack1, visited1) == u1 + r1 + (deg - i));
        assert(phi(edges, stack1, visited1) < phi(edges, stack, visited));

        let next = edges[c][i as int];
        if !visited1[next as int] {
            let stack2 = stack1.push((next, 0usize));
            assert(stack2.drop_last() =~= stack1);
            assert(stack2.last() == (next, 0usize));
            assert(frame_weight(edges, visited1, (next, 0usize)) == 0);
            assert(stack_sum(edges, visited1, stack2) == stack_sum(edges, visited1, stack1));
            assert(phi(edges, stack2, visited1) < phi(edges, stack, visited));
        }
    }
}

/// The visited flags at the start of a traversal: one `false` per node.
pub open spec fn all_unvisited(n: nat) -> Seq<bool> {
    Seq::new(n, |i: int| false)
}

/// What [`get_farthest`] returns: the traversal run from a stack holding
/// only `(from, 0)`, with nothing visited and `(from, 0)` as the best so
/// far.
pub open spec fn farthest_spec(edges: Seq<Seq<usize>>, from: usize) -> (usize, usize) {
    run(edges, seq![(from, 0usize)], all_unvisited(edges.len()), (from, 0usize))
}

/// Walks the graph from `from` and returns one node at maximal traversal
/// depth together with that depth, exactly as [`farthest_spec`] describes.
/// On a tree the depth of each visit is the unique hop distance from
/// `from`, so the result is a node of maximal distance; on a graph with
/// cycles it is a heuristic, not the true eccentricity.
///
/// The preconditions are the structural invariant of the adjacency
/// sequence: the start id and every recorded neighbor must have an entry.
/// A caller outside these bounds has built an inconsistent structure
/// (an id referenced but never registered); such a call fails fast with an
/// index panic naming no answer, never a silently wrong one.
pub fn get_farthest(from: usize, edges: &Vec<Vec<usize>>) -> (r: (usize, usize))
    requires
        (from as int) < edges@.len(),
        wf_edges(edges.deep_view()),
    ensures
        r == farthest_spec(edges.deep_view(), from),
        r.0 < edges@.len(),
{
    let ghost ev = edges.deep_view();
    proof {
        assert(ev.len() == edges@.len());
        assert(forall|k: int| 0 <= k < ev.len() ==> ev[k] == edges@[k].deep_view());
        assert(forall|k: int| 0 <= k < ev.len() ==> (#[trigger] ev[k]).len() <= usize::MAX) by {
            assert(forall|k: int|
                0 <= k < ev.len() ==> (#[trigger] edges@[k]).len() <= usize::MAX);
        }
    }
    let mut longest: (usize, usize) = (from, 0);
    let mut path: Vec<(usize, usize)> = Vec::new();
    path.push((from, 0));
    let n: usize = edges.len();
    let mut visited: Vec<bool> = Vec::new();
    while visited.len() < n
        invariant
            visited@.len() <= n,
            forall|k: int| 0 <= k < visited@.len() ==> !visited@[k],
        decreases n - visited@.len(),
    {
        visited.push(false);
    }
    proof {
        assert(visited@ =~= all_unvisited(ev.len()));
        assert(path@ =~= seq![(from, 0usize)]);
        assert(frames_wf(ev, path@, visited@));
        assert(wf_state(ev, path@, visited@));
    }
    while path.len() != 0
        invariant
            ev == edges.deep_view(),
            n == ev.len(),
            n == edges@.len(),
            wf_state(ev, path@, visited@),
            longest.0 < n,
            run(ev, path@, visited@, longest) == farthest_spec(ev, from),
        decreases phi(ev, path@, visited@),
    {
        let ghost stack0 = path@;
        let ghost vis0 = visited@;
        let ghost best0 = longest;
        let frame: (usize, usize) = path.pop().unwrap();
        let current: usize = frame.0;
        let i: usize = frame.1;
        proof {
            assert(stack0[stack0.len() - 1] == frame);
            assert(frame_ok(ev, frame));
            assert(path@ =~= stack0.drop_last());
            lemma_run_step(ev, stack0, vis0);
        }
        let depth: usize = path.len();
        if depth > longest.1 {
            longest = (current, depth);
        }
        visited.set(current, true);
        proof {
            assert(visited@ == vis0.update(current as int, true));
            assert(ev[current as int] == edges@[current as int].deep_view());
        }
        let deg: usize = edges[current].len();
        if i < deg {
            path.push((current, i + 1));
            let next: usize = edges[current][i];
            proof {
                assert(next == ev[current as int][i as int]);
                assert(next < n);
            }
            if !visited[next] {
                path.push((next, 0));
            }
        }
        proof {
            assert(run(ev, stack0, vis0, best0) == run(ev, path@, visited@, longest));
        }
    }
    proof {
        assert(run(ev, path@, visited@, longest) == longest);
    }
    longest
}

/// A node with no recorded neighbors is its own farthest node, at distance
/// zero. Together with the diameter contract this pins the answer for a
/// structure holding one node whose only link was a suppressed self-link.
pub proof fn lemma_farthest_single_node()
    ensures
        farthest_spec(seq![Seq::<usize>::empty()], 0) == (0usize, 0usize),
{
    let e = seq![Seq::<usize>::empty()];
    let vis0 = all_unvisited(1);
    let stack0 = seq![(0usize, 0usize)];
    assert(wf_state(e, stack0, vis0));
    reveal_with_fuel(run, 3);
    assert(stack0.drop_last() =~= Seq::<(usize, usize)>::empty());
    assert(run(e, stack0, vis0, (0usize, 0usize)) == run(
        e,
        stack0.drop_last(),
        vis0.update(0, true),
        (0usize, 0usize),
    ));
}

/// Node `b` appears in the neighbor list of node `a`.
pub open spec fn adjacent(e: Seq<Seq<usize>>, a: int, b: int) -> bool {
    &&& 0 <= a < e.len()
    &&& 0 <= b < e.len()
    &&& exists|j: int| 0 <= j < e[a].len() && ((#[trigger] e[a][j]) as int) == b
}

/// A non-empty walk through the adjacency structure that never repeats a
/// node.
pub open spec fn is_simple_path(e: Seq<Seq<usize>>, p: Seq<usize>) -> bool {
    &&& p.len() > 0
    &&& (p[0] as int) < e.len()
    &&& forall|k: int| 1 <= k < p.len() ==> adjacent(e, p[k - 1] as int, (#[trigger] p[k]) as int)
    &&& forall|k: int, l: int| 0 <= k < l < p.len() ==> p[k] != p[l]
}

/// Some simple path of exactly `hops` hops leads from `from` to `node`.
pub open spec fn reaches(e: Seq<Seq<usize>>, from: usize, node: usize, hops: usize) -> bool {
    exists|p: Seq<usize>|
        is_simple_path(e, p) && p[0] == from && p.last() == node && p.len() == hops + 1
}

/// The work stack read bottom to top is a simple path that starts at the
/// traversal's start node: consecutive frames hold adjacent nodes and no
/// node appears twice.
spec fn chain_ok(e: Seq<Seq<usize>>, stack: Seq<(usize, usize)>, from: usize) -> bool {
    &&& (stack.len() > 0 ==> stack[0].0 == from)
    &&& forall|k: int|
        1 <= k < stack.len() ==> adjacent(e, stack[k - 1].0 as int, (#[trigger] stack[k]).0 as int)
    &&& forall|k: int, l: int|
        0 <= k < l < stack.len() ==> (#[trigger] stack[k]).0 != (#[trigger] stack[l]).0
}

/// A stack whose frames hold pairwise distinct node ids below `n` has at
/// most `n` frames.
proof fn lemma_distinct_bounded(s: Seq<(usize, usize)>, n: int)
    requires
        forall|k: int, l: int| 0 <= k < l < s.len() ==> (#[trigger] s[k]).0 != (#[trigger] s[l]).0,
        forall|k: int| 0 <= k < s.len() ==> ((#[trigger] s[k]).0 as int) < n,
        0 <= n,
    ensures
        s.len() <= n,
{
    let q = Seq::new(s.len(), |k: int| s[k].0 as int);
    assert(q.no_duplicates()) by {
        assert(forall|k: int, l: int| 0 <= k < l < q.len() ==> q[k] != q[l]);
    }
    q.unique_seq_to_set();
    lemma_int_range(0, n);
    assert(q.to_set().subset_of(set_int_range(0, n))) by {
        assert forall|x: int| q.to_set().contains(x) implies set_int_range(0, n).contains(x) by {
            let k = choose|k: int| 0 <= k < q.len() && q[k] == x;
            assert(0 <= q[k] < n);
        }
    }
    lemma_len_subset(q.to_set(), set_int_range(0, n));
}

/// The work stack, read bottom to top, is itself a simple path from the
/// start node to the node on top, so the depth measured after a pop is
/// realized by a path.
proof fn lemma_stack_path(
    e: Seq<Seq<usize>>,
    stack: Seq<(usize, usize)>,
    visited: Seq<bool>,
    from: usize,
)
    requires
        wf_state(e, stack, visited),
        chain_ok(e, stack, from),
        stack.len() > 0,
    ensures
        stack.len() <= e.len(),
        reaches(e, from, stack.last().0, (stack.len() - 1) as usize),
{
    lemma_distinct_bounded(stack, e.len() as int);
    let p = Seq::new(stack.len(), |k: int| stack[k].0);
    assert(forall|k: int| 0 <= k < p.len() ==> p[k] == (#[trigger] stack[k]).0);
    assert(frame_ok(e, stack[0]));
    assert(is_simple_path(e, p));
    assert(p[0] == from);
    assert(p.last() == stack.last().0);
    assert(p.len() == ((stack.len() - 1) as usize) + 1);
}

/// One step of the traversal keeps the work stack a simple path from the
/// start node, whichever of the three successor shapes it takes.
proof fn lemma_chain_step(
    e: Seq<Seq<usize>>,
    stack: Seq<(usize, usize)>,
    visited: Seq<bool>,
    from: usize,
)
    requires
        wf_state(e, stack, visited),
        chain_ok(e, stack, from),
        stack.len() > 0,
    ensures
        ({
            let current = stack.last().0;
            let i = stack.last().1;
            let rest = stack.drop_last();
            let visited1 = visited.update(current as int, true);
            &&& chain_ok(e, rest, from)
            &&& ((i as int) < e[current as int].len() ==> ({
                let stack1 = rest.push((current, (i + 1) as usize));
                let next = e[current as int][i as int];
                &&& chain_ok(e, stack1, from)
                &&& (!visited1[next as int] ==> chain_ok(e, stack1.push((next, 0usize)), from))
            }))
        }),
{
    let frame = stack.last();
    let current = frame.0;
    let c = current as int;
    let i = frame.1;
    let rest = stack.drop_last();
    let visited1 = visited.update(c, true);
    assert(stack[stack.len() - 1] == frame);
    assert(frame_ok(e, frame));
    assert(forall|k: int| 0 <= k < rest.len() ==> rest[k] == stack[k]);
    assert(forall|k: int| 0 <= k < rest.len() ==> visited1[(#[trigger] rest[k]).0 as int]);
    assert(visited1[c]);
    assert(chain_ok(e, rest, from));
    if (i as int) < e[c].len() {
        let resume = (current, (i + 1) as usize);
        let stack1 = rest.push(resume);
        assert(forall|k: int| 0 <= k < rest.len() ==> stack1[k] == rest[k]);
        assert(stack1[stack1.len() - 1] == resume);
        assert(forall|k: int| 0 <= k < stack1.len() ==> (#[trigger] stack1[k]).0 == stack[k].0);
        assert(chain_ok(e, stack1, from));
        assert(forall|k: int| 0 <= k < stack1.len() ==> visited1[(#[trigger] stack1[k]).0 as int]);
        let next = e[c][i as int];
        if !visited1[next as int] {
            let stack2 = stack1.push((next, 0usize));
            assert(forall|k: int| 0 <= k < stack1.len() ==> stack2[k] == stack1[k]);
            assert(stack2[stack2.len() - 1] == (next, 0usize));
            assert(adjacent(e, c, next as int)) by {
                assert(0 <= i < e[c].len() && ((e[c][i as int]) as int) == next as int);
            }
            assert(forall|k: int, l: int|
                0 <= k < l < stack2.len() ==> (#[trigger] stack2[k]).0 != (
                #[trigger] stack2[l]).0) by {
                assert(forall|k: int| 0 <= k < stack1.len() ==> (#[trigger] stack2[k]).0 != next);
            }
            assert(chain_ok(e, stack2, from));
        }
    }
}

/// Whatever depth the traversal reports was measured along the work stack,
/// which is a real simple path: if the best answer so far is reached by a
/// path, so is the final answer.
proof fn lemma_run_reaches(
    e: Seq<Seq<usize>>,
    stack: Seq<(usize, usize)>,
    visited: Seq<bool>,
    best: (usize, usize),
    from: usize,
)
    requires
        wf_state(e, stack, visited),
        chain_ok(e, stack, from),
        reaches(e, from, best.0, best.1),
    ensures
        reaches(e, from, run(e, stack, visited, best).0, run(e, stack, visited, best).1),
    decreases phi(e, stack, visited),
{
    if stack.len() > 0 {
        let frame = stack.last();
        let current = frame.0;
        let c = current as int;
        let i = frame.1;
        let rest = stack.drop_last();
        let visited1 = visited.update(c, true);
        lemma_run_step(e, stack, visited);
        lemma_chain_step(e, stack, visited, from);

        let best1 = if rest.len() > best.1 {
            (current, rest.len() as usize)
        } else {
            best
        };
        if rest.len() > best.1 {
            lemma_stack_path(e, stack, visited, from);
            assert(rest.len() as usize as int == rest.len());
            assert(reaches(e, from, best1.0, best1.1));
        }
        assert(reaches(e, from, best1.0, best1.1));

        let deg = e[c].len();
        if (i as int) < deg {
            let stack1 = rest.push((current, (i + 1) as usize));
            let next = e[c][i as int];
            if !visited1[next as int] {
                let stack2 = stack1.push((next, 0usize));
                lemma_run_reaches(e, stack2, visited1, best1, from);
                assert(run(e, stack, visited, best) == run(e, stack2, visited1, best1));
            } else {
                lemma_run_reaches(e, stack1, visited1, best1, from);
                assert(run(e, stack, visited, best) == run(e, stack1, visited1, best1));
            }
        } else {
            lemma_run_reaches(e, rest, visited1, best1, from);
            assert(run(e, stack, visited, best) == run(e, rest, visited1, best1));
        }
    }
}

/// The distance the farthest search reports is realized by an actual simple
/// path from the start node to the returned node. On a tree the simple path
/// between two nodes is unique, so there the reported distance is the true
/// hop distance to the returned node.
pub proof fn lemma_farthest_is_reached(e: Seq<Seq<usize>>, from: usize)
    requires
        wf_edges(e),
        bounded_edges(e),
        e.len() <= usize::MAX,
        (from as int) < e.len(),
    ensures
        reaches(e, from, farthest_spec(e, from).0, farthest_spec(e, from).1),
{
    let stack0 = seq![(from, 0usize)];
    let vis0 = all_unvisited(e.len());
    assert(wf_state(e, stack0, vis0));
    assert(chain_ok(e, stack0, from));
    let p0 = seq![from];
    assert(is_simple_path(e, p0));
    assert(p0[0] == from && p0.last() == from && p0.len() == 1);
    assert(reaches(e, from, from, 0));
    lemma_run_reaches(e, stack0, vis0, (from, 0usize), from);
}

/// The traversal only ever proposes nodes it popped from the stack, so the
/// answer is a valid node id whenever the initial best is.
proof fn lemma_run_in_range(
    e: Seq<Seq<usize>>,
    stack: Seq<(usize, usize)>,
    visited: Seq<bool>,
    best: (usize, usize),
)
    requires
        wf_state(e, stack, visited),
        (best.0 as int) < e.len(),
    ensures
        (run(e, stack, visited, best).0 as int) < e.len(),
    decreases phi(e, stack, visited),
{
    if stack.len() > 0 {
        let frame = stack.last();
        let current = frame.0;
        let c = current as int;
        let i = frame.1;
        let rest = stack.drop_last();
        let visited1 = visited.update(c, true);
        lemma_run_step(e, stack, visited);
        assert(stack[stack.len() - 1] == frame);
        assert(frame_ok(e, frame));
        let best1 = if rest.len() > best.1 {
            (current, rest.len() as usize)
        } else {
            best
        };
        let deg = e[c].len();
        if (i as int) < deg {
            let stack1 = rest.push((current, (i + 1) as usize));
            let next = e[c][i as int];
            if !visited1[next as int] {
                lemma_run_in_range(e, stack1.push((next, 0usize)), visited1, best1);
            } else {
                lemma_run_in_range(e, stack1, visited1, best1);
            }
        } else {
            lemma_run_in_range(e, rest, visited1, best1);
        }
    }
}

/// The farthest search returns a valid node id.
pub proof fn lemma_farthest_in_range(e: Seq<Seq<usize>>, from: usize)
    requires
        wf_edges(e),
        bounded_edges(e),
        e.len() <= usize::MAX,
        (from as int) < e.len(),
    ensures
        (farthest_spec(e, from).0 as int) < e.len(),
{
    let stack0 = seq![(from, 0usize)];
    let vis0 = all_unvisited(e.len());
    assert(wf_state(e, stack0, vis0));
    lemma_run_in_range(e, stack0, vis0, (from, 0usize));
}

/// The two nodes a double sweep reports are joined by a simple path whose
/// hop count is the reported diameter distance: the sweep never reports a
/// distance that no path realizes. On a tree, where simple paths are
/// unique, the reported distance is therefore the true hop distance
/// between the two reported endpoints.
pub proof fn lemma_double_sweep_pair_connected(e: Seq<Seq<usize>>)
    requires
        wf_edges(e),
        bounded_edges(e),
        e.len() <= usize::MAX,
        0 < e.len(),
    ensures
        ({
            let first = farthest_spec(e, 0);
            let second = farthest_spec(e, first.0);
            reaches(e, first.0, second.0, second.1)
        }),
{
    lemma_farthest_in_range(e, 0);
    lemma_farthest_is_reached(e, farthest_spec(e, 0).0);
}

/// No node id occurs in two frames of the work stack.
spec fn distinct_frames(stack: Seq<(usize, usize)>) -> bool {
    forall|k: int, l: int|
        0 <= k < l < stack.len() ==> (#[trigger] stack[k]).0 != (#[trigger] stack[l]).0
}

/// The best answer only ever improves: the final depth is at least the
/// starting one, and when it did not improve the answer is the starting
/// one, unchanged.
proof fn lemma_run_monotone(
    e: Seq<Seq<usize>>,
    stack: Seq<(usize, usize)>,
    visited: Seq<bool>,
    best: (usize, usize),
)
    requires
        wf_state(e, stack, visited),
        distinct_frames(stack),
    ensures
        run(e, stack, visited, best).1 >= best.1,
        run(e, stack, visited, best).1 == best.1 ==> run(e, stack, visited, best) == best,
    decreases phi(e, stack, visited),
{
    if stack.len() > 0 {
        let frame = stack.last();
        let current = frame.0;
        let c = current as int;
        let i = frame.1;
        let rest = stack.drop_last();
        let visited1 = visited.update(c, true);
        lemma_run_step(e, stack, visited);
        assert(stack[stack.len() - 1] == frame);
        assert(frame_ok(e, frame));
        assert(forall|k: int| 0 <= k < rest.len() ==> rest[k] == stack[k]);
        assert(forall|k: int| 0 <= k < rest.len() ==> visited1[(#[trigger] rest[k]).0 as int]);
        assert(visited1[c]);
        let best1 = if rest.len() > best.1 {
            (current, rest.len() as usize)
        } else {
            best
        };
        if rest.len() > best.1 {
            lemma_distinct_bounded(stack, e.len() as int);
            assert(rest.len() as usize as int == rest.len());
            assert(best1.1 > best.1);
        }
        let deg = e[c].len();
        if (i as int) < deg {
            let stack1 = rest.push((current, (i + 1) as usize));
            assert(forall|k: int| 0 <= k < rest.len() ==> stack1[k] == rest[k]);
            assert(stack1[stack1.len() - 1] == (current, (i + 1) as usize));
            assert(forall|k: int| 0 <= k < stack1.len() ==> (#[trigger] stack1[k]).0 == stack[k].0);
            assert(distinct_frames(stack1));
            assert(forall|k: int| 0 <= k < stack1.len() ==> visited1[(#[trigger] stack1[k]).0 as int]);
            let next = e[c][i as int];
            if !visited1[next as int] {
                let stack2 = stack1.push((next, 0usize));
                assert(forall|k: int| 0 <= k < stack1.len() ==> stack2[k] == stack1[k]);
                assert(stack2[stack2.len() - 1] == (next, 0usize));
                assert(distinct_frames(stack2)) by {
                    assert(forall|k: int|
                        0 <= k < stack1.len() ==> (#[trigger] stack2[k]).0 != next);
                }
                lemma_run_monotone(e, stack2, visited1, best1);
                assert(run(e, stack, visited, best) == run(e, stack2, visited1, best1));
            } else {
                lemma_run_monotone(e, stack1, visited1, best1);
                assert(run(e, stack, visited, best) == run(e, stack1, visited1, best1));
            }
        } else {
            assert(distinct_frames(rest));
            lemma_run_monotone(e, rest, visited1, best1);
            assert(run(e, stack, visited, best) == run(e, rest, visited1, best1));
        }
    }
}

/// A sweep that reports depth zero never left its start: the node it
/// returns is the start node itself.
pub proof fn lemma_farthest_zero_is_start(e: Seq<Seq<usize>>, from: usize)
    requires
        wf_edges(e),
        bounded_edges(e),
        e.len() <= usize::MAX,
        (from as int) < e.len(),
    ensures
        farthest_spec(e, from).1 == 0 ==> farthest_spec(e, from).0 == from,
{
    let stack0 = seq![(from, 0usize)];
    let vis0 = all_unvisited(e.len());
    assert(wf_state(e, stack0, vis0));
    assert(distinct_frames(stack0));
    lemma_run_monotone(e, stack0, vis0, (from, 0usize));
}

/// A start node with a recorded neighbor other than itself is not its own
/// farthest node: the sweep descends into that neighbor, so the reported
/// depth is at least one hop.
pub proof fn lemma_farthest_sees_a_neighbor(e: Seq<Seq<usize>>, from: usize)
    requires
        wf_edges(e),
        bounded_edges(e),
        e.len() <= usize::MAX,
        (from as int) < e.len(),
        e[from as int].len() > 0,
        e[from as int][0] != from,
    ensures
        farthest_spec(e, from).1 >= 1,
{
    let c = from as int;
    let stack0 = seq![(from, 0usize)];
    let vis0 = all_unvisited(e.len());
    let best0 = (from, 0usize);
    assert(wf_state(e, stack0, vis0));

    // first step: pop (from, 0), visit the start, descend into its first
    // neighbor
    let rest0 = stack0.drop_last();
    assert(rest0 =~= Seq::<(usize, usize)>::empty());
    let vis1 = vis0.update(c, true);
    let next = e[c][0];
    let stack1 = rest0.push((from, 1usize)).push((next, 0usize));
    assert((0 + 1) as usize == 1usize);
    assert(!vis1[next as int]);
    assert(run(e, stack0, vis0, best0) == run(e, stack1, vis1, best0));
    lemma_run_step(e, stack0, vis0);
    assert(wf_state(e, stack1, vis1));

    // second step: pop (next, 0) at depth one, which becomes the best
    let rest1 = stack1.drop_last();
    assert(rest1 =~= rest0.push((from, 1usize)));
    assert(rest1.len() == 1);
    let best1 = (next, 1usize);
    lemma_run_step(e, stack1, vis1);
    let vis2 = vis1.update(next as int, true);
    assert(stack1.last() == (next, 0usize));
    assert(wf_state(e, rest1, vis2));
    if 0 < e[next as int].len() {
        let stack2 = rest1.push((next, 1usize));
        assert(stack2[0] == (from, 1usize) && stack2[1] == (next, 1usize));
        assert(distinct_frames(stack2));
        let next2 = e[next as int][0];
        if !vis2[next2 as int] {
            let stack3 = stack2.push((next2, 0usize));
            assert(stack3[0] == (from, 1usize) && stack3[1] == (next, 1usize) && stack3[2] == (
            next2,
            0usize,
            ));
            assert(next2 != from && next2 != next);
            assert(distinct_frames(stack3));
            lemma_run_monotone(e, stack3, vis2, best1);
            assert(run(e, stack1, vis1, best0) == run(e, stack3, vis2, best1));
        } else {
            lemma_run_monotone(e, stack2, vis2, best1);
            assert(run(e, stack1, vis1, best0) == run(e, stack2, vis2, best1));
        }
    } else {
        assert(rest1[0] == (from, 1usize));
        assert(distinct_frames(rest1));
        lemma_run_monotone(e, rest1, vis2, best1);
        assert(run(e, stack1, vis1, best0) == run(e, rest1, vis2, best1));
    }
}

} // verus!
