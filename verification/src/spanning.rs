//! A spanning tree built incrementally from named edges: a name registry in
//! first-seen order and an adjacency sequence indexed by node id, kept
//! symmetric and free of self-loops.

use crate::names::add_or_get;
use crate::names::distinct_names;
use crate::names::find_name;
use crate::names::has_name;
use crate::names::intern;
use crate::names::lemma_name_id_props;
use crate::names::name_id;
use crate::search::farthest_spec;
use crate::search::get_farthest;
use crate::search::wf_edges;
use vstd::prelude::*;
use vstd::string::StringExecFns;

verus! {

/// How many times node id `x` occurs in the neighbor list `s`.
pub open spec fn occ(s: Seq<usize>, x: int) -> nat
    decreases s.len(),
{
    if s.len() == 0 {
        0
    } else {
        occ(s.drop_last(), x) + if s.last() as int == x {
            1nat
        } else {
            0nat
        }
    }
}

/// Links are recorded symmetrically: `j` occurs in entry `i` exactly as
/// often as `i` occurs in entry `j`.
pub open spec fn sym_edges(e: Seq<Seq<usize>>) -> bool {
    forall|i: int, j: int|
        0 <= i < e.len() && 0 <= j < e.len() ==> #[trigger] occ(e[i], j) == occ(e[j], i)
}

/// No entry records its own node: self-loops are suppressed.
pub open spec fn no_self_loops(e: Seq<Seq<usize>>) -> bool {
    forall|i: int| 0 <= i < e.len() ==> #[trigger] occ(e[i], i) == 0
}

/// The adjacency sequence extended with empty entries up to length `n`.
pub open spec fn grow_adj(e: Seq<Seq<usize>>, n: nat) -> Seq<Seq<usize>> {
    Seq::new(
        n,
        |i: int|
            if i < e.len() {
                e[i]
            } else {
                Seq::<usize>::empty()
            },
    )
}

/// The registry after `add_link(from, to)`: both names interned in order.
pub open spec fn link_names(names: Seq<Seq<char>>, from: Seq<char>, to: Seq<char>) -> Seq<
    Seq<char>,
> {
    intern(intern(names, from), to)
}

/// The id `add_link(from, to)` assigns or finds for `to`: looked up after
/// `from` has been interned.
pub open spec fn link_to_id(names: Seq<Seq<char>>, from: Seq<char>, to: Seq<char>) -> int {
    name_id(intern(names, from), to)
}

/// The adjacency sequence after `add_link(from, to)`: grown in lockstep with
/// the registry, then - unless the two ids coincide - each endpoint appended
/// to the other's entry. A self-link grows the structure but mutates no
/// entry.
pub open spec fn link_adj(
    e: Seq<Seq<usize>>,
    names: Seq<Seq<char>>,
    from: Seq<char>,
    to: Seq<char>,
) -> Seq<Seq<usize>> {
    let a = name_id(names, from);
    let b = link_to_id(names, from, to);
    let g = grow_adj(e, link_names(names, from, to).len());
    if a == b {
        g
    } else {
        let g1 = g.update(a, g[a].push(b as usize));
        g1.update(b, g1[b].push(a as usize))
    }
}

/// Appending `y` to a neighbor list raises exactly the count of `y`.
proof fn lemma_occ_push(s: Seq<usize>, y: usize, x: int)
    ensures
        occ(s.push(y), x) == occ(s, x) + if y as int == x {
            1nat
        } else {
            0nat
        },
{
    assert(s.push(y).drop_last() =~= s);
    assert(s.push(y).last() == y);
}

/// A value that appears nowhere in the list has count zero.
proof fn lemma_occ_absent(s: Seq<usize>, x: int)
    requires
        forall|k: int| 0 <= k < s.len() ==> (#[trigger] s[k]) as int != x,
    ensures
        occ(s, x) == 0,
    decreases s.len(),
{
    if s.len() > 0 {
        let rest = s.drop_last();
        assert(forall|k: int| 0 <= k < rest.len() ==> rest[k] == s[k]);
        lemma_occ_absent(rest, x);
        assert(s.last() == s[s.len() - 1]);
    }
}

/// Growing the adjacency sequence with empty entries preserves all three
/// adjacency invariants.
proof fn lemma_grow_adj_wf(e: Seq<Seq<usize>>, n: nat)
    requires
        wf_edges(e),
        sym_edges(e),
        no_self_loops(e),
        e.len() <= n,
    ensures
        wf_edges(grow_adj(e, n)),
        sym_edges(grow_adj(e, n)),
        no_self_loops(grow_adj(e, n)),
{
    let g = grow_adj(e, n);
    assert forall|i: int, j: int|
        0 <= i < g.len() && 0 <= j < g[i].len() implies (#[trigger] g[i][j]) < g.len() by {
        if i < e.len() {
            assert(g[i] == e[i]);
            assert(e[i][j] < e.len());
        } else {
            assert(g[i].len() == 0);
        }
    }
    assert forall|i: int, j: int|
        0 <= i < g.len() && 0 <= j < g.len() implies #[trigger] occ(g[i], j) == occ(g[j], i) by {
        if i < e.len() && j < e.len() {
            assert(g[i] == e[i] && g[j] == e[j]);
            assert(occ(e[i], j) == occ(e[j], i));
        } else {
            if i < e.len() {
                // j is a fresh id: no old entry mentions it
                assert(forall|k: int|
                    0 <= k < e[i].len() ==> ((#[trigger] e[i][k]) as int) < e.len());
                lemma_occ_absent(e[i], j);
                assert(g[j].len() == 0);
                assert(occ(g[j], i) == 0);
            } else if j < e.len() {
                assert(forall|k: int|
                    0 <= k < e[j].len() ==> ((#[trigger] e[j][k]) as int) < e.len());
                lemma_occ_absent(e[j], i);
                assert(g[i].len() == 0);
                assert(occ(g[i], j) == 0);
            } else {
                assert(g[i].len() == 0 && g[j].len() == 0);
            }
        }
    }
    assert forall|i: int| 0 <= i < g.len() implies #[trigger] occ(g[i], i) == 0 by {
        if i < e.len() {
            assert(g[i] == e[i]);
        } else {
            assert(g[i].len() == 0);
        }
    }
}

/// Appending two distinct endpoints to each other's entries preserves all
/// three adjacency invariants.
proof fn lemma_double_push_wf(g: Seq<Seq<usize>>, a: int, b: int)
    requires
        wf_edges(g),
        sym_edges(g),
        no_self_loops(g),
        0 <= a < g.len(),
        0 <= b < g.len(),
        a != b,
        g.len() <= usize::MAX,
    ensures
        ({
            let g1 = g.update(a, g[a].push(b as usize));
            let g2 = g1.update(b, g1[b].push(a as usize));
            &&& wf_edges(g2)
            &&& sym_edges(g2)
            &&& no_self_loops(g2)
            &&& g2.len() == g.len()
        }),
{
    let g1 = g.update(a, g[a].push(b as usize));
    let g2 = g1.update(b, g1[b].push(a as usize));
    assert(g1[b] == g[b]);
    assert(g2[a] == g[a].push(b as usize));
    assert(g2[b] == g[b].push(a as usize));
    assert(forall|i: int| 0 <= i < g.len() && i != a && i != b ==> g2[i] == g[i]);

    assert forall|i: int, j: int|
        0 <= i < g2.len() && 0 <= j < g2[i].len() implies (#[trigger] g2[i][j]) < g2.len() by {
        if i == a {
            if j < g[a].len() {
                assert(g2[i][j] == g[a][j]);
            } else {
                assert(g2[i][j] == b as usize);
            }
        } else if i == b {
            if j < g[b].len() {
                assert(g2[i][j] == g[b][j]);
            } else {
                assert(g2[i][j] == a as usize);
            }
        } else {
            assert(g2[i] == g[i]);
        }
    }

    assert forall|i: int, j: int|
        0 <= i < g2.len() && 0 <= j < g2.len() implies #[trigger] occ(g2[i], j) == occ(g2[j], i) by {
        lemma_occ_push(g[a], b as usize, j);
        lemma_occ_push(g[b], a as usize, j);
        lemma_occ_push(g[a], b as usize, i);
        lemma_occ_push(g[b], a as usize, i);
        assert(occ(g[i], j) == occ(g[j], i));
        assert(occ(g[a], b) == occ(g[b], a));
        if i == a {
            assert(occ(g2[a], j) == occ(g[a], j) + if j == b { 1nat } else { 0nat });
        } else if i == b {
            assert(occ(g2[b], j) == occ(g[b], j) + if j == a { 1nat } else { 0nat });
        } else {
            assert(occ(g2[i], j) == occ(g[i], j));
        }
        if j == a {
            assert(occ(g2[a], i) == occ(g[a], i) + if i == b { 1nat } else { 0nat });
        } else if j == b {
            assert(occ(g2[b], i) == occ(g[b], i) + if i == a { 1nat } else { 0nat });
        } else {
            assert(occ(g2[j], i) == occ(g[j], i));
        }
    }

    assert forall|i: int| 0 <= i < g2.len() implies #[trigger] occ(g2[i], i) == 0 by {
        lemma_occ_push(g[a], b as usize, i);
        lemma_occ_push(g[b], a as usize, i);
        assert(occ(g[i], i) == 0);
    }
}

/// A representation of a spanning tree: an undirected graph accumulated
/// from named links, intended to be acyclic. Names get dense ids in
/// first-seen order; links are stored symmetrically; self-links register
/// their node but are never recorded.
#[derive(Debug, Clone)]
pub struct SpanningTree {
    nodes: Vec<String>,
    edges: Vec<Vec<usize>>,
}

impl SpanningTree {
    /// The registered names, in id order.
    pub closed spec fn names(&self) -> Seq<Seq<char>> {
        self.nodes.deep_view()
    }

    /// The adjacency entries, in id order.
    pub closed spec fn adj(&self) -> Seq<Seq<usize>> {
        self.edges.deep_view()
    }

    /// Structural invariant: registry and adjacency grow in lockstep, names
    /// are deduplicated, and the adjacency entries are in-range, symmetric
    /// and self-loop-free.
    pub open spec fn wf(&self) -> bool {
        &&& self.adj().len() == self.names().len()
        &&& distinct_names(self.names())
        &&& wf_edges(self.adj())
        &&& sym_edges(self.adj())
        &&& no_self_loops(self.adj())
    }
}

impl Default for SpanningTree {
    /// An empty tree: no nodes, no links.
    fn default() -> (r: Self)
        ensures
            r.wf(),
            r.names().len() == 0,
            r.adj().len() == 0,
    {
        let r = SpanningTree { nodes: Vec::new(), edges: Vec::new() };
        proof {
            assert(r.names() =~= Seq::<Seq<char>>::empty());
            assert(r.adj() =~= Seq::<Seq<usize>>::empty());
        }
        r
    }
}

impl SpanningTree {
    /// Add an edge to the tree; missing nodes are created. Returns the ids
    /// of the two endpoints. A link whose endpoints are the same name
    /// registers the node but leaves every adjacency entry unchanged.
    pub fn add_link(&mut self, from: &str, to: &str) -> (r: (usize, usize))
        requires
            old(self).wf(),
            old(self).names().len() + 2 <= usize::MAX,
        ensures
            final(self).wf(),
            final(self).names() == link_names(old(self).names(), from@, to@),
            final(self).adj() == link_adj(
                old(self).adj(),
                old(self).names(),
                from@,
                to@,
            ),
            r.0 as int == name_id(old(self).names(), from@),
            r.1 as int == link_to_id(old(self).names(), from@, to@),
            r.0 < final(self).names().len(),
            r.1 < final(self).names().len(),
            final(self).names()[r.0 as int] == from@,
            final(self).names()[r.1 as int] == to@,
    {
        let ghost names0 = self.names();
        let ghost adj0 = self.adj();
        let from_string: String = String::from_str(from);
        let to_string: String = String::from_str(to);

        let idf: usize = add_or_get(&mut self.nodes, &from_string);
        if self.edges.len() < self.nodes.len() {
            self.edges.push(Vec::new());
        }
        let ghost names1 = self.names();
        proof {
            assert(names1 == intern(names0, from@));
            assert(self.adj() =~~= grow_adj(adj0, names1.len()));
        }
        let ghost adj1 = self.adj();

        let idt: usize = add_or_get(&mut self.nodes, &to_string);
        if self.edges.len() < self.nodes.len() {
            self.edges.push(Vec::new());
        }
        let ghost names2 = self.names();
        proof {
            assert(names2 == link_names(names0, from@, to@));
            assert(self.adj() =~~= grow_adj(adj1, names2.len()));
            assert(self.adj() =~~= grow_adj(adj0, names2.len()));
            lemma_grow_adj_wf(adj0, names2.len());
        }
        let ghost grown = self.adj();

        proof {
            assert(self.nodes.len() == names2.len());
            assert(names2.len() <= usize::MAX);
        }
        if idf != idt {
            proof {
                lemma_double_push_wf(grown, idf as int, idt as int);
            }
            let ghost e0 = self.edges@;
            let mut row_f: Vec<usize> = self.edges.remove(idf);
            row_f.push(idt);
            let ghost rf = row_f@;
            self.edges.insert(idf, row_f);
            proof {
                assert(self.edges@ =~= e0.update(idf as int, self.edges@[idf as int]));
                assert(self.edges@[idf as int]@ == rf);
                assert(rf == e0[idf as int]@.push(idt));
                assert(self.adj() =~~= grown.update(
                    idf as int,
                    grown[idf as int].push(idt),
                ));
            }
            let ghost g1 = self.adj();
            let ghost e1 = self.edges@;
            let mut row_t: Vec<usize> = self.edges.remove(idt);
            row_t.push(idf);
            let ghost rt = row_t@;
            self.edges.insert(idt, row_t);
            proof {
                assert(self.edges@ =~= e1.update(idt as int, self.edges@[idt as int]));
                assert(self.edges@[idt as int]@ == rt);
                assert(rt == e1[idt as int]@.push(idf));
                assert(self.adj() =~~= g1.update(idt as int, g1[idt as int].push(idf)));
                assert(self.adj() =~~= link_adj(adj0, names0, from@, to@));
                assert(self.adj() == link_adj(adj0, names0, from@, to@));
            }
        } else {
            proof {
                assert(self.adj() == link_adj(adj0, names0, from@, to@));
            }
        }
        (idf, idt)
    }
}

impl SpanningTree {
    /// Calculate the diameter and two of the farthest nodes; `None` exactly
    /// when the structure is empty. Otherwise the first sweep starts at node
    /// 0 and the second starts where the first ended, and the result is the
    /// second sweep's depth with the two endpoints' names. On a tree this is
    /// the exact diameter; on a graph with cycles it is a heuristic
    /// approximation, since each sweep visits every node once.
    pub fn diameter(&self) -> (r: Option<(usize, String, String)>)
        requires
            self.wf(),
        ensures
            (r is None) <==> self.names().len() == 0,
            self.names().len() > 0 ==> (r matches Some(t) && ({
                let first = farthest_spec(self.adj(), 0);
                let second = farthest_spec(self.adj(), first.0);
                &&& t.0 == second.1
                &&& t.1@ == self.names()[first.0 as int]
                &&& t.2@ == self.names()[second.0 as int]
            })),
    {
        if self.edges.is_empty() {
            return None;
        }
        proof {
            assert(self.adj().len() == self.edges@.len());
        }
        let first: (usize, usize) = get_farthest(0, &self.edges);
        let second: (usize, usize) = get_farthest(first.0, &self.edges);
        proof {
            assert(self.names()[first.0 as int] == self.nodes@[first.0 as int]@);
            assert(self.names()[second.0 as int] == self.nodes@[second.0 as int]@);
        }
        Some((second.1, self.nodes[first.0].clone(), self.nodes[second.0].clone()))
    }

    /// Retrieve the internal adjacency representation and the list of
    /// names, useful for feeding into [`get_farthest`] directly.
    pub fn tree(&self) -> (r: (&Vec<Vec<usize>>, &Vec<String>))
        ensures
            r.0.deep_view() == self.adj(),
            r.1.deep_view() == self.names(),
    {
        (&self.edges, &self.nodes)
    }

    /// Retrieve the id number corresponding to a name; `None` exactly when
    /// the name was never registered.
    pub fn get_id(&self, name: &str) -> (r: Option<usize>)
        ensures
            r == (if name_id(self.names(), name@) < self.names().len() {
                Some(name_id(self.names(), name@) as usize)
            } else {
                None::<usize>
            }),
            (r is Some) <==> has_name(self.names(), name@),
    {
        let name_string: String = String::from_str(name);
        let k: usize = find_name(&self.nodes, &name_string);
        proof {
            lemma_name_id_props(self.names(), name@);
        }
        if k < self.nodes.len() {
            Some(k)
        } else {
            None
        }
    }
}

/// Repeated `add_link` calls whose names are both already registered never
/// increase the node count: the registry is left exactly as it was. The
/// links still accumulate: when the two ids differ, each endpoint's
/// adjacency entry grows by one duplicate, a parallel edge.
pub proof fn lemma_repeat_link_adds_no_nodes(
    e: Seq<Seq<usize>>,
    names: Seq<Seq<char>>,
    from: Seq<char>,
    to: Seq<char>,
)
    requires
        has_name(names, from),
        has_name(names, to),
        e.len() == names.len(),
    ensures
        link_names(names, from, to) == names,
        link_adj(e, names, from, to).len() == e.len(),
        ({
            let a = name_id(names, from);
            let b = name_id(names, to);
            a != b ==> link_adj(e, names, from, to)[a].len() == e[a].len() + 1 && link_adj(
                e,
                names,
                from,
                to,
            )[b].len() == e[b].len() + 1
        }),
{
    lemma_name_id_props(names, from);
    assert(intern(names, from) == names);
    lemma_name_id_props(names, to);
    assert(intern(names, to) == names);
    assert(link_names(names, from, to) == names);
    assert(link_to_id(names, from, to) == name_id(names, to));
    let g = grow_adj(e, names.len());
    assert(g =~= e);
    let a = name_id(names, from);
    let b = name_id(names, to);
    if a != b {
        let g1 = g.update(a, g[a].push(b as usize));
        let g2 = g1.update(b, g1[b].push(a as usize));
        assert(link_adj(e, names, from, to) == g2);
        assert(g2[a] == e[a].push(b as usize));
        assert(g2[b] == e[b].push(a as usize));
    }
}

/// A self-link registers its node but mutates no adjacency entry: every
/// entry that already existed is unchanged, and the entry of a newly
/// registered node is empty.
pub proof fn lemma_self_link_changes_no_entry(
    e: Seq<Seq<usize>>,
    names: Seq<Seq<char>>,
    n: Seq<char>,
)
    requires
        e.len() == names.len(),
    ensures
        has_name(link_names(names, n, n), n),
        link_adj(e, names, n, n).len() == link_names(names, n, n).len(),
        forall|i: int| 0 <= i < e.len() ==> link_adj(e, names, n, n)[i] == e[i],
        forall|i: int|
            e.len() <= i < link_adj(e, names, n, n).len() ==> link_adj(e, names, n, n)[i]
                == Seq::<usize>::empty(),
{
    lemma_name_id_props(names, n);
    let names1 = intern(names, n);
    lemma_name_id_props(names1, n);
    if name_id(names, n) < names.len() {
        assert(names1 == names);
    } else {
        assert(names1 == names.push(n));
        assert(names1[names.len() as int] == n);
        assert(has_name(names1, n));
        if name_id(names1, n) < names.len() {
            assert(names1[name_id(names1, n)] == names[name_id(names1, n)]);
            assert(names1[name_id(names1, n)] == n);
            assert(name_id(names, n) <= name_id(names1, n));
            assert(false);
        }
        assert(name_id(names1, n) == names.len());
    }
    assert(link_to_id(names, n, n) == name_id(names, n));
    assert(intern(names1, n) == names1);
    assert(link_names(names, n, n) == names1);
}

} // verus!
