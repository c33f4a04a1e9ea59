//! Map-style builder functions predating [`crate::SpanningTree`]: the
//! caller owns a name registry and an adjacency table keyed by dense ids
//! and threads them through repeated calls. Unlike the tree's own
//! `add_link`, these record self-links in the adjacency table.

use crate::names::add_or_get;
use crate::names::distinct_names;
use crate::names::intern;
use crate::names::name_id;
use crate::search::wf_edges;
use vstd::prelude::*;

verus! {

/// The caller-owned pair is well formed: names are deduplicated, the table
/// has exactly one entry per registered name, and every recorded id refers
/// to an entry.
pub open spec fn wf_maps(names: Seq<Seq<char>>, servers: Seq<Seq<usize>>) -> bool {
    &&& distinct_names(names)
    &&& servers.len() == names.len()
    &&& wf_edges(servers)
}

/// One half of a link: id `b` appended to the entry of id `a`, which is
/// created as a fresh one-element entry when `a` is the next unused id.
pub open spec fn attach(s: Seq<Seq<usize>>, a: int, b: usize) -> Seq<Seq<usize>> {
    if a < s.len() {
        s.update(a, s[a].push(b))
    } else {
        s.push(seq![b])
    }
}

/// The adjacency table after `add_link(from, to)`: both names interned,
/// then each endpoint recorded in the other's entry. A self-link records
/// its own id twice in one entry.
pub open spec fn link_servers(
    s: Seq<Seq<usize>>,
    names: Seq<Seq<char>>,
    from: Seq<char>,
    to: Seq<char>,
) -> Seq<Seq<usize>> {
    let a = name_id(names, from);
    let b = name_id(intern(names, from), to);
    attach(attach(s, a, b as usize), b, a as usize)
}

/// Record an undirected link between two named nodes, interning missing
/// names and growing the adjacency table in lockstep.
pub fn add_link(
    from: String,
    to: String,
    namelookup: &mut Vec<String>,
    servers: &mut Vec<Vec<usize>>,
)
    requires
        wf_maps(old(namelookup).deep_view(), old(servers).deep_view()),
        old(namelookup)@.len() + 2 <= usize::MAX,
    ensures
        final(namelookup).deep_view() == crate::spanning::link_names(
            old(namelookup).deep_view(),
            from@,
            to@,
        ),
        final(servers).deep_view() == link_servers(
            old(servers).deep_view(),
            old(namelookup).deep_view(),
            from@,
            to@,
        ),
        wf_maps(final(namelookup).deep_view(), final(servers).deep_view()),
{
    let ghost names0 = namelookup.deep_view();
    let ghost servers0 = servers.deep_view();
    let ghost a = name_id(names0, from@);
    let idf: usize = add_or_get(namelookup, &from);
    let ghost names1 = namelookup.deep_view();
    let idt: usize = add_or_get(namelookup, &to);
    let ghost names2 = namelookup.deep_view();
    let ghost b = name_id(names1, to@);

    if idf < servers.len() {
        let mut row: Vec<usize> = servers.remove(idf);
        row.push(idt);
        let ghost rf = row@;
        servers.insert(idf, row);
        proof {
            assert(servers@ =~= old(servers)@.update(idf as int, servers@[idf as int]));
            assert(servers@[idf as int]@ == rf);
            assert(servers.deep_view() =~~= attach(servers0, a, idt));
        }
    } else {
        let mut row: Vec<usize> = Vec::new();
        row.push(idt);
        servers.push(row);
        proof {
            assert(servers.deep_view() =~~= attach(servers0, a, idt));
        }
    }
    let ghost servers1 = servers.deep_view();

    if idt < servers.len() {
        let ghost e1 = servers@;
        let mut row: Vec<usize> = servers.remove(idt);
        row.push(idf);
        let ghost rt = row@;
        servers.insert(idt, row);
        proof {
            assert(servers@ =~= e1.update(idt as int, servers@[idt as int]));
            assert(servers@[idt as int]@ == rt);
            assert(servers.deep_view() =~~= attach(servers1, b, idf));
        }
    } else {
        let mut row: Vec<usize> = Vec::new();
        row.push(idf);
        servers.push(row);
        proof {
            assert(servers.deep_view() =~~= attach(servers1, b, idf));
        }
    }
    proof {
        assert(servers.deep_view() == link_servers(servers0, names0, from@, to@));
        assert(namelookup.deep_view() == crate::spanning::link_names(names0, from@, to@));
        lemma_attach_wf(servers0, names0, names2, a, b, idf, idt);
    }
}

/// Both halves of a link keep the pair well formed: the table tracks the
/// registry's length and every recorded id stays in range.
proof fn lemma_attach_wf(
    servers0: Seq<Seq<usize>>,
    names0: Seq<Seq<char>>,
    names2: Seq<Seq<char>>,
    a: int,
    b: int,
    idf: usize,
    idt: usize,
)
    requires
        distinct_names(names2),
        servers0.len() == names0.len(),
        wf_edges(servers0),
        idf as int == a,
        idt as int == b,
        0 <= a < names2.len(),
        0 <= b < names2.len(),
        names2.len() <= servers0.len() + 2,
        a < servers0.len() + 1,
        b <= servers0.len() + 1,
        ({
            let s1 = attach(servers0, a, idt);
            let s2 = attach(s1, b, idf);
            names2.len() == s2.len()
        }),
    ensures
        ({
            let s1 = attach(servers0, a, idt);
            let s2 = attach(s1, b, idf);
            wf_edges(s2) && s2.len() == names2.len()
        }),
{
    let s1 = attach(servers0, a, idt);
    let s2 = attach(s1, b, idf);
    assert forall|i: int, j: int|
        0 <= i < s2.len() && 0 <= j < s2[i].len() implies (#[trigger] s2[i][j]) < s2.len() by {
        if i < servers0.len() && i != a && i != b {
            assert(s2[i] == servers0[i]);
        }
    }
}

/// Hand back the adjacency table and the name list, each indexed by node
/// id, in the shape [`crate::get_farthest`] takes.
pub fn collect_servers(servers: Vec<Vec<usize>>, namelookup: Vec<String>) -> (r: (
    Vec<Vec<usize>>,
    Vec<String>,
))
    ensures
        r.0@ == servers@,
        r.1@ == namelookup@,
{
    (servers, namelookup)
}

} // verus!
