//! The name-to-id interning scheme: each distinct node name is assigned one
//! dense, zero-based integer id in first-seen order, and re-adding a name
//! never changes its id.

use vstd::prelude::*;

verus! {

/// No two entries of the registry hold the same name.
pub open spec fn distinct_names(names: Seq<Seq<char>>) -> bool {
    forall|i: int, j: int| 0 <= i < j < names.len() ==> names[i] != names[j]
}

/// The name is registered somewhere.
pub open spec fn has_name(names: Seq<Seq<char>>, name: Seq<char>) -> bool {
    exists|i: int| 0 <= i < names.len() && names[i] == name
}

/// The id a lookup of `name` yields: the first index holding `name`, or
/// `names.len()` when the name is absent (which is exactly the id a fresh
/// registration would assign).
pub open spec fn name_id(names: Seq<Seq<char>>, name: Seq<char>) -> int
    decreases names.len(),
{
    if names.len() == 0 {
        0
    } else if names[0] == name {
        0
    } else {
        1 + name_id(names.drop_first(), name)
    }
}

/// The registry after `add_or_get(name)`: unchanged when the name is known,
/// extended by one entry otherwise.
pub open spec fn intern(names: Seq<Seq<char>>, name: Seq<char>) -> Seq<Seq<char>> {
    if name_id(names, name) < names.len() {
        names
    } else {
        names.push(name)
    }
}

/// `name_id` is a bounded first-match search: it stays within `[0, len]`,
/// points at `name` whenever it is in range, nothing before it matches, and
/// it equals `len` exactly when the name is absent.
pub proof fn lemma_name_id_props(names: Seq<Seq<char>>, name: Seq<char>)
    ensures
        0 <= name_id(names, name) <= names.len(),
        name_id(names, name) < names.len() ==> names[name_id(names, name)] == name,
        forall|i: int| 0 <= i < name_id(names, name) ==> names[i] != name,
        (name_id(names, name) < names.len()) <==> has_name(names, name),
    decreases names.len(),
{
    if names.len() == 0 {
        assert(!has_name(names, name));
    } else if names[0] == name {
        assert(has_name(names, name));
    } else {
        let rest = names.drop_first();
        lemma_name_id_props(rest, name);
        assert(forall|i: int| 0 <= i < rest.len() ==> rest[i] == names[i + 1]);
        let r = name_id(rest, name);
        assert(name_id(names, name) == 1 + r);
        assert forall|i: int| 0 <= i < name_id(names, name) implies names[i] != name by {
            if i >= 1 {
                assert(names[i] == rest[i - 1]);
                assert(rest[i - 1] != name);
            }
        }
        if r < rest.len() {
            assert(names[1 + r] == rest[r]);
            assert(has_name(names, name));
        } else {
            assert(forall|i: int| 0 <= i < names.len() ==> names[i] != name) by {
                assert(forall|i: int| 1 <= i < names.len() ==> names[i] == rest[i - 1]);
            }
            assert(!has_name(names, name));
        }
    }
}

/// Looks up `name` in the registry; returns its index, or the length when it
/// is absent, matching `name_id`.
pub(crate) fn find_name(nodes: &Vec<String>, name: &String) -> (id: usize)
    ensures
        id as int == name_id(nodes.deep_view(), name@),
        id <= nodes.len(),
{
    let ghost names = nodes.deep_view();
    proof {
        lemma_name_id_props(names, name@);
        assert(names.len() == nodes@.len());
    }
    let n: usize = nodes.len();
    let mut k: usize = 0;
    while k < n
        invariant
            k <= n,
            n == nodes@.len(),
            names == nodes.deep_view(),
            0 <= name_id(names, name@) <= names.len(),
            name_id(names, name@) < names.len() ==> names[name_id(names, name@)] == name@,
            forall|i: int| 0 <= i < name_id(names, name@) ==> names[i] != name@,
            forall|i: int| 0 <= i < k ==> names[i] != name@,
        decreases n - k,
    {
        proof {
            assert(names[k as int] == nodes@[k as int]@);
        }
        let same: bool = nodes[k].eq(name);
        if same {
            proof {
                assert(names[k as int] == name@);
                assert(name_id(names, name@) <= k);
                if name_id(names, name@) < k {
                    assert(names[name_id(names, name@)] != name@);
                    assert(false);
                }
            }
            return k;
        }
        k = k + 1;
    }
    proof {
        if name_id(names, name@) < names.len() {
            assert(names[name_id(names, name@)] != name@);
            assert(false);
        }
    }
    n
}

/// Registers `name` if it is new and returns its id, which is the existing
/// index when the name is known and the old length otherwise.
pub(crate) fn add_or_get(nodes: &mut Vec<String>, name: &String) -> (id: usize)
    requires
        distinct_names(old(nodes).deep_view()),
        old(nodes)@.len() < usize::MAX,
    ensures
        final(nodes).deep_view() == intern(old(nodes).deep_view(), name@),
        id as int == name_id(old(nodes).deep_view(), name@),
        id < final(nodes)@.len(),
        final(nodes).deep_view()[id as int] == name@,
        distinct_names(final(nodes).deep_view()),
        final(nodes)@.len() == intern(old(nodes).deep_view(), name@).len(),
{
    let ghost names = nodes.deep_view();
    let id: usize = find_name(nodes, name);
    proof {
        lemma_name_id_props(names, name@);
    }
    if id == nodes.len() {
        nodes.push(name.clone());
        proof {
            assert(nodes.deep_view() =~= names.push(name@));
            assert(nodes.deep_view() == intern(names, name@));
            assert(forall|i: int| 0 <= i < names.len() ==> names[i] != name@);
            assert(distinct_names(names.push(name@)));
        }
    } else {
        proof {
            assert(nodes.deep_view() == intern(names, name@));
        }
    }
    id
}

} // verus!
