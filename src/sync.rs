//! Selecting items and diffing fingerprints between two stores.
use vstd::prelude::*;

use crate::error::StoreError;
use crate::node::{
    collect_files_all, files_of_all, lemma_nodes_view_index, lemma_nodes_view_push, node_view,
    nodes_view, Node, NodeView,
};
use crate::store::{find_name, has_name, index_of, names_unique};
use crate::strs::{contains_str, distinct_strs, lemma_strs_empty, lemma_strs_push, strs_view};

verus! {

/// Every name of `names` belongs to a node of `s`.
pub open spec fn all_present(s: Seq<NodeView>, names: Seq<String>) -> bool {
    forall|k: int| 0 <= k < names.len() ==> has_name(s, #[trigger] names[k]@)
}

/// The nodes that a selector picks: all of `s`, or the node of each name in
/// turn.
pub open spec fn select(s: Seq<NodeView>, names: Seq<String>, all: bool) -> Seq<NodeView> {
    if all {
        s
    } else {
        Seq::new(names.len(), |k: int| s[index_of(s, names[k]@)])
    }
}

/// Picks the items that a selector names: all of them when `all` is set,
/// else the item of each name in turn, failing on a name that is not there.
pub fn filter(names: &Vec<String>, all: bool, items: &Vec<Node>) -> (r: Result<Vec<Node>, StoreError>)
    requires
        names_unique(nodes_view(items@)),
    ensures
        r is Ok <==> (all || all_present(nodes_view(items@), names@)),
        r is Ok ==> nodes_view(r->Ok_0@) == select(nodes_view(items@), names@, all),
        r is Err ==> r->Err_0 == StoreError::UnknownItem,
{
    if all {
        return Ok(crate::node::duplicate_all(items));
    }
    let ghost s = nodes_view(items@);
    proof {
        lemma_nodes_view_index(items@);
    }
    let mut v: Vec<Node> = Vec::new();
    let mut i: usize = 0;
    while i < names.len()
        invariant
            0 <= i <= names@.len(),
            !all,
            s == nodes_view(items@),
            s.len() == items@.len(),
            names_unique(s),
            forall|k: int| 0 <= k < items@.len() ==> #[trigger] s[k] == node_view(items@[k]),
            forall|k: int| 0 <= k < i ==> has_name(s, #[trigger] names@[k]@),
            nodes_view(v@) == Seq::new(i as nat, |k: int| s[index_of(s, names@[k]@)]),
        decreases names.len() - i,
    {
        match find_name(items, names[i].as_str()) {
            None => {
                assert(!has_name(s, names@[i as int]@));
                assert(!all_present(s, names@));
                return Err(StoreError::UnknownItem);
            },
            Some(j) => {
                let x = items[j].duplicate();
                proof {
                    let nm = names@[i as int]@;
                    assert(has_name(s, nm));
                    let c = index_of(s, nm);
                    assert(s[c].name == nm);
                    assert(c == j);
                    lemma_nodes_view_push(v@, x);
                }
                v.push(x);
                assert(nodes_view(v@) =~= Seq::new((i + 1) as nat, |k: int| s[index_of(s, names@[k]@)]));
            },
        }
        i = i + 1;
    }
    assert(nodes_view(v@) =~= select(s, names@, all));
    Ok(v)
}

/// The fingerprints of every file below the nodes, each once.
pub fn get_files(nodes: &Vec<Node>) -> (r: Vec<String>)
    ensures
        distinct_strs(r@),
        strs_view(r@) == files_of_all(nodes_view(nodes@)),
{
    let mut r: Vec<String> = Vec::new();
    proof {
        lemma_strs_empty(r@);
    }
    collect_files_all(nodes, &mut r);
    assert(strs_view(r@) =~= files_of_all(nodes_view(nodes@)));
    r
}

/// The fingerprints below `src` that are nowhere below `other`, each once.
pub fn get_diff(src: &Vec<Node>, other: &Vec<Node>) -> (r: Vec<String>)
    ensures
        distinct_strs(r@),
        strs_view(r@) == files_of_all(nodes_view(src@)).difference(files_of_all(nodes_view(other@))),
{
    let a = get_files(src);
    let b = get_files(other);
    let ghost want = files_of_all(nodes_view(src@)).difference(files_of_all(nodes_view(other@)));
    let mut r: Vec<String> = Vec::new();
    let mut i: usize = 0;
    proof {
        lemma_strs_empty(r@);
        assert(strs_view(a@.take(0)) =~= Set::<Seq<char>>::empty());
    }
    while i < a.len()
        invariant
            0 <= i <= a@.len(),
            distinct_strs(a@),
            distinct_strs(r@),
            strs_view(b@) == files_of_all(nodes_view(other@)),
            strs_view(r@) == strs_view(a@.take(i as int)).difference(strs_view(b@)),
        decreases a.len() - i,
    {
        proof {
            lemma_strs_push(a@.take(i as int), a@[i as int]);
            assert(a@.take(i as int).push(a@[i as int]) =~= a@.take(i + 1));
        }
        if !contains_str(&b, &a[i]) {
            proof {
                lemma_strs_push(r@, a@[i as int]);
                assert forall|k: int| 0 <= k < r@.len() implies r@[k]@ != a@[i as int]@ by {
                    assert(strs_view(r@).contains(r@[k]@));
                    let m = choose|m: int| 0 <= m < i && #[trigger] a@.take(i as int)[m]@ == r@[k]@;
                    assert(a@[m]@ == r@[k]@);
                }
            }
            r.push(a[i].clone());
        }
        assert(strs_view(r@) =~= strs_view(a@.take(i + 1)).difference(strs_view(b@)));
        i = i + 1;
    }
    assert(a@.take(a.len() as int) =~= a@);
    assert(strs_view(r@) =~= want);
    r
}

} // verus!
