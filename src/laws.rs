//! Laws that relate the store's operations to each other.
use vstd::prelude::*;

use crate::node::{files_of, files_of_all, lemma_files_concat, node_of, Entry, NodeView};
use crate::store::{has_name, index_of, insert_if_absent, merge_all, names_unique, without};
use crate::sync::select;

verus! {

/// Adding a tree whose name is held already changes nothing: adding the same
/// tree twice leaves the items, and their number, as adding it once did, and
/// the second add finds the name held (so it hands out no file to link).
pub proof fn lemma_add_idempotent(s: Seq<NodeView>, n: NodeView)
    ensures
        has_name(insert_if_absent(s, n), n.name),
        insert_if_absent(insert_if_absent(s, n), n) == insert_if_absent(s, n),
        insert_if_absent(insert_if_absent(s, n), n).len() == insert_if_absent(s, n).len(),
{
    if !has_name(s, n.name) {
        let t = s.push(n);
        assert(t[s.len() as int].name == n.name);
    }
}

/// Two trees that hold the same content under different names take the
/// blobs of one: once the first is added, the second needs no new blob, and
/// the blob directory is the same after both as after the first.
pub proof fn lemma_identical_content_one_blob(stored: Set<Seq<char>>, e1: Entry, e2: Entry)
    requires
        node_of(e1).meta == node_of(e2).meta,
    ensures
        files_of(node_of(e2)).difference(stored.union(files_of(node_of(e1)))) == Set::<
            Seq<char>,
        >::empty(),
        stored.union(files_of(node_of(e1))).union(files_of(node_of(e2))) == stored.union(
            files_of(node_of(e1)),
        ),
{
    assert(files_of(node_of(e1)) == files_of(node_of(e2)));
    assert(files_of(node_of(e2)).difference(stored.union(files_of(node_of(e1)))) =~= Set::<
        Seq<char>,
    >::empty());
    assert(stored.union(files_of(node_of(e1))).union(files_of(node_of(e2))) =~= stored.union(
        files_of(node_of(e1)),
    ));
}

/// Merging nodes whose names are new and distinct appends them.
pub proof fn lemma_merge_disjoint(s: Seq<NodeView>, sel: Seq<NodeView>)
    requires
        names_unique(sel),
        forall|k: int| 0 <= k < sel.len() ==> !has_name(s, #[trigger] sel[k].name),
    ensures
        merge_all(s, sel) == s + sel,
    decreases sel.len(),
{
    if sel.len() == 0 {
        assert(s + sel =~= s);
    } else {
        let d = sel.drop_last();
        let x = sel.last();
        assert forall|k: int| 0 <= k < d.len() implies !has_name(s, #[trigger] d[k].name) by {
            assert(d[k] == sel[k]);
        }
        lemma_merge_disjoint(s, d);
        assert(!has_name(s, x.name)) by {
            assert(x == sel[sel.len() - 1]);
        }
        if has_name(s + d, x.name) {
            let i = choose|i: int| 0 <= i < (s + d).len() && #[trigger] (s + d)[i].name == x.name;
            if i >= s.len() {
                assert(sel[i - s.len()].name == x.name);
                assert(sel[sel.len() - 1].name == x.name);
            } else {
                assert(s[i].name == x.name);
            }
        }
        assert((s + d).push(x) =~= s + sel);
    }
}

/// Merging nodes whose names are all held already changes nothing.
pub proof fn lemma_merge_present(s: Seq<NodeView>, sel: Seq<NodeView>)
    requires
        forall|k: int| 0 <= k < sel.len() ==> has_name(s, #[trigger] sel[k].name),
    ensures
        merge_all(s, sel) == s,
    decreases sel.len(),
{
    if sel.len() > 0 {
        let d = sel.drop_last();
        assert forall|k: int| 0 <= k < d.len() implies has_name(s, #[trigger] d[k].name) by {
            assert(d[k] == sel[k]);
        }
        lemma_merge_present(s, d);
        assert(has_name(s, sel[sel.len() - 1].name));
    }
}

/// Merging two sequences in turn is merging their concatenation.
pub proof fn lemma_merge_concat(s: Seq<NodeView>, a: Seq<NodeView>, b: Seq<NodeView>)
    ensures
        merge_all(s, a + b) == merge_all(merge_all(s, a), b),
    decreases b.len(),
{
    if b.len() == 0 {
        assert(a + b =~= a);
    } else {
        lemma_merge_concat(s, a, b.drop_last());
        assert((a + b).drop_last() =~= a + b.drop_last());
        assert((a + b).last() == b.last());
    }
}

/// Every node of `b` is named in `a + b` and in `b + a`.
proof fn lemma_names_in_concat(a: Seq<NodeView>, b: Seq<NodeView>)
    ensures
        forall|k: int| 0 <= k < b.len() ==> has_name(a + b, #[trigger] b[k].name),
        forall|k: int| 0 <= k < a.len() ==> has_name(a + b, #[trigger] a[k].name),
{
    assert forall|k: int| 0 <= k < b.len() implies has_name(a + b, #[trigger] b[k].name) by {
        assert((a + b)[a.len() + k] == b[k]);
    }
    assert forall|k: int| 0 <= k < a.len() implies has_name(a + b, #[trigger] a[k].name) by {
        assert((a + b)[k] == a[k]);
    }
}

proof fn lemma_to_set_concat(a: Seq<NodeView>, b: Seq<NodeView>)
    ensures
        (a + b).to_set() == a.to_set().union(b.to_set()),
{
    assert forall|x: NodeView| (a + b).to_set().contains(x) <==> a.to_set().union(
        b.to_set(),
    ).contains(x) by {
        if (a + b).contains(x) {
            let i = choose|i: int| 0 <= i < (a + b).len() && (a + b)[i] == x;
            if i < a.len() {
                assert(a[i] == x);
            } else {
                assert(b[i - a.len()] == x);
            }
        }
        if a.contains(x) {
            let i = choose|i: int| 0 <= i < a.len() && a[i] == x;
            assert((a + b)[i] == x);
        }
        if b.contains(x) {
            let i = choose|i: int| 0 <= i < b.len() && b[i] == x;
            assert((a + b)[a.len() + i] == x);
        }
    }
    assert((a + b).to_set() =~= a.to_set().union(b.to_set()));
}

/// Two stores whose item names are disjoint converge: pulling everything
/// from `r` into `l` and then pushing everything from there back to `r`
/// leaves both with the union of the two item sets; pulling or pushing
/// everything once more changes no items and transfers no blob. (Pushing
/// first and pulling after is this law with the two stores swapped.)
pub proof fn lemma_sync_converges(l: Seq<NodeView>, r: Seq<NodeView>, names: Seq<String>)
    requires
        names_unique(l),
        names_unique(r),
        forall|i: int, j: int| 0 <= i < l.len() && 0 <= j < r.len() ==> l[i].name != r[j].name,
    ensures
        ({
            let l2 = merge_all(l, select(r, names, true));
            let r2 = merge_all(r, select(l2, names, true));
            &&& l2.to_set() == l.to_set().union(r.to_set())
            &&& r2.to_set() == l.to_set().union(r.to_set())
            &&& merge_all(l2, select(r2, names, true)) == l2
            &&& merge_all(r2, select(l2, names, true)) == r2
            &&& files_of_all(select(r2, names, true)).difference(files_of_all(l2)) == Set::<
                Seq<char>,
            >::empty()
            &&& files_of_all(select(l2, names, true)).difference(files_of_all(r2)) == Set::<
                Seq<char>,
            >::empty()
        }),
{
    assert forall|k: int| 0 <= k < r.len() implies !has_name(l, #[trigger] r[k].name) by {
        if has_name(l, r[k].name) {
            let i = choose|i: int| 0 <= i < l.len() && #[trigger] l[i].name == r[k].name;
        }
    }
    assert forall|k: int| 0 <= k < l.len() implies !has_name(r, #[trigger] l[k].name) by {
        if has_name(r, l[k].name) {
            let j = choose|j: int| 0 <= j < r.len() && #[trigger] r[j].name == l[k].name;
        }
    }
    lemma_merge_disjoint(l, r);
    let l2 = l + r;
    lemma_merge_concat(r, l, r);
    lemma_merge_disjoint(r, l);
    lemma_names_in_concat(r, l);
    lemma_merge_present(r + l, r);
    let r2 = r + l;
    assert(merge_all(r, l2) == r2);
    lemma_to_set_concat(l, r);
    lemma_to_set_concat(r, l);
    assert(r2.to_set() =~= l.to_set().union(r.to_set()));
    lemma_names_in_concat(l, r);
    assert forall|k: int| 0 <= k < r2.len() implies has_name(l2, #[trigger] r2[k].name) by {
        if k < r.len() {
            assert(r2[k] == r[k]);
        } else {
            assert(r2[k] == l[k - r.len()]);
        }
    }
    lemma_merge_present(l2, r2);
    assert forall|k: int| 0 <= k < l2.len() implies has_name(r2, #[trigger] l2[k].name) by {
        if k < l.len() {
            assert(l2[k] == l[k]);
        } else {
            assert(l2[k] == r[k - l.len()]);
        }
    }
    lemma_merge_present(r2, l2);
    lemma_files_concat(l, r);
    lemma_files_concat(r, l);
    assert(files_of_all(r2).difference(files_of_all(l2)) =~= Set::<Seq<char>>::empty());
    assert(files_of_all(l2).difference(files_of_all(r2)) =~= Set::<Seq<char>>::empty());
}

/// Loading a saved, well-formed item sequence into an empty store gives it
/// back node for node.
pub proof fn lemma_load_into_empty(s: Seq<NodeView>)
    requires
        names_unique(s),
    ensures
        merge_all(Seq::empty(), s) == s,
{
    assert forall|k: int| 0 <= k < s.len() implies !has_name(
        Seq::<NodeView>::empty(),
        #[trigger] s[k].name,
    ) by {}
    lemma_merge_disjoint(Seq::empty(), s);
    assert(Seq::<NodeView>::empty() + s =~= s);
}

/// A fingerprint is reached from a sequence of nodes exactly when it is
/// reached from one of them.
pub proof fn lemma_files_member(s: Seq<NodeView>, f: Seq<char>)
    ensures
        files_of_all(s).contains(f) <==> exists|j: int| 0 <= j < s.len() && #[trigger] files_of(
            s[j],
        ).contains(f),
    decreases s.len(),
{
    if s.len() > 0 {
        let d = s.drop_last();
        lemma_files_member(d, f);
        if files_of_all(d).contains(f) {
            let j = choose|j: int| 0 <= j < d.len() && #[trigger] files_of(d[j]).contains(f);
            assert(files_of(s[j]).contains(f));
        }
        if exists|j: int| 0 <= j < s.len() && #[trigger] files_of(s[j]).contains(f) {
            let j = choose|j: int| 0 <= j < s.len() && #[trigger] files_of(s[j]).contains(f);
            if j < d.len() {
                assert(files_of(d[j]).contains(f));
            } else {
                assert(s[j] == s.last());
            }
        }
        if files_of(s.last()).contains(f) {
            assert(files_of(s[s.len() - 1]).contains(f));
        }
    }
}

/// After a collection pass the blob directory holds exactly the
/// fingerprints that the items reach, when it held every one of them before:
/// a pass removes the entries that no item reaches, and only those.
pub proof fn lemma_gc_exact(items: Seq<NodeView>, universe: Set<Seq<char>>)
    requires
        files_of_all(items).subset_of(universe),
    ensures
        universe.difference(universe.difference(files_of_all(items))) == files_of_all(items),
{
    assert(universe.difference(universe.difference(files_of_all(items))) =~= files_of_all(items));
}

/// Deleting an item and collecting removes the blobs that only that item
/// reached and keeps those that another item reaches.
pub proof fn lemma_delete_then_gc(
    items: Seq<NodeView>,
    name: Seq<char>,
    universe: Set<Seq<char>>,
    f: Seq<char>,
)
    requires
        names_unique(items),
        has_name(items, name),
        universe.contains(f),
    ensures
        ({
            let removed = universe.difference(files_of_all(without(items, name)));
            &&& (files_of(items[index_of(items, name)]).contains(f) && (forall|j: int|
                0 <= j < items.len() && items[j].name != name ==> !#[trigger] files_of(
                    items[j],
                ).contains(f))) ==> removed.contains(f)
            &&& (exists|j: int|
                0 <= j < items.len() && items[j].name != name && #[trigger] files_of(
                    items[j],
                ).contains(f)) ==> !removed.contains(f)
        }),
{
    let i = index_of(items, name);
    let rest = items.remove(i);
    assert(without(items, name) == rest);
    lemma_files_member(rest, f);
    if files_of_all(rest).contains(f) {
        let j = choose|j: int| 0 <= j < rest.len() && #[trigger] files_of(rest[j]).contains(f);
        let j0 = if j < i { j } else { j + 1 };
        assert(rest[j] == items[j0]);
        assert(items[j0].name != name);
    }
    if exists|j: int|
        0 <= j < items.len() && items[j].name != name && #[trigger] files_of(items[j]).contains(f) {
        let j = choose|j: int|
            0 <= j < items.len() && items[j].name != name && #[trigger] files_of(
                items[j],
            ).contains(f);
        assert(j != i);
        let k = if j < i { j } else { j - 1 };
        assert(rest[k] == items[j]);
        assert(files_of(rest[k]).contains(f));
    }
}

} // verus!
