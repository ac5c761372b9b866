//! The store: named root trees over a content-addressed blob directory.
use vstd::prelude::*;

use crate::node::{
    collect_files_all, collect_leaves, files_of, files_of_all, fps_of, lemma_leaf_fps,
    lemma_nodes_view_index, lemma_nodes_view_push, leaves_of, link_view, links_view, node_of,
    node_view, nodes_view, Entry, Link, Node, NodeView,
};
use crate::error::StoreError;
use crate::restore::{plan_restore, restore_plan, steps_view, Step};
use crate::sync::{all_present, filter, get_diff, select};
use crate::strs::{contains_str, distinct_strs, lemma_strs_empty, lemma_strs_push, strs_view};
use crate::{CONFIG_NAME, STORE_DIRECTORY};
use vstd::string::StrSliceExecFns;
use vstd::string::StringExecFns;

verus! {

/// Whether some node of `s` has the name `name`.
pub open spec fn has_name(s: Seq<NodeView>, name: Seq<char>) -> bool {
    exists|i: int| 0 <= i < s.len() && #[trigger] s[i].name == name
}

/// No two nodes of `s` share a name.
pub open spec fn names_unique(s: Seq<NodeView>) -> bool {
    forall|i: int, j: int| 0 <= i < s.len() && 0 <= j < s.len() && i != j ==> s[i].name != s[j].name
}

/// The position of the node named `name` in `s`.
pub open spec fn index_of(s: Seq<NodeView>, name: Seq<char>) -> int {
    choose|i: int| 0 <= i < s.len() && #[trigger] s[i].name == name
}

/// Adds `n` unless a node of its name is there: the first one stays.
pub open spec fn insert_if_absent(s: Seq<NodeView>, n: NodeView) -> Seq<NodeView> {
    if has_name(s, n.name) {
        s
    } else {
        s.push(n)
    }
}

/// Adds each node of `sel` in turn, unless a node of its name is there.
pub open spec fn merge_all(s: Seq<NodeView>, sel: Seq<NodeView>) -> Seq<NodeView>
    decreases sel.len(),
{
    if sel.len() == 0 {
        s
    } else {
        insert_if_absent(merge_all(s, sel.drop_last()), sel.last())
    }
}

/// `s` without the node named `name`, if there is one.
pub open spec fn without(s: Seq<NodeView>, name: Seq<char>) -> Seq<NodeView> {
    if has_name(s, name) {
        s.remove(index_of(s, name))
    } else {
        s
    }
}

/// `base` followed by `name` as one more path component.
pub open spec fn joined(base: Seq<char>, name: Seq<char>) -> Seq<char> {
    if base.len() == 0 || base.last() == '/' {
        base + name
    } else {
        base + seq!['/'] + name
    }
}

/// Appends `name` to `base` as one more path component.
pub fn join_path(base: &str, name: &str) -> (r: String)
    ensures
        r@ == joined(base@, name@),
{
    let n = base.unicode_len();
    let mut r = base.to_owned();
    if n > 0 && base.get_char(n - 1) != '/' {
        r.append("/");
        proof {
            reveal_strlit("/");
        }
    }
    r.append(name);
    r
}

/// Named root trees kept in a store directory.
#[derive(Debug)]
pub struct Store {
    path: String,
    items: Vec<Node>,
}

impl View for Store {
    type V = Seq<NodeView>;

    closed spec fn view(&self) -> Seq<NodeView> {
        nodes_view(self.items@)
    }
}

impl Store {
    /// The directory that the store lives in.
    pub closed spec fn path_view(&self) -> Seq<char> {
        self.path@
    }

    /// Item names are unique.
    pub open spec fn well_formed(&self) -> bool {
        names_unique(self@)
    }

    #[verifier::type_invariant]
    spec fn names_are_keys(&self) -> bool {
        names_unique(nodes_view(self.items@))
    }

    /// Takes the items out, leaving none.
    fn take_items(&mut self) -> (r: Vec<Node>)
        ensures
            r@ == old(self).items@,
            names_unique(nodes_view(r@)),
            final(self).items@.len() == 0,
            final(self).path == old(self).path,
    {
        proof {
            use_type_invariant(&*self);
        }
        let mut items: Vec<Node> = Vec::new();
        std::mem::swap(&mut self.items, &mut items);
        items
    }

    /// Puts back items whose names are unique.
    fn put_items(&mut self, items: Vec<Node>)
        requires
            names_unique(nodes_view(items@)),
        ensures
            final(self).items@ == items@,
            final(self).path == old(self).path,
    {
        let mut items = items;
        std::mem::swap(&mut self.items, &mut items);
    }

    /// An empty store rooted at `path`.
    pub fn new(path: String) -> (r: Store)
        ensures
            r@ == Seq::<NodeView>::empty(),
            r.path_view() == path@,
            r.well_formed(),
    {
        let r = Store { path, items: Vec::new() };
        assert(r@ =~= Seq::<NodeView>::empty());
        r
    }

    /// The items, in the order they were added.
    pub fn items(&self) -> (r: &Vec<Node>)
        ensures
            nodes_view(r@) == self@,
            self.well_formed(),
    {
        proof {
            use_type_invariant(self);
        }
        &self.items
    }

    /// The file that the item collection is saved to.
    pub fn config_path(&self) -> (r: String)
        ensures
            r@ == joined(self.path_view(), CONFIG_NAME@),
    {
        join_path(self.path.as_str(), CONFIG_NAME)
    }

    /// The blob directory.
    pub fn store_dir(&self) -> (r: String)
        ensures
            r@ == joined(self.path_view(), STORE_DIRECTORY@),
    {
        join_path(self.path.as_str(), STORE_DIRECTORY)
    }

    /// The position of the item named `name`.
    pub fn find(&self, name: &str) -> (r: Option<usize>)
        ensures
            match r {
                Some(i) => i < self@.len() && self@[i as int].name == name@,
                None => !has_name(self@, name@),
            },
    {
        proof {
            lemma_nodes_view_index(self.items@);
        }
        assert(self@ == nodes_view(self.items@));
        find_name(&self.items, name)
    }

    /// The names of the items, in order.
    pub fn list(&self) -> (r: Vec<&str>)
        ensures
            r@.len() == self@.len(),
            forall|i: int| 0 <= i < r@.len() ==> #[trigger] r@[i]@ == self@[i].name,
    {
        proof {
            lemma_nodes_view_index(self.items@);
        }
        let mut ans: Vec<&str> = Vec::new();
        let mut i: usize = 0;
        while i < self.items.len()
            invariant
                0 <= i <= self.items@.len(),
                self@.len() == self.items@.len(),
                self@ == nodes_view(self.items@),
                forall|k: int| 0 <= k < self.items@.len() ==> #[trigger] nodes_view(self.items@)[k] == node_view(self.items@[k]),
                ans@.len() == i,
                forall|k: int| 0 <= k < i ==> #[trigger] ans@[k]@ == self@[k].name,
            decreases self.items.len() - i,
        {
            assert(self@[i as int] == node_view(self.items@[i as int]));
            ans.push(self.items[i].name.as_str());
            i = i + 1;
        }
        ans
    }

    /// Removes the item named `name`, if there is one.
    pub fn delete(&mut self, name: &str)
        ensures
            final(self).well_formed(),
            final(self)@ == without(old(self)@, name@),
            final(self).path_view() == old(self).path_view(),
    {
        proof {
            use_type_invariant(&*self);
        }
        match self.find(name) {
            None => {},
            Some(i) => {
                let ghost s = self@;
                proof {
                    lemma_nodes_view_index(self.items@);
                    let j = index_of(s, name@);
                    assert(s[i as int].name == name@);
                    assert(j == i);
                }
                let mut items = self.take_items();
                items.remove(i);
                proof {
                    lemma_nodes_view_index(items@);
                    assert(nodes_view(items@) =~= s.remove(i as int));
                }
                self.put_items(items);
            },
        }
    }

    /// Adds a root tree read from disk, unless an item of its name is there.
    /// Returns the files whose content is not yet in the blob directory,
    /// given the fingerprints already there: one per new fingerprint.
    pub fn add(&mut self, e: &Entry, stored: &Vec<String>) -> (r: Vec<Link>)
        ensures
            final(self).well_formed(),
            final(self)@ == insert_if_absent(old(self)@, node_of(*e)),
            final(self).path_view() == old(self).path_view(),
            has_name(old(self)@, e.name@) ==> r@.len() == 0,
            !has_name(old(self)@, e.name@) ==> fps_of(links_view(r@)) == files_of(
                node_of(*e),
            ).difference(strs_view(stored@)),
            forall|k: int| 0 <= k < r@.len() ==> leaves_of(*e).contains(#[trigger] link_view(r@[k])),
            forall|i: int, j: int|
                0 <= i < r@.len() && 0 <= j < r@.len() && i != j ==> r@[i].fingerprint@
                    != r@[j].fingerprint@,
    {
        proof {
            use_type_invariant(&*self);
        }
        if self.find(e.name.as_str()).is_some() {
            return Vec::new();
        }
        let node = Node::new(e);
        let mut leaves: Vec<Link> = Vec::new();
        collect_leaves(&node, e, &mut leaves);
        assert(links_view(leaves@) =~= leaves_of(*e));
        let links = fresh_links(&leaves, stored);
        proof {
            lemma_leaf_fps(*e);
            lemma_nodes_view_index(self.items@);
        }
        let ghost s = self@;
        let mut items = self.take_items();
        items.push(node);
        proof {
            lemma_nodes_view_push(old(self).items@, node);
            lemma_nodes_view_index(items@);
            assert(nodes_view(items@) == s.push(node_of(*e)));
        }
        self.put_items(items);
        links
    }

    /// Merges items read from the saved collection: an item whose name is
    /// already held stays as it is.
    pub fn load(&mut self, loaded: &Vec<Node>)
        ensures
            final(self).well_formed(),
            final(self)@ == merge_all(old(self)@, nodes_view(loaded@)),
            final(self).path_view() == old(self).path_view(),
    {
        proof {
            use_type_invariant(&*self);
        }
        let mut items = self.take_items();
        merge_into(&mut items, loaded);
        self.put_items(items);
    }

    /// The blob directory entries that no item references, given the
    /// directory's entries: those a collection pass removes.
    pub fn clear(&self, universe: &Vec<String>) -> (r: Vec<String>)
        ensures
            strs_view(r@) == strs_view(universe@).difference(files_of_all(self@)),
    {
        let mut marked: Vec<String> = Vec::new();
        proof {
            lemma_strs_empty(marked@);
        }
        collect_files_all(&self.items, &mut marked);
        assert(strs_view(marked@) =~= files_of_all(self@));
        let mut r: Vec<String> = Vec::new();
        let mut i: usize = 0;
        proof {
            lemma_strs_empty(r@);
            assert(strs_view(universe@.take(0)) =~= Set::<Seq<char>>::empty());
        }
        while i < universe.len()
            invariant
                0 <= i <= universe@.len(),
                strs_view(marked@) == files_of_all(self@),
                strs_view(r@) == strs_view(universe@.take(i as int)).difference(files_of_all(self@)),
            decreases universe.len() - i,
        {
            proof {
                lemma_strs_push(universe@.take(i as int), universe@[i as int]);
                assert(universe@.take(i as int).push(universe@[i as int]) =~= universe@.take(i + 1));
            }
            if !contains_str(&marked, &universe[i]) {
                proof {
                    lemma_strs_push(r@, universe@[i as int]);
                }
                r.push(universe[i].clone());
            }
            assert(strs_view(r@) =~= strs_view(universe@.take(i + 1)).difference(files_of_all(self@)));
            i = i + 1;
        }
        assert(universe@.take(universe.len() as int) =~= universe@);
        r
    }

    /// The steps that restore the item named `name` under a destination
    /// directory.
    pub fn get(&self, name: &str) -> (r: Result<Vec<Step>, StoreError>)
        ensures
            r is Ok <==> has_name(self@, name@),
            r is Ok ==> steps_view(r->Ok_0@) == restore_plan(self@[index_of(self@, name@)]),
            r is Err ==> r->Err_0 == StoreError::UnknownItem,
    {
        proof {
            use_type_invariant(self);
        }
        match self.find(name) {
            None => Err(StoreError::UnknownItem),
            Some(i) => {
                proof {
                    lemma_nodes_view_index(self.items@);
                    assert(self@[i as int].name == name@);
                    assert(index_of(self@, name@) == i);
                    assert(self@[i as int] == node_view(self.items@[i as int]));
                }
                Ok(plan_restore(&self.items[i]))
            },
        }
    }

    /// Takes in the items that the selector picks from `remote`, where no
    /// item of their name is held yet. Returns the fingerprints below the
    /// picked items that no item held here reaches: the blobs to fetch.
    pub fn pull(&mut self, remote: &Store, names: &Vec<String>, all: bool) -> (r: Result<
        Vec<String>,
        StoreError,
    >)
        ensures
            final(self).well_formed(),
            final(self).path_view() == old(self).path_view(),
            r is Ok <==> (all || all_present(remote@, names@)),
            r is Ok ==> {
                &&& distinct_strs(r->Ok_0@)
                &&& strs_view(r->Ok_0@) == files_of_all(select(remote@, names@, all)).difference(
                    files_of_all(old(self)@),
                )
                &&& final(self)@ == merge_all(old(self)@, select(remote@, names@, all))
            },
            r is Err ==> r->Err_0 == StoreError::UnknownItem && final(self)@ == old(self)@,
    {
        proof {
            use_type_invariant(&*self);
            use_type_invariant(remote);
        }
        let selected = match filter(names, all, &remote.items) {
            Ok(v) => v,
            Err(e) => {
                return Err(e);
            },
        };
        let diff = get_diff(&selected, &self.items);
        let mut items = self.take_items();
        merge_into(&mut items, &selected);
        self.put_items(items);
        Ok(diff)
    }

    /// Hands to `remote` the items that the selector picks from this store,
    /// where no item of their name is held there yet. Returns the
    /// fingerprints below the picked items that no item of `remote` reaches:
    /// the blobs to send.
    pub fn push(&self, remote: &mut Store, names: &Vec<String>, all: bool) -> (r: Result<
        Vec<String>,
        StoreError,
    >)
        ensures
            final(remote).well_formed(),
            final(remote).path_view() == old(remote).path_view(),
            r is Ok <==> (all || all_present(self@, names@)),
            r is Ok ==> {
                &&& distinct_strs(r->Ok_0@)
                &&& strs_view(r->Ok_0@) == files_of_all(select(self@, names@, all)).difference(
                    files_of_all(old(remote)@),
                )
                &&& final(remote)@ == merge_all(old(remote)@, select(self@, names@, all))
            },
            r is Err ==> r->Err_0 == StoreError::UnknownItem && final(remote)@ == old(remote)@,
    {
        proof {
            use_type_invariant(self);
            use_type_invariant(&*remote);
        }
        let selected = match filter(names, all, &self.items) {
            Ok(v) => v,
            Err(e) => {
                return Err(e);
            },
        };
        let diff = get_diff(&selected, &remote.items);
        let mut items = remote.take_items();
        merge_into(&mut items, &selected);
        remote.put_items(items);
        Ok(diff)
    }

    /// The paths that another store's pull and push read: the config file
    /// under "config" and the blob directory under "storage".
    pub fn info(&self) -> (r: Vec<(String, String)>)
        ensures
            r@.len() == 2,
            r@[0].0@ == "config"@,
            r@[0].1@ == joined(self.path_view(), CONFIG_NAME@),
            r@[1].0@ == "storage"@,
            r@[1].1@ == joined(self.path_view(), STORE_DIRECTORY@),
    {
        let mut r: Vec<(String, String)> = Vec::new();
        r.push(("config".to_owned(), self.config_path()));
        r.push(("storage".to_owned(), self.store_dir()));
        r
    }
}

/// The position of the node named `name` in `items`.
pub fn find_name(items: &Vec<Node>, name: &str) -> (r: Option<usize>)
    ensures
        match r {
            Some(i) => i < items@.len() && nodes_view(items@)[i as int].name == name@,
            None => !has_name(nodes_view(items@), name@),
        },
{
    proof {
        lemma_nodes_view_index(items@);
    }
    let target = name.to_owned();
    let mut i: usize = 0;
    while i < items.len()
        invariant
            0 <= i <= items@.len(),
            nodes_view(items@).len() == items@.len(),
            target@ == name@,
            forall|k: int| 0 <= k < items@.len() ==> #[trigger] nodes_view(items@)[k] == node_view(items@[k]),
            forall|k: int| 0 <= k < i ==> #[trigger] nodes_view(items@)[k].name != name@,
        decreases items.len() - i,
    {
        assert(nodes_view(items@)[i as int] == node_view(items@[i as int]));
        if items[i].name == target {
            return Some(i);
        }
        i = i + 1;
    }
    None
}

/// Adds to `dst` each node of `sel` in turn, unless a node of its name is
/// there.
pub fn merge_into(dst: &mut Vec<Node>, sel: &Vec<Node>)
    ensures
        nodes_view(final(dst)@) == merge_all(nodes_view(old(dst)@), nodes_view(sel@)),
        names_unique(nodes_view(old(dst)@)) ==> names_unique(nodes_view(final(dst)@)),
{
    proof {
        lemma_nodes_view_index(sel@);
    }
    let ghost s0 = nodes_view(dst@);
    let mut i: usize = 0;
    assert(nodes_view(sel@).take(0) =~= Seq::<NodeView>::empty());
    while i < sel.len()
        invariant
            0 <= i <= sel@.len(),
            nodes_view(sel@).len() == sel@.len(),
            forall|k: int| 0 <= k < sel@.len() ==> #[trigger] nodes_view(sel@)[k] == node_view(sel@[k]),
            s0 == nodes_view(old(dst)@),
            nodes_view(dst@) == merge_all(s0, nodes_view(sel@).take(i as int)),
            names_unique(s0) ==> names_unique(nodes_view(dst@)),
        decreases sel.len() - i,
    {
        let ghost before = nodes_view(dst@);
        let ghost t = nodes_view(sel@).take(i + 1);
        assert(t.drop_last() =~= nodes_view(sel@).take(i as int));
        assert(t.last() == node_view(sel@[i as int]));
        proof {
            lemma_nodes_view_index(dst@);
        }
        assert(merge_all(s0, t) == insert_if_absent(merge_all(s0, t.drop_last()), t.last()));
        match find_name(dst, sel[i].name.as_str()) {
            Some(j) => {
                assert(before[j as int].name == t.last().name);
                assert(has_name(before, t.last().name));
            },
            None => {
                let x = sel[i].duplicate();
                proof {
                    lemma_nodes_view_push(dst@, x);
                    lemma_nodes_view_index(dst@);
                }
                dst.push(x);
                proof {
                    lemma_nodes_view_index(dst@);
                    assert(nodes_view(dst@) == before.push(node_view(sel@[i as int])));
                }
            },
        }
        i = i + 1;
    }
    assert(nodes_view(sel@).take(sel.len() as int) =~= nodes_view(sel@));
}

/// Keeps, of the files found, one per fingerprint that is neither in
/// `stored` nor kept before it.
pub fn fresh_links(leaves: &Vec<Link>, stored: &Vec<String>) -> (r: Vec<Link>)
    ensures
        fps_of(links_view(r@)) == fps_of(links_view(leaves@)).difference(strs_view(stored@)),
        forall|k: int| 0 <= k < r@.len() ==> links_view(leaves@).contains(#[trigger] link_view(r@[k])),
        forall|i: int, j: int|
            0 <= i < r@.len() && 0 <= j < r@.len() && i != j ==> r@[i].fingerprint@
                != r@[j].fingerprint@,
{
    let mut r: Vec<Link> = Vec::new();
    let mut kept: Vec<String> = Vec::new();
    let mut i: usize = 0;
    let ghost lv = links_view(leaves@);
    assert(fps_of(lv.take(0)) =~= Set::<Seq<char>>::empty());
    assert(fps_of(links_view(r@)) =~= Set::<Seq<char>>::empty());
    while i < leaves.len()
        invariant
            0 <= i <= leaves@.len(),
            lv == links_view(leaves@),
            kept@.len() == r@.len(),
            forall|k: int| 0 <= k < r@.len() ==> #[trigger] kept@[k]@ == r@[k].fingerprint@,
            fps_of(links_view(r@)) == fps_of(lv.take(i as int)).difference(strs_view(stored@)),
            forall|k: int| 0 <= k < r@.len() ==> lv.contains(#[trigger] link_view(r@[k])),
            forall|a: int, b: int|
                0 <= a < r@.len() && 0 <= b < r@.len() && a != b ==> r@[a].fingerprint@
                    != r@[b].fingerprint@,
        decreases leaves.len() - i,
    {
        let fp = &leaves[i].fingerprint;
        let ghost before = links_view(r@);
        let ghost t = lv.take(i + 1);
        assert(t =~= lv.take(i as int) + seq![lv[i as int]]);
        assert(lv[i as int] == link_view(leaves@[i as int]));
        proof {
            crate::node::lemma_fps_concat(lv.take(i as int), seq![lv[i as int]]);
            assert(fps_of(seq![lv[i as int]]) =~= set![fp@]) by {
                assert(seq![lv[i as int]][0].1 == fp@);
            }
        }
        if !contains_str(stored, fp) && !contains_str(&kept, fp) {
            let l = Link { source: leaves[i].source.clone(), fingerprint: fp.clone() };
            proof {
                assert forall|k: int| 0 <= k < r@.len() implies r@[k].fingerprint@ != fp@ by {
                    assert(strs_view(kept@).contains(kept@[k]@));
                }
            }
            kept.push(fp.clone());
            r.push(l);
            proof {
                assert(links_view(r@) =~= before + seq![link_view(l)]);
                crate::node::lemma_fps_concat(before, seq![link_view(l)]);
                assert(fps_of(seq![link_view(l)]) =~= set![fp@]) by {
                    assert(seq![link_view(l)][0].1 == fp@);
                }
                assert(lv.contains(link_view(l))) by {
                    assert(lv[i as int] == link_view(l));
                }
                assert(fps_of(links_view(r@)) =~= fps_of(t).difference(strs_view(stored@)));
            }
        } else {
            proof {
                if !strs_view(stored@).contains(fp@) {
                    let k = choose|k: int| 0 <= k < kept@.len() && #[trigger] kept@[k]@ == fp@;
                    assert(before[k].1 == fp@);
                    assert(fps_of(before).contains(fp@));
                }
                assert(fps_of(links_view(r@)) =~= fps_of(t).difference(strs_view(stored@)));
            }
        }
        i = i + 1;
    }
    assert(lv.take(leaves.len() as int) =~= lv);
    r
}

} // verus!
