//! The recursive model of one filesystem entry.
use vstd::prelude::*;

use crate::digest::{md5, md5_hex_of};
use crate::strs::{distinct_strs, push_unique, strs_view};

verus! {

broadcast use vstd::std_specs::vec::group_vec_axioms, vstd::seq::group_seq_axioms;

/// What a stored path is.
#[derive(Debug, PartialEq, Eq)]
pub enum Meta {
    /// A regular file, by the fingerprint of its content.
    File(String),
    /// A symbolic link, by its literal target.
    Symlink(String),
    /// A directory, by its children in name order.
    Directory(Vec<Node>),
}

/// One entry of a stored tree: its name and what it is.
#[derive(Debug, PartialEq, Eq)]
pub struct Node {
    pub name: String,
    pub meta: Meta,
}

/// The mathematical value of a `Meta`.
pub enum MetaView {
    File(Seq<char>),
    Symlink(Seq<char>),
    Directory(Seq<NodeView>),
}

/// The mathematical value of a `Node`.
pub struct NodeView {
    pub name: Seq<char>,
    pub meta: MetaView,
}

pub open spec fn node_view(n: Node) -> NodeView
    decreases n,
{
    NodeView {
        name: n.name@,
        meta: match n.meta {
            Meta::File(f) => MetaView::File(f@),
            Meta::Symlink(t) => MetaView::Symlink(t@),
            Meta::Directory(c) => MetaView::Directory(nodes_view(c@)),
        },
    }
}

pub open spec fn nodes_view(s: Seq<Node>) -> Seq<NodeView>
    decreases s,
{
    if s.len() == 0 {
        Seq::empty()
    } else {
        nodes_view(s.drop_last()).push(node_view(s.last()))
    }
}

impl View for Node {
    type V = NodeView;

    open spec fn view(&self) -> NodeView {
        node_view(*self)
    }
}

/// The fingerprints of every file reachable from a node.
pub open spec fn files_of(n: NodeView) -> Set<Seq<char>>
    decreases n,
{
    match n.meta {
        MetaView::File(f) => set![f],
        MetaView::Symlink(_) => Set::empty(),
        MetaView::Directory(c) => files_of_all(c),
    }
}

/// The fingerprints of every file reachable from a sequence of nodes.
pub open spec fn files_of_all(s: Seq<NodeView>) -> Set<Seq<char>>
    decreases s,
{
    if s.len() == 0 {
        Set::empty()
    } else {
        files_of_all(s.drop_last()).union(files_of(s.last()))
    }
}

pub proof fn lemma_nodes_view_push(s: Seq<Node>, x: Node)
    ensures
        nodes_view(s.push(x)) == nodes_view(s).push(node_view(x)),
{
    assert(s.push(x).drop_last() =~= s);
}

pub proof fn lemma_nodes_view_index(s: Seq<Node>)
    ensures
        nodes_view(s).len() == s.len(),
        forall|i: int| 0 <= i < s.len() ==> #[trigger] nodes_view(s)[i] == node_view(s[i]),
    decreases s.len(),
{
    if s.len() > 0 {
        lemma_nodes_view_index(s.drop_last());
    }
}

pub proof fn lemma_files_push(s: Seq<NodeView>, x: NodeView)
    ensures
        files_of_all(s.push(x)) == files_of_all(s).union(files_of(x)),
{
    assert(s.push(x).drop_last() =~= s);
}

pub proof fn lemma_files_concat(a: Seq<NodeView>, b: Seq<NodeView>)
    ensures
        files_of_all(a + b) == files_of_all(a).union(files_of_all(b)),
    decreases b.len(),
{
    if b.len() == 0 {
        assert(a + b =~= a);
        assert(files_of_all(a).union(files_of_all(b)) =~= files_of_all(a));
    } else {
        let c = b.drop_last();
        lemma_files_concat(a, c);
        assert((a + b) =~= (a + c).push(b.last()));
        lemma_files_push(a + c, b.last());
        assert(files_of_all(a + b) =~= files_of_all(a).union(files_of_all(b)));
    }
}

impl Node {
    /// A node that stands for the name alone, for lookups by name.
    pub fn sample(s: &str) -> (r: Node)
        ensures
            r@ == (NodeView { name: s@, meta: MetaView::File(Seq::empty()) }),
    {
        Node { name: s.to_owned(), meta: Meta::File(String::new()) }
    }

    /// A deep copy.
    pub fn duplicate(&self) -> (r: Node)
        ensures
            r@ == self@,
        decreases self,
    {
        let meta = match &self.meta {
            Meta::File(f) => Meta::File(f.clone()),
            Meta::Symlink(t) => Meta::Symlink(t.clone()),
            Meta::Directory(c) => Meta::Directory(duplicate_all(c)),
        };
        Node { name: self.name.clone(), meta }
    }
}

/// A deep copy of a sequence of nodes.
pub fn duplicate_all(c: &Vec<Node>) -> (r: Vec<Node>)
    ensures
        nodes_view(r@) == nodes_view(c@),
    decreases c,
{
    let mut r: Vec<Node> = Vec::new();
    let mut i: usize = 0;
    while i < c.len()
        invariant
            0 <= i <= c.len(),
            nodes_view(r@) == nodes_view(c@.take(i as int)),
        decreases c.len() - i,
    {
        let x = c[i].duplicate();
        proof {
            lemma_nodes_view_push(r@, x);
            lemma_nodes_view_push(c@.take(i as int), c@[i as int]);
            assert(c@.take(i as int).push(c@[i as int]) =~= c@.take(i + 1));
        }
        r.push(x);
        i = i + 1;
    }
    assert(c@.take(c.len() as int) =~= c@);
    r
}

/// Adds to `out` the fingerprint of every file reachable from `n`, each once.
pub fn collect_files(n: &Node, out: &mut Vec<String>)
    requires
        distinct_strs(old(out)@),
    ensures
        distinct_strs(final(out)@),
        strs_view(final(out)@) == strs_view(old(out)@).union(files_of(n@)),
    decreases n,
{
    match &n.meta {
        Meta::File(f) => {
            push_unique(out, f.clone());
            assert(strs_view(old(out)@).insert(f@) =~= strs_view(old(out)@).union(set![f@]));
        },
        Meta::Symlink(_) => {
            assert(strs_view(old(out)@).union(Set::empty()) =~= strs_view(old(out)@));
        },
        Meta::Directory(c) => {
            collect_files_all(c, out);
        },
    }
}

/// Adds to `out` the fingerprint of every file reachable from `s`, each once.
pub fn collect_files_all(s: &Vec<Node>, out: &mut Vec<String>)
    requires
        distinct_strs(old(out)@),
    ensures
        distinct_strs(final(out)@),
        strs_view(final(out)@) == strs_view(old(out)@).union(files_of_all(nodes_view(s@))),
    decreases s,
{
    let ghost start = strs_view(out@);
    let mut i: usize = 0;
    assert(nodes_view(s@.take(0)) =~= Seq::<NodeView>::empty());
    assert(start.union(Set::empty()) =~= start);
    while i < s.len()
        invariant
            0 <= i <= s.len(),
            distinct_strs(out@),
            strs_view(out@) == start.union(files_of_all(nodes_view(s@.take(i as int)))),
        decreases s.len() - i,
    {
        collect_files(&s[i], out);
        proof {
            lemma_nodes_view_push(s@.take(i as int), s@[i as int]);
            assert(s@.take(i as int).push(s@[i as int]) =~= s@.take(i + 1));
            lemma_files_push(nodes_view(s@.take(i as int)), node_view(s@[i as int]));
            assert(strs_view(out@) =~= start.union(files_of_all(nodes_view(s@.take(i + 1)))));
        }
        i = i + 1;
    }
    assert(s@.take(s.len() as int) =~= s@);
}

/// One filesystem entry as read from disk: its name, the path it was read
/// from, and what it holds.
#[derive(Debug, PartialEq, Eq)]
pub struct Entry {
    pub name: String,
    pub path: String,
    pub kind: EntryKind,
}

/// What a filesystem entry holds, as read from disk.
#[derive(Debug, PartialEq, Eq)]
pub enum EntryKind {
    /// A regular file and its bytes.
    File(Vec<u8>),
    /// A symbolic link and its literal target.
    Symlink(String),
    /// A directory and its direct children, in name order.
    Directory(Vec<Entry>),
}

/// The node that records an entry: files by the fingerprint of their bytes.
pub open spec fn node_of(e: Entry) -> NodeView
    decreases e,
{
    NodeView {
        name: e.name@,
        meta: match e.kind {
            EntryKind::File(b) => MetaView::File(md5_hex_of(b@)),
            EntryKind::Symlink(t) => MetaView::Symlink(t@),
            EntryKind::Directory(c) => MetaView::Directory(nodes_of(c@)),
        },
    }
}

pub open spec fn nodes_of(s: Seq<Entry>) -> Seq<NodeView>
    decreases s,
{
    if s.len() == 0 {
        Seq::empty()
    } else {
        nodes_of(s.drop_last()).push(node_of(s.last()))
    }
}

pub proof fn lemma_nodes_of_index(s: Seq<Entry>)
    ensures
        nodes_of(s).len() == s.len(),
        forall|i: int| 0 <= i < s.len() ==> #[trigger] nodes_of(s)[i] == node_of(s[i]),
    decreases s.len(),
{
    if s.len() > 0 {
        lemma_nodes_of_index(s.drop_last());
    }
}

impl Node {
    /// Records an entry and everything below it.
    pub fn new(e: &Entry) -> (r: Node)
        ensures
            r@ == node_of(*e),
        decreases e,
    {
        let meta = match &e.kind {
            EntryKind::File(b) => Meta::File(md5(b.as_slice())),
            EntryKind::Symlink(t) => Meta::Symlink(t.clone()),
            EntryKind::Directory(c) => Meta::Directory(new_all(c)),
        };
        Node { name: e.name.clone(), meta }
    }
}

/// Records a sequence of entries.
pub fn new_all(c: &Vec<Entry>) -> (r: Vec<Node>)
    ensures
        nodes_view(r@) == nodes_of(c@),
    decreases c,
{
    let mut r: Vec<Node> = Vec::new();
    let mut i: usize = 0;
    while i < c.len()
        invariant
            0 <= i <= c.len(),
            nodes_view(r@) == nodes_of(c@.take(i as int)),
        decreases c.len() - i,
    {
        let x = Node::new(&c[i]);
        proof {
            lemma_nodes_view_push(r@, x);
            assert(c@.take(i as int).push(c@[i as int]).drop_last() =~= c@.take(i as int));
            assert(c@.take(i as int).push(c@[i as int]) =~= c@.take(i + 1));
        }
        r.push(x);
        i = i + 1;
    }
    assert(c@.take(c.len() as int) =~= c@);
    r
}

/// A regular file found while reading a tree: where it was read from, and
/// its fingerprint.
#[derive(Debug, Clone, PartialEq, Eq)]
pub struct Link {
    pub source: String,
    pub fingerprint: String,
}

pub open spec fn link_view(l: Link) -> (Seq<char>, Seq<char>) {
    (l.source@, l.fingerprint@)
}

pub open spec fn links_view(s: Seq<Link>) -> Seq<(Seq<char>, Seq<char>)> {
    s.map_values(|l: Link| link_view(l))
}

/// The fingerprints that occur in a sequence of (path, fingerprint) pairs.
pub open spec fn fps_of(s: Seq<(Seq<char>, Seq<char>)>) -> Set<Seq<char>> {
    Set::new(|f: Seq<char>| exists|i: int| 0 <= i < s.len() && #[trigger] s[i].1 == f)
}

/// Every regular file below an entry, depth first, with its fingerprint.
pub open spec fn leaves_of(e: Entry) -> Seq<(Seq<char>, Seq<char>)>
    decreases e,
{
    match e.kind {
        EntryKind::File(b) => seq![(e.path@, md5_hex_of(b@))],
        EntryKind::Symlink(_) => Seq::empty(),
        EntryKind::Directory(c) => leaves_of_all(c@),
    }
}

pub open spec fn leaves_of_all(s: Seq<Entry>) -> Seq<(Seq<char>, Seq<char>)>
    decreases s,
{
    if s.len() == 0 {
        Seq::empty()
    } else {
        leaves_of_all(s.drop_last()) + leaves_of(s.last())
    }
}

pub proof fn lemma_fps_concat(a: Seq<(Seq<char>, Seq<char>)>, b: Seq<(Seq<char>, Seq<char>)>)
    ensures
        fps_of(a + b) == fps_of(a).union(fps_of(b)),
{
    let c = a + b;
    assert forall|f: Seq<char>| fps_of(c).contains(f) <==> fps_of(a).union(fps_of(b)).contains(f) by {
        if fps_of(c).contains(f) {
            let i = choose|i: int| 0 <= i < c.len() && #[trigger] c[i].1 == f;
            if i < a.len() {
                assert(a[i].1 == f);
            } else {
                assert(b[i - a.len()].1 == f);
            }
        }
        if fps_of(a).contains(f) {
            let i = choose|i: int| 0 <= i < a.len() && #[trigger] a[i].1 == f;
            assert(c[i].1 == f);
        }
        if fps_of(b).contains(f) {
            let i = choose|i: int| 0 <= i < b.len() && #[trigger] b[i].1 == f;
            assert(c[i + a.len()].1 == f);
        }
    }
    assert(fps_of(c) =~= fps_of(a).union(fps_of(b)));
}

/// The fingerprints of the files below an entry are those of its node.
pub proof fn lemma_leaf_fps(e: Entry)
    ensures
        fps_of(leaves_of(e)) == files_of(node_of(e)),
    decreases e,
{
    match e.kind {
        EntryKind::File(b) => {
            let s = leaves_of(e);
            assert(s[0].1 == md5_hex_of(b@));
            assert(fps_of(s) =~= set![md5_hex_of(b@)]);
        },
        EntryKind::Symlink(_) => {
            assert(fps_of(leaves_of(e)) =~= Set::empty());
        },
        EntryKind::Directory(c) => {
            lemma_leaf_fps_all(c@);
        },
    }
}

pub proof fn lemma_leaf_fps_all(s: Seq<Entry>)
    ensures
        fps_of(leaves_of_all(s)) == files_of_all(nodes_of(s)),
    decreases s,
{
    if s.len() == 0 {
        assert(fps_of(leaves_of_all(s)) =~= Set::empty());
    } else {
        lemma_leaf_fps_all(s.drop_last());
        lemma_leaf_fps(s.last());
        lemma_fps_concat(leaves_of_all(s.drop_last()), leaves_of(s.last()));
        lemma_files_push(nodes_of(s.drop_last()), node_of(s.last()));
    }
}

/// Appends every regular file below `e`, depth first, with its fingerprint
/// as recorded in `n`.
pub fn collect_leaves(n: &Node, e: &Entry, out: &mut Vec<Link>)
    requires
        n@ == node_of(*e),
    ensures
        links_view(final(out)@) == links_view(old(out)@) + leaves_of(*e),
    decreases e,
{
    match (&n.meta, &e.kind) {
        (Meta::File(f), EntryKind::File(_)) => {
            out.push(Link { source: e.path.clone(), fingerprint: f.clone() });
            assert(links_view(out@) =~= links_view(old(out)@) + leaves_of(*e));
        },
        (Meta::Directory(cn), EntryKind::Directory(ce)) => {
            collect_leaves_all(cn, ce, out);
        },
        _ => {
            assert(links_view(out@) =~= links_view(old(out)@) + leaves_of(*e));
        },
    }
}

pub fn collect_leaves_all(cn: &Vec<Node>, ce: &Vec<Entry>, out: &mut Vec<Link>)
    requires
        nodes_view(cn@) == nodes_of(ce@),
    ensures
        links_view(final(out)@) == links_view(old(out)@) + leaves_of_all(ce@),
    decreases ce,
{
    proof {
        lemma_nodes_view_index(cn@);
        lemma_nodes_of_index(ce@);
        assert(cn@.len() == nodes_view(cn@).len());
        assert(cn@.len() == ce@.len());
        assert forall|k: int| 0 <= k < ce@.len() implies #[trigger] node_view(cn@[k]) == node_of(
            ce@[k],
        ) by {
            assert(nodes_view(cn@)[k] == nodes_of(ce@)[k]);
            assert(nodes_view(cn@)[k] == node_view(cn@[k]));
            assert(nodes_of(ce@)[k] == node_of(ce@[k]));
        }
    }
    let ghost start = links_view(out@);
    let mut i: usize = 0;
    assert(start + leaves_of_all(ce@.take(0)) =~= start);
    while i < ce.len()
        invariant
            0 <= i <= ce.len(),
            cn@.len() == ce@.len(),
            nodes_view(cn@) == nodes_of(ce@),
            forall|k: int| 0 <= k < ce@.len() ==> #[trigger] node_view(cn@[k]) == node_of(ce@[k]),
            links_view(out@) == start + leaves_of_all(ce@.take(i as int)),
        decreases ce.len() - i,
    {
        assert(node_view(cn@[i as int]) == node_of(ce@[i as int]));
        collect_leaves(&cn[i], &ce[i], out);
        proof {
            let t = ce@.take(i + 1);
            assert(t.drop_last() =~= ce@.take(i as int));
            assert(t.last() == ce@[i as int]);
            assert(links_view(out@) =~= start + leaves_of_all(ce@.take(i + 1)));
        }
        i = i + 1;
    }
    assert(ce@.take(ce.len() as int) =~= ce@);
}

} // verus!
