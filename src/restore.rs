//! Planning the restoration of a stored tree under a destination.
use vstd::prelude::*;

use crate::node::{lemma_nodes_view_index, node_view, nodes_view, Meta, MetaView, Node, NodeView};

verus! {

/// One action of a restoration; a path is a sequence of components below
/// the destination directory, the item's name first.
#[derive(Debug, Clone, PartialEq, Eq)]
pub enum Step {
    /// Create a directory.
    CreateDir(Vec<String>),
    /// Hard-link the blob of a fingerprint to a path, unless the path exists.
    LinkBlob(String, Vec<String>),
    /// Create a symbolic link with a target at a path.
    Symlink(String, Vec<String>),
}

/// The mathematical value of a `Step`.
pub enum StepView {
    CreateDir(Seq<Seq<char>>),
    LinkBlob(Seq<char>, Seq<Seq<char>>),
    Symlink(Seq<char>, Seq<Seq<char>>),
}

pub open spec fn path_view(p: Seq<String>) -> Seq<Seq<char>> {
    p.map_values(|c: String| c@)
}

pub open spec fn step_view(s: Step) -> StepView {
    match s {
        Step::CreateDir(p) => StepView::CreateDir(path_view(p@)),
        Step::LinkBlob(f, p) => StepView::LinkBlob(f@, path_view(p@)),
        Step::Symlink(t, p) => StepView::Symlink(t@, path_view(p@)),
    }
}

pub open spec fn steps_view(s: Seq<Step>) -> Seq<StepView> {
    s.map_values(|x: Step| step_view(x))
}

/// Directories and files below `n`, depth first, parents before children.
pub open spec fn plain_steps(n: NodeView, parent: Seq<Seq<char>>) -> Seq<StepView>
    decreases n,
{
    let p = parent.push(n.name);
    match n.meta {
        MetaView::File(f) => seq![StepView::LinkBlob(f, p)],
        MetaView::Symlink(_) => Seq::empty(),
        MetaView::Directory(c) => seq![StepView::CreateDir(p)] + plain_steps_all(c, p),
    }
}

pub open spec fn plain_steps_all(s: Seq<NodeView>, parent: Seq<Seq<char>>) -> Seq<StepView>
    decreases s,
{
    if s.len() == 0 {
        Seq::empty()
    } else {
        plain_steps_all(s.drop_last(), parent) + plain_steps(s.last(), parent)
    }
}

/// Symbolic links below `n`, depth first.
pub open spec fn link_steps(n: NodeView, parent: Seq<Seq<char>>) -> Seq<StepView>
    decreases n,
{
    let p = parent.push(n.name);
    match n.meta {
        MetaView::File(_) => Seq::empty(),
        MetaView::Symlink(t) => seq![StepView::Symlink(t, p)],
        MetaView::Directory(c) => link_steps_all(c, p),
    }
}

pub open spec fn link_steps_all(s: Seq<NodeView>, parent: Seq<Seq<char>>) -> Seq<StepView>
    decreases s,
{
    if s.len() == 0 {
        Seq::empty()
    } else {
        link_steps_all(s.drop_last(), parent) + link_steps(s.last(), parent)
    }
}

/// The restoration of `n`: every directory and file first, then every
/// symbolic link, so that a link's target within the tree exists when the
/// link is made.
pub open spec fn restore_plan(n: NodeView) -> Seq<StepView> {
    plain_steps(n, Seq::empty()) + link_steps(n, Seq::empty())
}

/// A copy of a path.
fn copy_path(p: &Vec<String>) -> (r: Vec<String>)
    ensures
        path_view(r@) == path_view(p@),
{
    let mut r: Vec<String> = Vec::new();
    let mut i: usize = 0;
    while i < p.len()
        invariant
            0 <= i <= p@.len(),
            r@.len() == i,
            forall|k: int| 0 <= k < i ==> #[trigger] r@[k]@ == p@[k]@,
        decreases p.len() - i,
    {
        r.push(p[i].clone());
        i = i + 1;
    }
    assert(path_view(r@) =~= path_view(p@));
    r
}

/// `p` with one more component.
fn child_path(p: &Vec<String>, name: &String) -> (r: Vec<String>)
    ensures
        path_view(r@) == path_view(p@).push(name@),
{
    let mut r = copy_path(p);
    r.push(name.clone());
    assert(path_view(r@) =~= path_view(p@).push(name@));
    r
}

/// Appends the steps that create the directories and files below `n`.
pub fn push_plain_steps(n: &Node, parent: &Vec<String>, out: &mut Vec<Step>)
    ensures
        steps_view(final(out)@) == steps_view(old(out)@) + plain_steps(n@, path_view(parent@)),
    decreases n,
{
    let p = child_path(parent, &n.name);
    match &n.meta {
        Meta::File(f) => {
            out.push(Step::LinkBlob(f.clone(), p));
            assert(steps_view(out@) =~= steps_view(old(out)@) + plain_steps(n@, path_view(parent@)));
        },
        Meta::Symlink(_) => {
            assert(steps_view(out@) =~= steps_view(old(out)@) + plain_steps(n@, path_view(parent@)));
        },
        Meta::Directory(c) => {
            let q = copy_path(&p);
            out.push(Step::CreateDir(q));
            let ghost mid = steps_view(out@);
            assert(mid =~= steps_view(old(out)@) + seq![StepView::CreateDir(path_view(p@))]);
            push_plain_steps_all(c, &p, out);
            assert(steps_view(out@) =~= steps_view(old(out)@) + plain_steps(n@, path_view(parent@)));
        },
    }
}

pub fn push_plain_steps_all(c: &Vec<Node>, parent: &Vec<String>, out: &mut Vec<Step>)
    ensures
        steps_view(final(out)@) == steps_view(old(out)@) + plain_steps_all(
            nodes_view(c@),
            path_view(parent@),
        ),
    decreases c,
{
    proof {
        lemma_nodes_view_index(c@);
    }
    let ghost start = steps_view(out@);
    let ghost pv = path_view(parent@);
    let ghost cv = nodes_view(c@);
    let mut i: usize = 0;
    assert(start + plain_steps_all(cv.take(0), pv) =~= start);
    while i < c.len()
        invariant
            0 <= i <= c@.len(),
            pv == path_view(parent@),
            cv == nodes_view(c@),
            cv.len() == c@.len(),
            forall|k: int| 0 <= k < c@.len() ==> #[trigger] cv[k] == node_view(c@[k]),
            steps_view(out@) == start + plain_steps_all(cv.take(i as int), pv),
        decreases c.len() - i,
    {
        push_plain_steps(&c[i], parent, out);
        proof {
            let t = cv.take(i + 1);
            assert(t.drop_last() =~= cv.take(i as int));
            assert(t.last() == node_view(c@[i as int]));
            assert(steps_view(out@) =~= start + plain_steps_all(t, pv));
        }
        i = i + 1;
    }
    assert(cv.take(c.len() as int) =~= cv);
}

/// Appends the steps that create the symbolic links below `n`.
pub fn push_link_steps(n: &Node, parent: &Vec<String>, out: &mut Vec<Step>)
    ensures
        steps_view(final(out)@) == steps_view(old(out)@) + link_steps(n@, path_view(parent@)),
    decreases n,
{
    let p = child_path(parent, &n.name);
    match &n.meta {
        Meta::File(_) => {
            assert(steps_view(out@) =~= steps_view(old(out)@) + link_steps(n@, path_view(parent@)));
        },
        Meta::Symlink(t) => {
            out.push(Step::Symlink(t.clone(), p));
            assert(steps_view(out@) =~= steps_view(old(out)@) + link_steps(n@, path_view(parent@)));
        },
        Meta::Directory(c) => {
            push_link_steps_all(c, &p, out);
        },
    }
}

pub fn push_link_steps_all(c: &Vec<Node>, parent: &Vec<String>, out: &mut Vec<Step>)
    ensures
        steps_view(final(out)@) == steps_view(old(out)@) + link_steps_all(
            nodes_view(c@),
            path_view(parent@),
        ),
    decreases c,
{
    proof {
        lemma_nodes_view_index(c@);
    }
    let ghost start = steps_view(out@);
    let ghost pv = path_view(parent@);
    let ghost cv = nodes_view(c@);
    let mut i: usize = 0;
    assert(start + link_steps_all(cv.take(0), pv) =~= start);
    while i < c.len()
        invariant
            0 <= i <= c@.len(),
            pv == path_view(parent@),
            cv == nodes_view(c@),
            cv.len() == c@.len(),
            forall|k: int| 0 <= k < c@.len() ==> #[trigger] cv[k] == node_view(c@[k]),
            steps_view(out@) == start + link_steps_all(cv.take(i as int), pv),
        decreases c.len() - i,
    {
        push_link_steps(&c[i], parent, out);
        proof {
            let t = cv.take(i + 1);
            assert(t.drop_last() =~= cv.take(i as int));
            assert(t.last() == node_view(c@[i as int]));
            assert(steps_view(out@) =~= start + link_steps_all(t, pv));
        }
        i = i + 1;
    }
    assert(cv.take(c.len() as int) =~= cv);
}

/// The steps that restore `n` under a destination directory.
pub fn plan_restore(n: &Node) -> (r: Vec<Step>)
    ensures
        steps_view(r@) == restore_plan(n@),
{
    let root: Vec<String> = Vec::new();
    let mut out: Vec<Step> = Vec::new();
    assert(path_view(root@) =~= Seq::<Seq<char>>::empty());
    push_plain_steps(n, &root, &mut out);
    push_link_steps(n, &root, &mut out);
    assert(steps_view(out@) =~= restore_plan(n@));
    out
}

} // verus!
