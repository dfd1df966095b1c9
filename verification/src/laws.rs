//! Laws that relate the library's operations across calls, stated and
//! proved over the model that the operations' contracts use.

use crate::model::Node;
use crate::model::prefix_paths;
use crate::model::render_path;
use crate::model::separator;
use crate::model::valid_name;
use vstd::prelude::*;

verus! {

/// Law: for any valid name that is not yet a child of a well-formed node,
/// creating that child raises the child count by exactly one and makes the
/// name present, while the node stays well-formed.  By `mkdir`'s contract,
/// an immediately repeated creation of the same name must therefore fail
/// with `DirExists` and leave the node — and its child count — unchanged.
pub proof fn lemma_create_child_then_again(t: Node, name: Seq<char>)
    requires
        t.wf(),
        valid_name(name),
        !t.has_kid(name),
    ensures
        t.with_child(name).kids.len() == t.kids.len() + 1,
        t.with_child(name).has_kid(name),
        t.with_child(name).wf(),
{
    crate::model::lemma_with_child_wf(t, name);
}

/// Law: leaf-path enumeration reports exactly one path for each reachable
/// leaf directory, whatever the shape of the tree.
pub proof fn lemma_one_path_per_leaf(t: Node)
    ensures
        t.leaf_paths().len() == t.leaf_count(),
    decreases t,
{
    if !t.is_leaf() {
        lemma_one_path_per_leaf_kids(t.kids);
    }
}

/// The paths contributed by a prefix of a node's children are one per
/// leaf below those children.
proof fn lemma_one_path_per_leaf_kids(kids: Seq<(Seq<char>, Node)>)
    ensures
        Node::kids_paths(kids).len() == Node::kids_leaf_count(kids),
    decreases kids,
{
    if kids.len() > 0 {
        lemma_one_path_per_leaf_kids(kids.drop_last());
        lemma_one_path_per_leaf(kids.last().1);
    }
}

/// Law: whatever leaf directory a path of components reaches, the
/// enumeration holds that path's string: each component preceded by the
/// separator, with a trailing separator.  No reachable leaf is left out.
pub proof fn lemma_every_leaf_is_enumerated(t: Node, path: Seq<Seq<char>>)
    requires
        t.resolve(path) is Some,
        t.resolve(path).unwrap().is_leaf(),
    ensures
        t.leaf_paths().contains(render_path(path)),
    decreases path.len(),
{
    if path.len() == 0 {
        assert(t.leaf_paths()[0] == render_path(path));
    } else {
        let i = t.kid_idx(path[0]);
        assert(0 <= i < t.kids.len() && t.kids[i].0 == path[0]);
        lemma_every_leaf_is_enumerated(t.kid(path[0]), path.skip(1));
        let q = render_path(path.skip(1));
        let j = choose|j: int|
            0 <= j < t.kids[i].1.leaf_paths().len() && t.kids[i].1.leaf_paths()[j] == q;
        lemma_kids_paths_contains(t.kids, i, j);
        assert(render_path(path) == seq![separator()] + t.kids[i].0 + q);
    }
}

/// The paths contributed by a node's children contain, for each child and
/// each of the child's own leaf paths, that path prefixed by the separator
/// and the child's name.
proof fn lemma_kids_paths_contains(kids: Seq<(Seq<char>, Node)>, i: int, j: int)
    requires
        0 <= i < kids.len(),
        0 <= j < kids[i].1.leaf_paths().len(),
    ensures
        Node::kids_paths(kids).contains(
            seq![separator()] + kids[i].0 + kids[i].1.leaf_paths()[j],
        ),
    decreases kids,
{
    let target = seq![separator()] + kids[i].0 + kids[i].1.leaf_paths()[j];
    if i == kids.len() - 1 {
        let front = Node::kids_paths(kids.drop_last());
        let block = prefix_paths(kids.last().0, kids.last().1.leaf_paths());
        assert(block[j] == target);
        assert(Node::kids_paths(kids)[front.len() + j] == target);
    } else {
        lemma_kids_paths_contains(kids.drop_last(), i, j);
        assert(kids.drop_last()[i] == kids[i]);
        let front = Node::kids_paths(kids.drop_last());
        let k = choose|k: int| 0 <= k < front.len() && front[k] == target;
        assert(Node::kids_paths(kids)[k] == target);
    }
}

/// Law: on a well-formed tree, every enumerated path is the path string
/// of some reachable leaf directory.  Nothing is enumerated besides the
/// reachable leaves.
pub proof fn lemma_every_enumerated_path_names_a_leaf(t: Node, i: int)
    requires
        t.wf(),
        0 <= i < t.leaf_paths().len(),
    ensures
        exists|path: Seq<Seq<char>>|
            {
                &&& #[trigger] t.resolve(path) is Some
                &&& t.resolve(path).unwrap().is_leaf()
                &&& render_path(path) == t.leaf_paths()[i]
            },
    decreases t,
{
    if t.is_leaf() {
        let path = Seq::<Seq<char>>::empty();
        assert(t.resolve(path) is Some);
        assert(render_path(path) == t.leaf_paths()[i]);
    } else {
        lemma_enumerated_kids_split(t.kids, i);
        let (k, j) = choose|k: int, j: int|
            {
                &&& 0 <= k < t.kids.len()
                &&& 0 <= j < t.kids[k].1.leaf_paths().len()
                &&& Node::kids_paths(t.kids)[i] == seq![separator()] + t.kids[k].0
                    + t.kids[k].1.leaf_paths()[j]
            };
        crate::model::lemma_kid_idx(t, k, t.kids[k].0);
        assert((#[trigger] t.kids[k]).1.wf());
        lemma_every_enumerated_path_names_a_leaf(t.kids[k].1, j);
        let rest = choose|rest: Seq<Seq<char>>|
            {
                &&& #[trigger] t.kids[k].1.resolve(rest) is Some
                &&& t.kids[k].1.resolve(rest).unwrap().is_leaf()
                &&& render_path(rest) == t.kids[k].1.leaf_paths()[j]
            };
        let path = seq![t.kids[k].0] + rest;
        assert(path[0] == t.kids[k].0);
        assert(path.skip(1) =~= rest);
        assert(t.resolve(path) == t.kids[k].1.resolve(rest));
        assert(render_path(path) == seq![separator()] + t.kids[k].0 + render_path(rest));
    }
}

/// Every index into the paths contributed by a node's children lands in
/// the block of some one child: the path is that child's own leaf path,
/// prefixed by the separator and the child's name.
proof fn lemma_enumerated_kids_split(kids: Seq<(Seq<char>, Node)>, i: int)
    requires
        0 <= i < Node::kids_paths(kids).len(),
    ensures
        exists|k: int, j: int|
            {
                &&& 0 <= k < kids.len()
                &&& 0 <= j < kids[k].1.leaf_paths().len()
                &&& #[trigger] Node::kids_paths(kids)[i] == seq![separator()] + kids[k].0
                    + kids[k].1.leaf_paths()[j]
            },
    decreases kids,
{
    let front = Node::kids_paths(kids.drop_last());
    let block = prefix_paths(kids.last().0, kids.last().1.leaf_paths());
    if i < front.len() {
        lemma_enumerated_kids_split(kids.drop_last(), i);
        let (k, j) = choose|k: int, j: int|
            {
                &&& 0 <= k < kids.drop_last().len()
                &&& 0 <= j < kids.drop_last()[k].1.leaf_paths().len()
                &&& Node::kids_paths(kids.drop_last())[i] == seq![separator()]
                    + kids.drop_last()[k].0 + kids.drop_last()[k].1.leaf_paths()[j]
            };
        assert(kids.drop_last()[k] == kids[k]);
        assert(Node::kids_paths(kids)[i] == front[i]);
    } else {
        let k = kids.len() - 1;
        let j = i - front.len();
        assert(Node::kids_paths(kids)[i] == block[j]);
        assert(block[j] == seq![separator()] + kids[k].0 + kids[k].1.leaf_paths()[j]);
    }
}

/// Law: every enumerated leaf path begins with the separator — each
/// component is preceded by one — and ends with a trailing separator.
pub proof fn lemma_paths_begin_and_end_with_separator(t: Node)
    ensures
        forall|i: int|
            0 <= i < t.leaf_paths().len() ==> {
                let p = #[trigger] t.leaf_paths()[i];
                &&& p.len() >= 1
                &&& p.first() == separator()
                &&& p.last() == separator()
            },
    decreases t,
{
    if t.is_leaf() {
        assert(t.leaf_paths() == seq![seq![separator()]]);
        assert(t.leaf_paths()[0].first() == separator());
        assert(t.leaf_paths()[0].last() == separator());
    } else {
        lemma_paths_shape_kids(t.kids);
        assert(t.leaf_paths() == Node::kids_paths(t.kids));
        assert forall|i: int| 0 <= i < t.leaf_paths().len() implies {
            let p = #[trigger] t.leaf_paths()[i];
            &&& p.len() >= 1
            &&& p.first() == separator()
            &&& p.last() == separator()
        } by {
            assert(t.leaf_paths()[i] == Node::kids_paths(t.kids)[i]);
        };
    }
}

/// The paths contributed by a prefix of a node's children all begin and
/// end with the separator.
proof fn lemma_paths_shape_kids(kids: Seq<(Seq<char>, Node)>)
    ensures
        forall|i: int|
            0 <= i < Node::kids_paths(kids).len() ==> {
                let p = #[trigger] Node::kids_paths(kids)[i];
                &&& p.len() >= 1
                &&& p.first() == separator()
                &&& p.last() == separator()
            },
    decreases kids,
{
    if kids.len() > 0 {
        lemma_paths_shape_kids(kids.drop_last());
        lemma_paths_begin_and_end_with_separator(kids.last().1);
        let front = Node::kids_paths(kids.drop_last());
        let sub = kids.last().1.leaf_paths();
        let block = prefix_paths(kids.last().0, sub);
        assert forall|i: int| 0 <= i < Node::kids_paths(kids).len() implies {
            let p = #[trigger] Node::kids_paths(kids)[i];
            &&& p.len() >= 1
            &&& p.first() == separator()
            &&& p.last() == separator()
        } by {
            if i < front.len() {
                assert(Node::kids_paths(kids)[i] == front[i]);
            } else {
                let j = i - front.len();
                assert(Node::kids_paths(kids)[i] == block[j]);
                let p = sub[j];
                assert(block[j] == seq![separator()] + kids.last().0 + p);
                assert(p.len() >= 1 && p.last() == separator());
                assert(block[j].first() == separator());
                assert(block[j].last() == p.last());
            }
        };
    }
}

} // verus!
