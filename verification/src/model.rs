//! The mathematical model of a directory tree.
//!
//! Every contract of the library is stated over [`Node`], the ghost value of
//! a tree: a sequence of children, each a component name paired with the
//! model of its subtree, in insertion order.

use vstd::prelude::*;

verus! {

/// The path-separator character.  It precedes every component in an
/// enumerated path and is disallowed inside component names.
pub open spec fn separator() -> char {
    '/'
}

/// A component name is valid when it does not contain the separator.
pub open spec fn valid_name(name: Seq<char>) -> bool {
    !name.contains(separator())
}

/// Each path in `ps`, prefixed by the separator and the component name.
pub open spec fn prefix_paths(name: Seq<char>, ps: Seq<Seq<char>>) -> Seq<Seq<char>> {
    ps.map_values(|p: Seq<char>| seq![separator()] + name + p)
}

/// The path string that names the directory reached by the given
/// components: each component preceded by the separator, and a trailing
/// separator after the last one.  The empty sequence of components names
/// the starting directory itself, as the separator alone.
pub open spec fn render_path(path: Seq<Seq<char>>) -> Seq<char>
    decreases path.len(),
{
    if path.len() == 0 {
        seq![separator()]
    } else {
        seq![separator()] + path[0] + render_path(path.skip(1))
    }
}

/// The model of a directory tree.
#[verifier::ext_equal]
pub ghost struct Node {
    pub kids: Seq<(Seq<char>, Node)>,
}

impl Node {
    /// The model of a leaf directory: no children.
    pub open spec fn empty() -> Node {
        Node { kids: Seq::empty() }
    }

    /// Whether this node is a leaf directory.
    pub open spec fn is_leaf(self) -> bool {
        self.kids.len() == 0
    }

    /// Whether a direct child of the given name exists.
    pub open spec fn has_kid(self, name: Seq<char>) -> bool {
        exists|i: int| 0 <= i < self.kids.len() && self.kids[i].0 == name
    }

    /// The index of the direct child of the given name.  Meaningful only
    /// when `has_kid(name)` holds; under `wf()` it is unique.
    pub open spec fn kid_idx(self, name: Seq<char>) -> int {
        choose|i: int| 0 <= i < self.kids.len() && self.kids[i].0 == name
    }

    /// The subtree of the direct child of the given name.
    pub open spec fn kid(self, name: Seq<char>) -> Node {
        self.kids[self.kid_idx(name)].1
    }

    /// No two direct children share a name.
    pub open spec fn names_unique(self) -> bool {
        forall|i: int, j: int|
            0 <= i < j < self.kids.len() ==> self.kids[i].0 != self.kids[j].0
    }

    /// Well-formedness: throughout the whole tree, sibling names are unique
    /// and no name contains the separator.
    pub open spec fn wf(self) -> bool
        decreases self,
    {
        &&& self.names_unique()
        &&& forall|i: int|
            0 <= i < self.kids.len() ==> valid_name((#[trigger] self.kids[i]).0)
        &&& forall|i: int| 0 <= i < self.kids.len() ==> (#[trigger] self.kids[i]).1.wf()
    }

    /// This node with one more child appended: an empty subtree of the
    /// given name.
    pub open spec fn with_child(self, name: Seq<char>) -> Node {
        Node { kids: self.kids.push((name, Node::empty())) }
    }

    /// Follow `path` downward, one child-name lookup per component, and
    /// return the node reached after consuming every component; `None` as
    /// soon as a component does not name an existing child.
    pub open spec fn resolve(self, path: Seq<Seq<char>>) -> Option<Node>
        decreases path.len(),
    {
        if path.len() == 0 {
            Some(self)
        } else if self.has_kid(path[0]) {
            self.kid(path[0]).resolve(path.skip(1))
        } else {
            None
        }
    }

    /// This tree with the descendant at `path` replaced by `sub`.
    /// Meaningful only when `resolve(path)` is `Some`.
    pub open spec fn replace_at(self, path: Seq<Seq<char>>, sub: Node) -> Node
        decreases path.len(),
    {
        if path.len() == 0 {
            sub
        } else {
            let i = self.kid_idx(path[0]);
            Node {
                kids: self.kids.update(
                    i,
                    (self.kids[i].0, self.kids[i].1.replace_at(path.skip(1), sub)),
                ),
            }
        }
    }

    /// The leaf paths contributed by a prefix of a node's children: for
    /// each child in order, that child's own leaf paths, each prefixed by
    /// the separator and the child's name.
    pub open spec fn kids_paths(kids: Seq<(Seq<char>, Node)>) -> Seq<Seq<char>>
        decreases kids,
    {
        if kids.len() == 0 {
            Seq::empty()
        } else {
            Self::kids_paths(kids.drop_last()) + prefix_paths(
                kids.last().0,
                kids.last().1.leaf_paths(),
            )
        }
    }

    /// The number of leaf directories among a prefix of a node's children.
    pub open spec fn kids_leaf_count(kids: Seq<(Seq<char>, Node)>) -> nat
        decreases kids,
    {
        if kids.len() == 0 {
            0
        } else {
            Self::kids_leaf_count(kids.drop_last()) + kids.last().1.leaf_count()
        }
    }

    /// The number of leaf directories reachable from this node.  A leaf
    /// node counts itself.
    pub open spec fn leaf_count(self) -> nat
        decreases self,
    {
        if self.is_leaf() {
            1
        } else {
            Self::kids_leaf_count(self.kids)
        }
    }

    /// The paths from this node to each reachable leaf, one per leaf, in
    /// child order.  A leaf node contributes the single path consisting of
    /// the separator alone; every component of a longer path is preceded by
    /// the separator, so every path ends in a trailing separator.
    pub open spec fn leaf_paths(self) -> Seq<Seq<char>>
        decreases self,
    {
        if self.is_leaf() {
            seq![seq![separator()]]
        } else {
            Self::kids_paths(self.kids)
        }
    }
}

/// The leaf paths of one more child extend the leaf paths of the children
/// before it, in order.
pub proof fn lemma_kids_paths_take(kids: Seq<(Seq<char>, Node)>, i: int)
    requires
        0 <= i < kids.len(),
    ensures
        Node::kids_paths(kids.take(i + 1)) == Node::kids_paths(kids.take(i)) + prefix_paths(
            kids[i].0,
            kids[i].1.leaf_paths(),
        ),
{
    let t1 = kids.take(i + 1);
    assert(t1.drop_last() =~= kids.take(i));
    assert(t1.last() == kids[i]);
    assert(Node::kids_paths(t1) == Node::kids_paths(t1.drop_last()) + prefix_paths(
        t1.last().0,
        t1.last().1.leaf_paths(),
    ));
}

/// A child whose name occurs at index `i` is, under sibling-name
/// uniqueness, the child that name lookup finds.
pub proof fn lemma_kid_idx(n: Node, i: int, name: Seq<char>)
    requires
        n.names_unique(),
        0 <= i < n.kids.len(),
        n.kids[i].0 == name,
    ensures
        n.has_kid(name),
        n.kid_idx(name) == i,
        n.kid(name) == n.kids[i].1,
{
    assert(n.has_kid(name));
    let j = n.kid_idx(name);
    assert(0 <= j < n.kids.len() && n.kids[j].0 == name);
    if i < j {
        assert(n.kids[i].0 != n.kids[j].0);
    } else if j < i {
        assert(n.kids[j].0 != n.kids[i].0);
    }
}

/// Adding a child of a fresh, valid name to a well-formed node keeps it
/// well-formed; the new child is present and the child count grows by one.
pub proof fn lemma_with_child_wf(n: Node, name: Seq<char>)
    requires
        n.wf(),
        valid_name(name),
        !n.has_kid(name),
    ensures
        n.with_child(name).wf(),
        n.with_child(name).has_kid(name),
        n.with_child(name).kids.len() == n.kids.len() + 1,
{
    let post = n.with_child(name);
    assert(Node::empty().wf());
    assert forall|i: int| 0 <= i < post.kids.len() implies valid_name(
        (#[trigger] post.kids[i]).0,
    ) && post.kids[i].1.wf() by {
        if i < n.kids.len() {
            assert(post.kids[i] == n.kids[i]);
        } else {
            assert(post.kids[i] == (name, Node::empty()));
        }
    };
    assert forall|a: int, b: int| 0 <= a < b < post.kids.len() implies post.kids[a].0
        != post.kids[b].0 by {
        if b < n.kids.len() {
            assert(n.kids[a].0 != n.kids[b].0);
        } else {
            assert(post.kids[b].0 == name);
            assert(n.kids[a].0 != name);
        }
    };
    assert(post.kids.last().0 == name);
}

/// Every node that a path reaches inside a well-formed tree is itself
/// well-formed.
pub proof fn lemma_resolve_wf(n: Node, path: Seq<Seq<char>>)
    requires
        n.wf(),
        n.resolve(path) is Some,
    ensures
        n.resolve(path).unwrap().wf(),
    decreases path.len(),
{
    if path.len() > 0 {
        let i = n.kid_idx(path[0]);
        assert(0 <= i < n.kids.len() && n.kids[i].0 == path[0]);
        assert((#[trigger] n.kids[i]).1.wf());
        lemma_resolve_wf(n.kid(path[0]), path.skip(1));
    }
}

/// Resolution distributes over path concatenation: following `a + b`
/// follows `a` and then follows `b` from wherever `a` arrived.
pub proof fn lemma_resolve_append(n: Node, a: Seq<Seq<char>>, b: Seq<Seq<char>>)
    ensures
        n.resolve(a + b) == match n.resolve(a) {
            Some(m) => m.resolve(b),
            None => None::<Node>,
        },
    decreases a.len(),
{
    if a.len() == 0 {
        assert(a + b =~= b);
    } else {
        assert((a + b).len() > 0);
        assert((a + b)[0] == a[0]);
        if n.has_kid(a[0]) {
            assert((a + b).skip(1) =~= a.skip(1) + b);
            lemma_resolve_append(n.kid(a[0]), a.skip(1), b);
        }
    }
}

/// Replacing the subtree that a resolvable path reaches with a well-formed
/// subtree keeps the whole tree well-formed.
pub proof fn lemma_replace_at_wf(n: Node, path: Seq<Seq<char>>, sub: Node)
    requires
        n.wf(),
        n.resolve(path) is Some,
        sub.wf(),
    ensures
        n.replace_at(path, sub).wf(),
    decreases path.len(),
{
    if path.len() > 0 {
        let i = n.kid_idx(path[0]);
        assert(0 <= i < n.kids.len() && n.kids[i].0 == path[0]);
        assert((#[trigger] n.kids[i]).1.wf());
        lemma_replace_at_wf(n.kid(path[0]), path.skip(1), sub);
        let post = n.replace_at(path, sub);
        assert forall|k: int| 0 <= k < post.kids.len() implies valid_name(
            (#[trigger] post.kids[k]).0,
        ) && post.kids[k].1.wf() by {
            if k != i {
                assert(post.kids[k] == n.kids[k]);
            }
            assert(valid_name(n.kids[k].0));
            assert(post.kids[k].0 == n.kids[k].0);
        };
        assert forall|a: int, b: int| 0 <= a < b < post.kids.len() implies post.kids[a].0
            != post.kids[b].0 by {
            assert(post.kids[a].0 == n.kids[a].0);
            assert(post.kids[b].0 == n.kids[b].0);
            assert(n.kids[a].0 != n.kids[b].0);
        };
    }
}

/// After replacing the subtree at a resolvable path, that path resolves to
/// the replacement.
pub proof fn lemma_replace_at_resolve(n: Node, path: Seq<Seq<char>>, sub: Node)
    requires
        n.wf(),
        n.resolve(path) is Some,
    ensures
        n.replace_at(path, sub).resolve(path) == Some(sub),
    decreases path.len(),
{
    if path.len() > 0 {
        let i = n.kid_idx(path[0]);
        assert(0 <= i < n.kids.len() && n.kids[i].0 == path[0]);
        let post = n.replace_at(path, sub);
        assert forall|a: int, b: int| 0 <= a < b < post.kids.len() implies post.kids[a].0
            != post.kids[b].0 by {
            assert(post.kids[a].0 == n.kids[a].0);
            assert(post.kids[b].0 == n.kids[b].0);
            assert(n.kids[a].0 != n.kids[b].0);
        };
        assert(post.kids[i].0 == path[0]);
        lemma_kid_idx(post, i, path[0]);
        assert((#[trigger] n.kids[i]).1.wf());
        lemma_replace_at_resolve(n.kid(path[0]), path.skip(1), sub);
    }
}

/// Replacing the subtree at a resolvable path with the very subtree that
/// is already there leaves the tree unchanged.
pub proof fn lemma_replace_at_same(n: Node, path: Seq<Seq<char>>)
    requires
        n.resolve(path) is Some,
    ensures
        n.replace_at(path, n.resolve(path).unwrap()) == n,
    decreases path.len(),
{
    if path.len() > 0 {
        let i = n.kid_idx(path[0]);
        assert(0 <= i < n.kids.len() && n.kids[i].0 == path[0]);
        lemma_replace_at_same(n.kid(path[0]), path.skip(1));
        let post = n.replace_at(path, n.resolve(path).unwrap());
        assert(post.kids[i] == n.kids[i]);
        assert(post.kids =~= n.kids);
        assert(post =~= n);
    }
}

} // verus!
