//! The directory tree: nodes, the sibling-name invariant, traversal and
//! leaf-path enumeration.

use crate::error::DirError;
use crate::model::Node;
use crate::model::separator;
use crate::model::valid_name;
use vstd::prelude::*;
use vstd::string::StrSliceExecFns;

verus! {

/// Report whether `name` contains the separator character.
fn contains_separator(name: &str) -> (r: bool)
    ensures
        r == !valid_name(name@),
{
    let len = name.unicode_len();
    let mut i: usize = 0;
    while i < len
        invariant
            len == name@.len(),
            0 <= i <= len,
            forall|j: int| 0 <= j < i ==> name@[j] != separator(),
        decreases len - i,
    {
        if name.get_char(i) == '/' {
            return true;
        }
        i += 1;
    }
    false
}

/// A directory entry: a component name paired with the subtree it names.
#[derive(Debug)]
pub struct DEnt {
    pub name: String,
    pub subdir: DTree,
}

/// A directory tree: an ordered collection of named child directories.
/// A tree with no children is a leaf directory.
#[derive(Debug)]
pub struct DTree {
    pub children: Vec<DEnt>,
}

/// The models of a sequence of directory entries, in order.
pub open spec fn view_kids(s: Seq<DEnt>) -> Seq<(Seq<char>, Node)>
    decreases s,
{
    if s.len() == 0 {
        Seq::empty()
    } else {
        view_kids(s.drop_last()).push((s.last().name@, s.last().subdir@))
    }
}

impl View for DTree {
    type V = Node;

    /// The model of a tree: its entries' names and subtree models, in order.
    open spec fn view(&self) -> Node
        decreases self,
    {
        Node { kids: view_kids(self.children@) }
    }
}

/// The model of a sequence of entries has one child per entry, in the same
/// order: the entry's name and the model of its subtree.
pub broadcast proof fn lemma_view_kids(s: Seq<DEnt>)
    ensures
        (#[trigger] view_kids(s)).len() == s.len(),
        forall|i: int| 0 <= i < s.len() ==> view_kids(s)[i] == (s[i].name@, s[i].subdir@),
    decreases s,
{
    if s.len() > 0 {
        lemma_view_kids(s.drop_last());
        assert(view_kids(s) == view_kids(s.drop_last()).push((s.last().name@, s.last().subdir@)));
        assert forall|i: int| 0 <= i < s.len() implies view_kids(s)[i] == (
            s[i].name@,
            s[i].subdir@,
        ) by {
            if i < s.len() - 1 {
                assert(s.drop_last()[i] == s[i]);
                assert(view_kids(s)[i] == view_kids(s.drop_last())[i]);
            } else {
                assert(s.last() == s[i]);
            }
        };
    }
}

impl Default for DTree {
    /// An empty directory tree.
    fn default() -> (t: Self)
        ensures
            t@ == Node::empty(),
    {
        DTree::new()
    }
}

impl Clone for DEnt {
    /// A copy of the entry: the same name and a subtree of the same model.
    fn clone(&self) -> (r: Self)
        ensures
            r.name@ == self.name@,
            r.subdir@ == self.subdir@,
        decreases *self,
    {
        DEnt { name: self.name.clone(), subdir: self.subdir.clone() }
    }
}

impl Clone for DTree {
    /// A copy of the tree with the same model.
    fn clone(&self) -> (r: Self)
        ensures
            r@ == self@,
        decreases *self,
    {
        let mut children: Vec<DEnt> = Vec::new();
        let mut i: usize = 0;
        while i < self.children.len()
            invariant
                0 <= i <= self.children@.len(),
                children@.len() == i,
                forall|j: int|
                    0 <= j < i ==> (#[trigger] children@[j]).name@ == self.children@[j].name@
                        && children@[j].subdir@ == self.children@[j].subdir@,
            decreases self.children@.len() - i,
        {
            children.push(self.children[i].clone());
            i += 1;
        }
        let r = DTree { children };
        proof {
            lemma_view_kids(r.children@);
            lemma_view_kids(self.children@);
            assert(r@.kids =~= self@.kids);
            assert(r@ =~= self@);
        }
        r
    }
}

impl DEnt {
    /// Make an entry of the given name with an empty subtree.
    pub fn new(name: &str) -> (r: Result<Self, DirError>)
        ensures
            r matches Ok(e) && e.name@ == name@ && e.subdir@ == Node::empty(),
    {
        Ok(DEnt { name: name.to_owned(), subdir: DTree::new() })
    }
}

impl DTree {
    /// Create a new empty directory tree.
    pub fn new() -> (t: Self)
        ensures
            t@ == Node::empty(),
    {
        let t = DTree { children: Vec::new() };
        proof {
            assert(t@.kids =~= Node::empty().kids);
            assert(t@ =~= Node::empty());
        }
        t
    }

    /// Find the position of the direct child of the given name.
    fn find_child(&self, name: &String) -> (r: Option<usize>)
        ensures
            match r {
                Some(i) => i < self@.kids.len() && self@.kids[i as int].0 == name@,
                None => !self@.has_kid(name@),
            },
    {
        broadcast use lemma_view_kids;

        let mut i: usize = 0;
        while i < self.children.len()
            invariant
                0 <= i <= self.children@.len(),
                forall|j: int| 0 <= j < i ==> self.children@[j].name@ != name@,
            decreases self.children@.len() - i,
        {
            if self.children[i].name == *name {
                proof {
                    lemma_view_kids(self.children@);
                    assert(self@.kids == view_kids(self.children@));
                }
                return Some(i);
            }
            i += 1;
        }
        proof {
            assert(self@.kids == view_kids(self.children@));
            assert forall|j: int| 0 <= j < self@.kids.len() implies (
            #[trigger] self@.kids[j]).0 != name@ by {
                assert(self@.kids[j] == (self.children@[j].name@, self.children@[j].subdir@));
            };
        }
        None
    }

    /// Make a subdirectory with the given name in this directory.
    ///
    /// Fails with `SlashInName` when `name` contains the separator and with
    /// `DirExists` when a direct child of that name already exists; on
    /// failure the tree is left unchanged.  On success a new entry with an
    /// empty subtree is appended and no other node is affected.
    pub fn mkdir(&mut self, name: &str) -> (r: Result<(), DirError>)
        requires
            old(self)@.wf(),
        ensures
            final(self)@.wf(),
            match r {
                Ok(()) => {
                    &&& valid_name(name@)
                    &&& !old(self)@.has_kid(name@)
                    &&& final(self)@ == old(self)@.with_child(name@)
                },
                Err(DirError::SlashInName) => !valid_name(name@) && final(self)@ == old(self)@,
                Err(DirError::DirExists) => {
                    &&& valid_name(name@)
                    &&& old(self)@.has_kid(name@)
                    &&& final(self)@ == old(self)@
                },
                Err(DirError::InvalidChild) => false,
            },
    {
        broadcast use lemma_view_kids;

        if contains_separator(name) {
            return Err(DirError::SlashInName);
        }
        let d = match DEnt::new(name) {
            Ok(d) => d,
            Err(e) => {
                return Err(e);
            },
        };
        if self.find_child(&d.name).is_some() {
            return Err(DirError::DirExists);
        }
        proof {
            crate::model::lemma_with_child_wf(self@, name@);
        }
        let ghost pre = self.children@;
        self.children.push(d);
        proof {
            assert(self.children@.drop_last() =~= pre);
            assert(self@.kids =~= old(self)@.with_child(name@).kids);
            assert(self@ =~= old(self)@.with_child(name@));
        }
        Ok(())
    }

    /// Traverse to the subdirectory given by `path` and then call `f` to
    /// visit that subdirectory read-only, returning the visitor's result.
    ///
    /// Fails with `InvalidChild` when `path` is empty or when some
    /// component does not name an existing child; the tree is never
    /// modified.
    pub fn with_subdir<F, R>(&self, path: &[String], f: F) -> (r: Result<R, DirError>) where
        F: FnOnce(&DTree) -> R,

        requires
            self@.wf(),
            forall|t: &DTree|
                path@.len() > 0 && self@.resolve(path.deep_view()) == Some(t@) ==> call_requires(
                    f,
                    (t,),
                ),
        ensures
            match r {
                Ok(res) => {
                    &&& path@.len() > 0
                    &&& self@.resolve(path.deep_view()) is Some
                    &&& exists|t: &DTree|
                        t@ == self@.resolve(path.deep_view()).unwrap() && call_ensures(
                            f,
                            (t,),
                            res,
                        )
                },
                Err(e) => {
                    &&& e == DirError::InvalidChild
                    &&& (path@.len() == 0 || self@.resolve(path.deep_view()) is None)
                },
            },
    {
        if path.len() == 0 {
            return Err(DirError::InvalidChild);
        }
        match self.resolve_from(path) {
            Some(t) => Ok(f(t)),
            None => Err(DirError::InvalidChild),
        }
    }

    /// Walk the components of `path` downward and return the node they
    /// reach, or `None` as soon as a component does not name an existing
    /// child.
    pub(crate) fn resolve_from(&self, path: &[String]) -> (r: Option<&DTree>)
        requires
            self@.wf(),
        ensures
            match r {
                Some(t) => self@.resolve(path.deep_view()) == Some(t@) && t@.wf(),
                None => self@.resolve(path.deep_view()) is None,
            },
    {
        let ghost nm = path.deep_view();
        let mut cur: &DTree = self;
        let mut k: usize = 0;
        proof {
            assert(nm.skip(0) =~= nm);
        }
        while k < path.len()
            invariant
                0 <= k <= path@.len(),
                nm == path.deep_view(),
                nm.len() == path@.len(),
                cur@.wf(),
                self@.resolve(nm) == cur@.resolve(nm.skip(k as int)),
            decreases path@.len() - k,
        {
            let name: &String = &path[k];
            match cur.find_child(name) {
                None => {
                    proof {
                        assert(nm.skip(k as int)[0] == nm[k as int]);
                    }
                    return None;
                },
                Some(i) => {
                    proof {
                        lemma_view_kids(cur.children@);
                        assert(cur@.kids[i as int] == (
                            cur.children@[i as int].name@,
                            cur.children@[i as int].subdir@,
                        ));
                        crate::model::lemma_kid_idx(cur@, i as int, name@);
                        assert(nm.skip(k as int)[0] == nm[k as int]);
                        assert(nm.skip(k as int).skip(1) =~= nm.skip(k as int + 1));
                        assert((#[trigger] cur@.kids[i as int]).1.wf());
                    }
                    cur = &cur.children[i].subdir;
                },
            }
            k += 1;
        }
        proof {
            assert(nm.skip(nm.len() as int) =~= Seq::<Seq<char>>::empty());
        }
        Some(cur)
    }

    /// Walk the components of `path` from position `k` on and call `f` on
    /// the node they reach, with mutable access.
    fn descend_mut<F, R>(&mut self, path: &[String], k: usize, f: F) -> (r: Result<
        R,
        DirError,
    >) where
        F: FnOnce(&mut DTree) -> R,

        requires
            old(self)@.wf(),
            k <= path@.len(),
            forall|m: &mut DTree|
                old(self)@.resolve(path.deep_view().skip(k as int)) == Some((*m)@)
                    ==> call_requires(f, (m,)),
        ensures
            match r {
                Ok(res) => {
                    &&& old(self)@.resolve(path.deep_view().skip(k as int)) is Some
                    &&& exists|m: &mut DTree|
                        {
                            &&& (*m)@ == old(self)@.resolve(
                                path.deep_view().skip(k as int),
                            ).unwrap()
                            &&& call_ensures(f, (m,), res)
                            &&& final(self)@ == old(self)@.replace_at(
                                path.deep_view().skip(k as int),
                                (*final(m))@,
                            )
                        }
                },
                Err(e) => {
                    &&& e == DirError::InvalidChild
                    &&& old(self)@.resolve(path.deep_view().skip(k as int)) is None
                    &&& final(self)@ == old(self)@
                },
            },
        decreases path@.len() - k,
    {
        let ghost rest = path.deep_view().skip(k as int);
        if k == path.len() {
            proof {
                assert(rest =~= Seq::<Seq<char>>::empty());
            }
            let res = f(self);
            Ok(res)
        } else {
            let name: &String = &path[k];
            proof {
                assert(rest[0] == path.deep_view()[k as int]);
            }
            match self.find_child(name) {
                None => Err(DirError::InvalidChild),
                Some(i) => {
                    proof {
                        lemma_view_kids(self.children@);
                        assert(self@.kids[i as int] == (
                            self.children@[i as int].name@,
                            self.children@[i as int].subdir@,
                        ));
                        crate::model::lemma_kid_idx(self@, i as int, name@);
                        assert(rest.skip(1) =~= path.deep_view().skip(k as int + 1));
                        assert((#[trigger] self@.kids[i as int]).1.wf());
                    }
                    let ghost pre = *self;
                    let sub = &mut self.children[i].subdir;
                    let r = sub.descend_mut(path, k + 1, f);
                    proof {
                        lemma_view_kids(self.children@);
                        assert forall|j: int| 0 <= j < self.children@.len() implies #[trigger] self@.kids[j]
                            == (self.children@[j].name@, self.children@[j].subdir@) by {
                            assert(view_kids(self.children@)[j] == (
                                self.children@[j].name@,
                                self.children@[j].subdir@,
                            ));
                        };
                        assert(self.children@ == pre.children@.update(
                            i as int,
                            DEnt {
                                name: pre.children@[i as int].name,
                                subdir: self.children@[i as int].subdir,
                            },
                        ));
                        lemma_view_kids(pre.children@);
                        assert(pre@ == old(self)@);
                    }
                    match r {
                        Ok(res) => {
                            proof {
                                assert(self@.kids =~= old(self)@.kids.update(
                                    i as int,
                                    (old(self)@.kids[i as int].0, self.children@[i as int].subdir@),
                                ));
                            }
                            Ok(res)
                        },
                        Err(e) => {
                            proof {
                                assert(self@.kids =~= old(self)@.kids);
                                assert(self@ =~= old(self)@);
                            }
                            Err(e)
                        },
                    }
                },
            }
        }
    }

    /// Traverse to the subdirectory given by `path` and then call `f` to
    /// visit that subdirectory with mutable access, returning the
    /// visitor's result.
    ///
    /// Fails with `InvalidChild` when `path` is empty or when some
    /// component does not name an existing child; on failure the tree is
    /// left unchanged.  On success the tree is the old tree with the
    /// visited subtree replaced by whatever the visitor made of it.
    pub fn with_subdir_mut<F, R>(&mut self, path: &[String], f: F) -> (r: Result<
        R,
        DirError,
    >) where
        F: FnOnce(&mut DTree) -> R,

        requires
            old(self)@.wf(),
            forall|m: &mut DTree|
                path@.len() > 0 && old(self)@.resolve(path.deep_view()) == Some((*m)@)
                    ==> call_requires(f, (m,)),
        ensures
            match r {
                Ok(res) => {
                    &&& path@.len() > 0
                    &&& old(self)@.resolve(path.deep_view()) is Some
                    &&& exists|m: &mut DTree|
                        {
                            &&& (*m)@ == old(self)@.resolve(path.deep_view()).unwrap()
                            &&& call_ensures(f, (m,), res)
                            &&& final(self)@ == old(self)@.replace_at(
                                path.deep_view(),
                                (*final(m))@,
                            )
                        }
                },
                Err(e) => {
                    &&& e == DirError::InvalidChild
                    &&& (path@.len() == 0 || old(self)@.resolve(path.deep_view()) is None)
                    &&& final(self)@ == old(self)@
                },
            },
    {
        if path.len() == 0 {
            return Err(DirError::InvalidChild);
        }
        proof {
            assert(path.deep_view().skip(0) =~= path.deep_view());
        }
        self.descend_mut(path, 0, f)
    }

    /// Produce the paths to each reachable leaf, one per leaf, in child
    /// order.  Every component is prefixed by the separator and every path
    /// ends in a trailing separator; a leaf node itself yields the single
    /// path consisting of the separator alone.
    pub fn paths(&self) -> (r: Vec<String>)
        ensures
            r.deep_view() == self@.leaf_paths(),
        decreases *self,
    {
        let mut ret: Vec<String> = Vec::new();
        if self.children.len() == 0 {
            let s: String = "/".to_owned();
            ret.push(s);
            proof {
                reveal_strlit("/");
                assert(("/")@ =~= seq![separator()]);
                assert(ret.deep_view() =~= self@.leaf_paths());
            }
            return ret;
        }
        let ghost kids = self@.kids;
        proof {
            lemma_view_kids(self.children@);
            assert(kids.take(0) =~= Seq::<(Seq<char>, Node)>::empty());
            assert(ret.deep_view() =~= Node::kids_paths(kids.take(0)));
        }
        let mut i: usize = 0;
        while i < self.children.len()
            invariant
                0 <= i <= self.children@.len(),
                kids == self@.kids,
                kids == view_kids(self.children@),
                kids.len() == self.children@.len(),
                forall|j: int|
                    0 <= j < self.children@.len() ==> #[trigger] kids[j] == (
                        self.children@[j].name@,
                        self.children@[j].subdir@,
                    ),
                ret.deep_view() == Node::kids_paths(kids.take(i as int)),
            decreases self.children@.len() - i,
        {
            let sub: Vec<String> = self.children[i].subdir.paths();
            let ghost sub_paths = self.children@[i as int].subdir@.leaf_paths();
            let ghost block = crate::model::prefix_paths(
                self.children@[i as int].name@,
                sub_paths,
            );
            proof {
                assert(block.take(0) =~= Seq::<Seq<char>>::empty());
                assert(ret.deep_view() + block.take(0) =~= ret.deep_view());
            }
            let ghost ret0 = ret.deep_view();
            let mut j: usize = 0;
            while j < sub.len()
                invariant
                    0 <= j <= sub@.len(),
                    0 <= i < self.children@.len(),
                    sub.deep_view() == sub_paths,
                    sub_paths.len() == sub@.len(),
                    block == crate::model::prefix_paths(
                        self.children@[i as int].name@,
                        sub_paths,
                    ),
                    block.len() == sub@.len(),
                    ret.deep_view() == ret0 + block.take(j as int),
                decreases sub@.len() - j,
            {
                let mut s: String = "/".to_owned();
                s.append(self.children[i].name.as_str());
                s.append(sub[j].as_str());
                let ghost before = ret.deep_view();
                ret.push(s);
                proof {
                    assert(ret.deep_view() =~= before.push(s@));
                    reveal_strlit("/");
                    assert(("/")@ =~= seq![separator()]);
                    assert(s@ == seq![separator()] + self.children@[i as int].name@ + sub_paths[
                        j as int
                    ]);
                    assert(block[j as int] == seq![separator()]
                        + self.children@[i as int].name@ + sub_paths[j as int]);
                    assert(block.take(j + 1) =~= block.take(j as int).push(block[j as int]));
                    assert(ret.deep_view() =~= ret0 + block.take(j + 1));
                }
                j += 1;
            }
            proof {
                assert(block.take(sub@.len() as int) =~= block);
                crate::model::lemma_kids_paths_take(kids, i as int);
                assert(kids[i as int] == (
                    self.children@[i as int].name@,
                    self.children@[i as int].subdir@,
                ));
                assert(ret.deep_view() == Node::kids_paths(kids.take(i + 1)));
            }
            i += 1;
        }
        proof {
            assert(kids.take(self.children@.len() as int) =~= kids);
            assert(!self@.is_leaf());
        }
        ret
    }
}

} // verus!
