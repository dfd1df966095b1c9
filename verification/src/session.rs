//! The operating-system stub: a directory tree together with a current
//! working directory, and the tree operations applied relative to it.

use crate::error::DirError;
use crate::model::Node;
use crate::tree::DTree;
use vstd::prelude::*;

verus! {

/// Operating system state: the directory tree and the current working
/// directory, stored as the sequence of component names leading from the
/// root to the directory that the session operations target.
#[derive(Debug)]
pub struct OsState {
    pub dtree: DTree,
    pub cwd: Vec<String>,
}

impl Default for OsState {
    /// A new session: an empty tree whose working directory is the root.
    fn default() -> (s: Self)
        ensures
            s.wf(),
            s.dtree@ == Node::empty(),
            s.cwd.deep_view() == Seq::<Seq<char>>::empty(),
    {
        OsState::new()
    }
}

impl Clone for OsState {
    /// A copy of the session: a tree of the same model, and the same
    /// working directory.
    fn clone(&self) -> (r: Self)
        ensures
            r.dtree@ == self.dtree@,
            r.cwd@ == self.cwd@,
    {
        let mut cwd: Vec<String> = Vec::new();
        let mut i: usize = 0;
        while i < self.cwd.len()
            invariant
                0 <= i <= self.cwd@.len(),
                cwd@ == self.cwd@.take(i as int),
            decreases self.cwd@.len() - i,
        {
            cwd.push(self.cwd[i].clone());
            proof {
                assert(cwd@ =~= self.cwd@.take(i as int + 1));
            }
            i += 1;
        }
        proof {
            assert(self.cwd@.take(self.cwd@.len() as int) =~= self.cwd@);
        }
        OsState { dtree: self.dtree.clone(), cwd }
    }
}

impl OsState {
    /// Well-formedness: the tree is well-formed and the working directory
    /// denotes an existing node of it.
    pub open spec fn wf(self) -> bool {
        &&& self.dtree@.wf()
        &&& self.dtree@.resolve(self.cwd.deep_view()) is Some
    }

    /// The model of the node that the working directory denotes.
    pub open spec fn cwd_node(self) -> Node {
        self.dtree@.resolve(self.cwd.deep_view()).unwrap()
    }

    /// Create a new session: an empty tree whose working directory is the
    /// root.
    pub fn new() -> (s: Self)
        ensures
            s.wf(),
            s.dtree@ == Node::empty(),
            s.cwd.deep_view() == Seq::<Seq<char>>::empty(),
    {
        let s = OsState { dtree: DTree::new(), cwd: Vec::new() };
        proof {
            assert(s.cwd.deep_view() =~= Seq::<Seq<char>>::empty());
        }
        s
    }

    /// If `path` is empty, change the working directory to the root.
    /// Otherwise resolve `path` relative to the current working directory
    /// and, when every component resolves, append it to the working
    /// directory; when some component does not resolve, fail with
    /// `InvalidChild` and leave the working directory exactly as it was.
    /// The tree itself is never touched.
    pub fn chdir(&mut self, path: &[String]) -> (r: Result<(), DirError>)
        requires
            old(self).wf(),
        ensures
            final(self).wf(),
            final(self).dtree == old(self).dtree,
            match r {
                Ok(()) => {
                    if path@.len() == 0 {
                        final(self).cwd.deep_view() == Seq::<Seq<char>>::empty()
                    } else {
                        &&& old(self).cwd_node().resolve(path.deep_view()) is Some
                        &&& final(self).cwd.deep_view() == old(self).cwd.deep_view()
                            + path.deep_view()
                        &&& final(self).cwd_node() == old(self).cwd_node().resolve(
                            path.deep_view(),
                        ).unwrap()
                    }
                },
                Err(e) => {
                    &&& e == DirError::InvalidChild
                    &&& path@.len() > 0
                    &&& old(self).cwd_node().resolve(path.deep_view()) is None
                    &&& *final(self) == *old(self)
                },
            },
    {
        if path.len() == 0 {
            self.cwd = Vec::new();
            proof {
                assert(self.cwd.deep_view() =~= Seq::<Seq<char>>::empty());
            }
            return Ok(());
        }
        let found: bool = match self.dtree.resolve_from(self.cwd.as_slice()) {
            Some(t) => t.resolve_from(path).is_some(),
            None => {
                proof {
                    assert(false);
                }
                false
            },
        };
        proof {
            crate::model::lemma_resolve_append(
                self.dtree@,
                self.cwd.deep_view(),
                path.deep_view(),
            );
        }
        if !found {
            return Err(DirError::InvalidChild);
        }
        let ghost pre_cwd = self.cwd.deep_view();
        let mut k: usize = 0;
        while k < path.len()
            invariant
                0 <= k <= path@.len(),
                self.dtree == old(self).dtree,
                self.cwd.deep_view() == pre_cwd + path.deep_view().take(k as int),
            decreases path@.len() - k,
        {
            let component: String = path[k].clone();
            let ghost before = self.cwd.deep_view();
            self.cwd.push(component);
            proof {
                assert(self.cwd.deep_view() =~= before.push(path.deep_view()[k as int]));
                assert(self.cwd.deep_view() =~= pre_cwd + path.deep_view().take(k as int + 1));
            }
            k += 1;
        }
        proof {
            assert(path.deep_view().take(path@.len() as int) =~= path.deep_view());
        }
        Ok(())
    }

    /// Make a new subdirectory with the given `name` in the working
    /// directory, under the same rules as `DTree::mkdir`: fails with
    /// `SlashInName` when `name` contains the separator and with
    /// `DirExists` when the working directory already has a child of that
    /// name; on failure nothing changes.  On success the tree is the old
    /// tree with the working directory's node extended by one empty child;
    /// no other node and not the working directory itself is affected.
    pub fn mkdir(&mut self, name: &str) -> (r: Result<(), DirError>)
        requires
            old(self).wf(),
        ensures
            final(self).wf(),
            final(self).cwd == old(self).cwd,
            match r {
                Ok(()) => {
                    &&& crate::model::valid_name(name@)
                    &&& !old(self).cwd_node().has_kid(name@)
                    &&& final(self).dtree@ == old(self).dtree@.replace_at(
                        old(self).cwd.deep_view(),
                        old(self).cwd_node().with_child(name@),
                    )
                    &&& final(self).cwd_node() == old(self).cwd_node().with_child(name@)
                },
                Err(DirError::SlashInName) => {
                    &&& !crate::model::valid_name(name@)
                    &&& final(self).dtree@ == old(self).dtree@
                },
                Err(DirError::DirExists) => {
                    &&& crate::model::valid_name(name@)
                    &&& old(self).cwd_node().has_kid(name@)
                    &&& final(self).dtree@ == old(self).dtree@
                },
                Err(DirError::InvalidChild) => false,
            },
    {
        if self.cwd.len() == 0 {
            proof {
                assert(self.cwd.deep_view() =~= Seq::<Seq<char>>::empty());
            }
            let r = self.dtree.mkdir(name);
            r
        } else {
            let s: &[String] = self.cwd.as_slice();
            let ghost nm = s.deep_view();
            let ghost target = old(self).cwd_node();
            proof {
                assert(nm =~= self.cwd.deep_view());
                crate::model::lemma_resolve_wf(self.dtree@, nm);
            }
            let g = |t: &mut DTree| -> (res: Result<(), DirError>)
                requires
                    (*old(t))@.wf(),
                ensures
                    (*final(t))@.wf(),
                    match res {
                        Ok(()) => {
                            &&& crate::model::valid_name(name@)
                            &&& !(*old(t))@.has_kid(name@)
                            &&& (*final(t))@ == (*old(t))@.with_child(name@)
                        },
                        Err(DirError::SlashInName) => {
                            &&& !crate::model::valid_name(name@)
                            &&& (*final(t))@ == (*old(t))@
                        },
                        Err(DirError::DirExists) => {
                            &&& crate::model::valid_name(name@)
                            &&& (*old(t))@.has_kid(name@)
                            &&& (*final(t))@ == (*old(t))@
                        },
                        Err(DirError::InvalidChild) => false,
                    },
                { t.mkdir(name) };
            let out = self.dtree.with_subdir_mut(s, g);
            match out {
                Ok(inner) => {
                    proof {
                        let m = choose|m: &mut DTree|
                            {
                                &&& (*m)@ == old(self).dtree@.resolve(nm).unwrap()
                                &&& call_ensures(g, (m,), inner)
                                &&& self.dtree@ == old(self).dtree@.replace_at(
                                    nm,
                                    (*final(m))@,
                                )
                            };
                        assert((*m)@ == target);
                        match inner {
                            Ok(()) => {
                                crate::model::lemma_replace_at_wf(
                                    old(self).dtree@,
                                    nm,
                                    (*final(m))@,
                                );
                                crate::model::lemma_replace_at_resolve(
                                    old(self).dtree@,
                                    nm,
                                    (*final(m))@,
                                );
                            },
                            Err(_) => {
                                assert((*final(m))@ == target);
                                crate::model::lemma_replace_at_same(old(self).dtree@, nm);
                            },
                        }
                    }
                    inner
                },
                Err(_) => {
                    proof {
                        assert(false);
                    }
                    Err(DirError::InvalidChild)
                },
            }
        }
    }

    /// Produce the paths from the working directory to each reachable
    /// leaf, with the same meaning as `DTree::paths` applied to the node
    /// that the working directory denotes.  On a well-formed session this
    /// never fails.
    pub fn paths(&self) -> (r: Result<Vec<String>, DirError>)
        requires
            self.wf(),
        ensures
            r matches Ok(v) && v.deep_view() == self.cwd_node().leaf_paths(),
    {
        if self.cwd.len() == 0 {
            proof {
                assert(self.cwd.deep_view() =~= Seq::<Seq<char>>::empty());
            }
            return Ok(self.dtree.paths());
        }
        let s: &[String] = self.cwd.as_slice();
        proof {
            assert(s.deep_view() =~= self.cwd.deep_view());
        }
        let g = |t: &DTree| -> (v: Vec<String>)
            ensures
                v.deep_view() == t@.leaf_paths(),
            { t.paths() };
        match self.dtree.with_subdir(s, g) {
            Ok(v) => Ok(v),
            Err(_) => {
                proof {
                    assert(false);
                }
                Err(DirError::InvalidChild)
            },
        }
    }
}

} // verus!
