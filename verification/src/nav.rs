//! The traversal engine: depth-first, pre-order walk of a directory
//! snapshot, extension filtering, event dispatch, and counting.

use vstd::prelude::*;
use crate::appl::{TfAppl, apply_events, lemma_apply_events_concat, step};
use crate::strings::{contains_str, extension_of, join_path};
use crate::tree::{
    DirNode, EventV, count_dirs, count_files, events_of, ext_matches, file_events,
    lemma_count_dirs_concat, lemma_count_files_concat, lemma_file_events_concat,
    lemma_file_events_no_dirs, lemma_file_events_push, lemma_subdir_events_concat,
    lemma_subdir_events_push, subdir_events,
};

verus! {

/// Why a traversal could not run at all.
#[derive(Debug)]
pub enum TraversalError {
    /// The root does not name an existing directory: the traversal aborts
    /// before any event is dispatched.
    InvalidRoot,
}

/// The root handed to `visit`, as a value: `None` when the root path does
/// not name an existing directory.
pub open spec fn opt_node(root: Option<&DirNode>) -> Option<DirNode> {
    match root {
        Some(d) => Some(*d),
        None => None,
    }
}

/// The events one `visit` call dispatches: none for a missing root, and
/// the root's depth-first event stream otherwise.
pub open spec fn visit_events(
    root: Option<DirNode>,
    pats: Seq<Seq<char>>,
    recurse: bool,
) -> Seq<EventV> {
    match root {
        None => Seq::empty(),
        Some(d) => events_of(d, d.name@, pats, recurse),
    }
}

/// Walks a directory snapshot depth-first and pre-order, filters files by
/// extension, dispatches one event per directory entered and one per
/// matching file to the bound visitor, and counts both.
pub struct DirNav {
    pub app: TfAppl,
    pub patterns: Vec<String>,
    pub recurse: bool,
    pub num_dirs: u64,
    pub num_files: u64,
}

impl DirNav {
    pub fn new() -> (r: DirNav)
        ensures
            r.patterns.deep_view() == Seq::<Seq<char>>::empty(),
            r.recurse == true,
            r.num_dirs == 0,
            r.num_files == 0,
            r.app@.re == Seq::<char>::empty(),
            r.app@.last_dir == Seq::<char>::empty(),
            r.app@.curr_dir == Seq::<char>::empty(),
            r.app@.hide == true,
            r.app@.recurse == true,
            r.app@.out == Seq::<crate::appl::LineV>::empty(),
    {
        let r = DirNav {
            app: TfAppl::new(),
            patterns: Vec::new(),
            recurse: true,
            num_dirs: 0,
            num_files: 0,
        };
        proof {
            assert(r.patterns.deep_view() =~= Seq::<Seq<char>>::empty());
        }
        r
    }

    /// Append one extension to the pattern set. Patterns are configured
    /// before the first `visit` call.
    pub fn add_pat(&mut self, p: &str)
        ensures
            final(self).patterns.deep_view() == old(self).patterns.deep_view().push(p@),
            final(self).app == old(self).app,
            final(self).recurse == old(self).recurse,
            final(self).num_dirs == old(self).num_dirs,
            final(self).num_files == old(self).num_files,
    {
        self.patterns.push(p.to_owned());
        proof {
            assert(self.patterns.deep_view() =~= old(self).patterns.deep_view().push(p@));
        }
    }

    /// Choose whether subdirectories are entered.
    pub fn recurse(&mut self, p: bool)
        ensures
            final(self).recurse == p,
            final(self).app == old(self).app,
            final(self).patterns == old(self).patterns,
            final(self).num_dirs == old(self).num_dirs,
            final(self).num_files == old(self).num_files,
    {
        self.recurse = p;
    }

    pub fn get_recurse(&self) -> (r: bool)
        ensures
            r == self.recurse,
    {
        self.recurse
    }

    /// How many file events the last traversal dispatched.
    pub fn get_files(&self) -> (r: u64)
        ensures
            r == self.num_files,
    {
        self.num_files
    }

    /// How many directory events the last traversal dispatched.
    pub fn get_dirs(&self) -> (r: u64)
        ensures
            r == self.num_dirs,
    {
        self.num_dirs
    }

    pub fn get_app(&self) -> (r: &TfAppl)
        ensures
            r == self.app,
    {
        &self.app
    }

    /// Traverse the snapshot. A missing root returns `InvalidRoot` with no
    /// event dispatched and both counters zero. Otherwise every directory
    /// (subject to the recurse flag) is announced exactly once, before its
    /// entries, every file whose extension is in the pattern set is
    /// announced exactly once, and the counters end at the number of
    /// directory and file events.
    pub fn visit(&mut self, root: Option<&DirNode>) -> (r: Result<(), TraversalError>)
        requires
            count_dirs(
                visit_events(opt_node(root), old(self).patterns.deep_view(), old(self).recurse),
            ) <= u64::MAX,
            count_files(
                visit_events(opt_node(root), old(self).patterns.deep_view(), old(self).recurse),
            ) <= u64::MAX,
        ensures
            final(self).patterns == old(self).patterns,
            final(self).recurse == old(self).recurse,
            r is Ok <==> root is Some,
            final(self).app@ == apply_events(
                old(self).app@,
                visit_events(opt_node(root), old(self).patterns.deep_view(), old(self).recurse),
            ),
            final(self).num_dirs == count_dirs(
                visit_events(opt_node(root), old(self).patterns.deep_view(), old(self).recurse),
            ),
            final(self).num_files == count_files(
                visit_events(opt_node(root), old(self).patterns.deep_view(), old(self).recurse),
            ),
    {
        self.num_dirs = 0;
        self.num_files = 0;
        match root {
            None => Err(TraversalError::InvalidRoot),
            Some(d) => {
                let path = d.name.clone();
                self.walk(d, &path);
                Ok(())
            },
        }
    }

    fn walk(&mut self, d: &DirNode, path: &String)
        requires
            old(self).num_dirs + count_dirs(
                events_of(*d, path@, old(self).patterns.deep_view(), old(self).recurse),
            ) <= u64::MAX,
            old(self).num_files + count_files(
                events_of(*d, path@, old(self).patterns.deep_view(), old(self).recurse),
            ) <= u64::MAX,
        ensures
            final(self).patterns == old(self).patterns,
            final(self).recurse == old(self).recurse,
            final(self).app@ == apply_events(
                old(self).app@,
                events_of(*d, path@, old(self).patterns.deep_view(), old(self).recurse),
            ),
            final(self).num_dirs == old(self).num_dirs + count_dirs(
                events_of(*d, path@, old(self).patterns.deep_view(), old(self).recurse),
            ),
            final(self).num_files == old(self).num_files + count_files(
                events_of(*d, path@, old(self).patterns.deep_view(), old(self).recurse),
            ),
        decreases *d,
    {
        let ghost pats0 = old(self).patterns.deep_view();
        let ghost r0 = old(self).recurse;
        let ghost app0 = old(self).app@;
        let ghost nd0 = old(self).num_dirs;
        let ghost nf0 = old(self).num_files;
        let ghost all = events_of(*d, path@, pats0, r0);
        let ghost hd = seq![EventV::Dir(path@)];
        let ghost fevts = file_events(d.files@, pats0);
        let ghost sevts = if r0 {
            subdir_events(d.subdirs@, path@, pats0)
        } else {
            Seq::<EventV>::empty()
        };

        proof {
            assert(all == hd + fevts + sevts);
            lemma_count_dirs_concat(hd + fevts, sevts);
            lemma_count_dirs_concat(hd, fevts);
            lemma_count_files_concat(hd + fevts, sevts);
            lemma_count_files_concat(hd, fevts);
            assert(count_dirs(hd) == 1 && count_files(hd) == 0) by {
                reveal_with_fuel(count_dirs, 2);
                reveal_with_fuel(count_files, 2);
            }
            lemma_file_events_no_dirs(d.files@, pats0);
            assert(apply_events(app0, hd) == step(app0, EventV::Dir(path@))) by {
                reveal_with_fuel(apply_events, 2);
            }
        }

        self.app.do_dir(path.as_str());
        self.num_dirs = self.num_dirs + 1;

        let mut i: usize = 0;
        proof {
            assert(d.files@.take(0) =~= Seq::<crate::tree::FileNode>::empty());
            assert(hd + file_events(d.files@.take(0), pats0) =~= hd);
        }
        while i < d.files.len()
            invariant
                i <= d.files.len(),
                self.patterns == old(self).patterns,
                self.patterns.deep_view() == pats0,
                self.recurse == r0,
                self.app@ == apply_events(app0, hd + file_events(d.files@.take(i as int), pats0)),
                self.num_dirs == nd0 + 1,
                self.num_files == nf0 + count_files(file_events(d.files@.take(i as int), pats0)),
                fevts == file_events(d.files@, pats0),
                nf0 + count_files(fevts) <= u64::MAX,
                nd0 + count_dirs(all) <= u64::MAX,
            decreases d.files.len() - i,
        {
            let node = &d.files[i];
            let ext = extension_of(node.name.as_str());
            let matched = contains_str(&self.patterns, ext.as_str());
            let ghost prefix = hd + file_events(d.files@.take(i as int), pats0);
            proof {
                assert(d.files@.take(i as int + 1) =~= d.files@.take(i as int).push(
                    d.files@[i as int],
                ));
                lemma_file_events_push(d.files@.take(i as int), d.files@[i as int], pats0);
                assert(d.files@ =~= d.files@.take(i as int + 1) + d.files@.skip(i as int + 1));
                lemma_file_events_concat(
                    d.files@.take(i as int + 1),
                    d.files@.skip(i as int + 1),
                    pats0,
                );
                lemma_count_files_concat(
                    file_events(d.files@.take(i as int + 1), pats0),
                    file_events(d.files@.skip(i as int + 1), pats0),
                );
                if ext_matches(d.files@[i as int].name@, pats0) {
                    let e = EventV::File(
                        d.files@[i as int].name@,
                        d.files@[i as int].content.deep_view(),
                    );
                    lemma_count_files_concat(
                        file_events(d.files@.take(i as int), pats0),
                        seq![e],
                    );
                    assert(count_files(seq![e]) == 1) by {
                        reveal_with_fuel(count_files, 2);
                    }
                    lemma_apply_events_concat(app0, prefix, seq![e]);
                    assert(apply_events(apply_events(app0, prefix), seq![e]) == step(
                        apply_events(app0, prefix),
                        e,
                    )) by {
                        reveal_with_fuel(apply_events, 2);
                    }
                    assert(hd + file_events(d.files@.take(i as int + 1), pats0) =~= prefix
                        + seq![e]);
                    assert(file_events(d.files@.take(i as int + 1), pats0) == file_events(
                        d.files@.take(i as int),
                        pats0,
                    ) + seq![e]);
                    assert(count_files(file_events(d.files@.take(i as int + 1), pats0))
                        == count_files(file_events(d.files@.take(i as int), pats0)) + 1);
                    assert(d.files@ == d.files@.take(i as int + 1) + d.files@.skip(i as int + 1));
                    assert(fevts == file_events(
                        d.files@.take(i as int + 1) + d.files@.skip(i as int + 1),
                        pats0,
                    ));
                    assert(fevts == file_events(d.files@.take(i as int + 1), pats0) + file_events(
                        d.files@.skip(i as int + 1),
                        pats0,
                    ));
                    assert(count_files(file_events(d.files@.take(i as int + 1), pats0))
                        <= count_files(fevts));
                } else {
                    assert(hd + file_events(d.files@.take(i as int + 1), pats0) =~= prefix);
                }
            }
            if matched {
                self.app.do_file(node.name.as_str(), &node.content);
                self.num_files = self.num_files + 1;
            }
            i = i + 1;
        }
        proof {
            assert(d.files@.take(d.files@.len() as int) =~= d.files@);
        }

        if self.recurse {
            let mut j: usize = 0;
            proof {
                assert(d.subdirs@.take(0) =~= Seq::<DirNode>::empty());
                assert(subdir_events(d.subdirs@.take(0), path@, pats0) =~= Seq::<EventV>::empty());
                assert(hd + fevts + subdir_events(d.subdirs@.take(0), path@, pats0) =~= hd + fevts);
            }
            while j < d.subdirs.len()
                invariant
                    j <= d.subdirs.len(),
                    r0 == true,
                    self.patterns == old(self).patterns,
                    self.patterns.deep_view() == pats0,
                    self.recurse == r0,
                    self.app@ == apply_events(
                        app0,
                        hd + fevts + subdir_events(d.subdirs@.take(j as int), path@, pats0),
                    ),
                    self.num_dirs == nd0 + 1 + count_dirs(
                        subdir_events(d.subdirs@.take(j as int), path@, pats0),
                    ),
                    self.num_files == nf0 + count_files(fevts) + count_files(
                        subdir_events(d.subdirs@.take(j as int), path@, pats0),
                    ),
                    sevts == subdir_events(d.subdirs@, path@, pats0),
                    nd0 + count_dirs(all) <= u64::MAX,
                    nf0 + count_files(all) <= u64::MAX,
                    count_dirs(all) == 1 + count_dirs(sevts),
                    count_files(all) == count_files(fevts) + count_files(sevts),
                decreases d.subdirs.len() - j,
            {
                let sub = &d.subdirs[j];
                let sub_path = join_path(path.as_str(), sub.name.as_str());
                let ghost prefix = hd + fevts + subdir_events(
                    d.subdirs@.take(j as int),
                    path@,
                    pats0,
                );
                let ghost sub_evts = events_of(
                    *sub,
                    path@ + seq!['/'] + sub.name@,
                    pats0,
                    true,
                );
                proof {
                    assert(d.subdirs@.take(j as int + 1) =~= d.subdirs@.take(j as int).push(
                        d.subdirs@[j as int],
                    ));
                    lemma_subdir_events_push(
                        d.subdirs@.take(j as int),
                        d.subdirs@[j as int],
                        path@,
                        pats0,
                    );
                    assert(d.subdirs@ =~= d.subdirs@.take(j as int + 1) + d.subdirs@.skip(
                        j as int + 1,
                    ));
                    lemma_subdir_events_concat(
                        d.subdirs@.take(j as int + 1),
                        d.subdirs@.skip(j as int + 1),
                        path@,
                        pats0,
                    );
                    lemma_count_dirs_concat(
                        subdir_events(d.subdirs@.take(j as int + 1), path@, pats0),
                        subdir_events(d.subdirs@.skip(j as int + 1), path@, pats0),
                    );
                    lemma_count_files_concat(
                        subdir_events(d.subdirs@.take(j as int + 1), path@, pats0),
                        subdir_events(d.subdirs@.skip(j as int + 1), path@, pats0),
                    );
                    lemma_count_dirs_concat(
                        subdir_events(d.subdirs@.take(j as int), path@, pats0),
                        sub_evts,
                    );
                    lemma_count_files_concat(
                        subdir_events(d.subdirs@.take(j as int), path@, pats0),
                        sub_evts,
                    );
                }
                self.walk(sub, &sub_path);
                proof {
                    lemma_apply_events_concat(app0, prefix, sub_evts);
                    assert(hd + fevts + subdir_events(d.subdirs@.take(j as int + 1), path@, pats0)
                        =~= prefix + sub_evts);
                }
                j = j + 1;
            }
            proof {
                assert(d.subdirs@.take(d.subdirs@.len() as int) =~= d.subdirs@);
                assert(hd + fevts + sevts =~= all);
            }
        } else {
            proof {
                assert(sevts =~= Seq::<EventV>::empty());
                assert(count_dirs(sevts) == 0 && count_files(sevts) == 0);
                assert(hd + fevts =~= all);
            }
        }
    }
}

} // verus!
