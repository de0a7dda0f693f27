//! The operations layer over the managed file tree.
//!
//! Every operation takes a [`ResolvedPath`] — never a raw request string —
//! and performs exactly one effect, returning a typed result.  The tree is
//! held as an explicit value: the set of directories below the root and a
//! map from file paths to their contents.  The root itself always exists
//! and is always a directory.

use vstd::prelude::*;
use crate::paths::{path_wf, is_normal_seg, sep_free, strings_equal, is_contained_in, ResolvedPath};

verus! {

/// What a path denotes: nothing, a regular file, a directory, or something
/// else (a special file the store does not model).  "Nothing" is a valid
/// outcome of a stat, not an error.
#[derive(Clone, Copy, PartialEq, Eq, Structural, Debug)]
pub enum EntryKind {
    Missing,
    File,
    Directory,
    Other,
}

/// One directory entry: a child name and its definite classification.
pub struct EntryDescriptor {
    pub name: String,
    pub kind: EntryKind,
}

/// A typed failure of a store operation.
#[derive(Clone, Copy, PartialEq, Eq, Structural, Debug)]
pub enum IoError {
    NotFound,
    NotADirectory,
    NotAFile,
    CrossVolume,
    PermissionDenied,
    Other,
}

/// The file tree below the root: directory paths and file contents, each
/// keyed by the list of path segments below the root.
pub struct FileStore {
    dirs: Vec<Vec<String>>,
    files: Vec<(Vec<String>, Vec<u8>)>,
}

impl FileStore {
    /// Does `q` denote a directory?  The root (the empty segment list)
    /// always does.
    pub closed spec fn is_dir(&self, q: Seq<Seq<char>>) -> bool {
        q.len() == 0 || exists|i: int|
            0 <= i < self.dirs@.len() && #[trigger] self.dirs@[i].deep_view() == q
    }

    /// Does `q` denote a regular file?
    pub closed spec fn is_file(&self, q: Seq<Seq<char>>) -> bool {
        exists|i: int| 0 <= i < self.files@.len() && #[trigger] self.files@[i].0.deep_view() == q
    }

    /// The contents of the file at `q` (meaningful when `is_file(q)`).
    pub closed spec fn file_bytes(&self, q: Seq<Seq<char>>) -> Seq<u8> {
        let i = choose|i: int|
            0 <= i < self.files@.len() && #[trigger] self.files@[i].0.deep_view() == q;
        self.files@[i].1@
    }

    /// Does `q` denote anything at all?
    pub open spec fn occupied(&self, q: Seq<Seq<char>>) -> bool {
        self.is_dir(q) || self.is_file(q)
    }

    /// The definite classification of `q`.
    pub open spec fn entry_kind(&self, q: Seq<Seq<char>>) -> EntryKind {
        if self.is_dir(q) {
            EntryKind::Directory
        } else if self.is_file(q) {
            EntryKind::File
        } else {
            EntryKind::Missing
        }
    }

    /// The store denotes the same tree as `other`.
    pub open spec fn unchanged_from(&self, other: &Self) -> bool {
        &&& forall|q: Seq<Seq<char>>| #[trigger] self.is_dir(q) == other.is_dir(q)
        &&& forall|q: Seq<Seq<char>>| #[trigger] self.is_file(q) == other.is_file(q)
        &&& forall|q: Seq<Seq<char>>|
            other.is_file(q) ==> #[trigger] self.file_bytes(q) == other.file_bytes(q)
    }

    /// Validity: every recorded path is a non-root well-formed segment list,
    /// no path is recorded twice, and no path is both a file and a directory.
    pub closed spec fn wf(&self) -> bool {
        &&& forall|i: int|
            0 <= i < self.dirs@.len() ==> path_wf(#[trigger] self.dirs@[i].deep_view())
                && self.dirs@[i].deep_view().len() > 0
        &&& forall|i: int, j: int|
            0 <= i < j < self.dirs@.len() ==> #[trigger] self.dirs@[i].deep_view()
                != #[trigger] self.dirs@[j].deep_view()
        &&& forall|i: int|
            0 <= i < self.files@.len() ==> path_wf(#[trigger] self.files@[i].0.deep_view())
                && self.files@[i].0.deep_view().len() > 0
        &&& forall|i: int, j: int|
            0 <= i < j < self.files@.len() ==> #[trigger] self.files@[i].0.deep_view()
                != #[trigger] self.files@[j].0.deep_view()
        &&& forall|i: int, j: int|
            0 <= i < self.files@.len() && 0 <= j < self.dirs@.len()
                ==> #[trigger] self.files@[i].0.deep_view() != #[trigger] self.dirs@[j].deep_view()
    }

    /// An empty tree: just the root directory, no files.
    pub fn new() -> (s: Self)
        ensures
            s.wf(),
            forall|q: Seq<Seq<char>>| #[trigger] s.is_dir(q) == (q.len() == 0),
            forall|q: Seq<Seq<char>>| !(#[trigger] s.is_file(q)),
    {
        FileStore { dirs: Vec::new(), files: Vec::new() }
    }

    /// The index of `q` among the recorded directories, if any.
    fn find_dir(&self, q: &Vec<String>) -> (r: Option<usize>)
        ensures
            match r {
                Some(i) => i < self.dirs@.len() && self.dirs@[i as int].deep_view()
                    == q.deep_view(),
                None => forall|i: int|
                    0 <= i < self.dirs@.len() ==> #[trigger] self.dirs@[i].deep_view()
                        != q.deep_view(),
            },
    {
        let mut i: usize = 0;
        while i < self.dirs.len()
            invariant
                i <= self.dirs@.len(),
                forall|j: int|
                    0 <= j < i ==> #[trigger] self.dirs@[j].deep_view() != q.deep_view(),
            decreases self.dirs@.len() - i,
        {
            if seg_lists_equal(&self.dirs[i], q) {
                return Some(i);
            }
            i = i + 1;
        }
        None
    }

    /// The index of `q` among the recorded files, if any.
    fn find_file(&self, q: &Vec<String>) -> (r: Option<usize>)
        ensures
            match r {
                Some(i) => i < self.files@.len() && self.files@[i as int].0.deep_view()
                    == q.deep_view(),
                None => forall|i: int|
                    0 <= i < self.files@.len() ==> #[trigger] self.files@[i].0.deep_view()
                        != q.deep_view(),
            },
    {
        let mut i: usize = 0;
        while i < self.files.len()
            invariant
                i <= self.files@.len(),
                forall|j: int|
                    0 <= j < i ==> #[trigger] self.files@[j].0.deep_view() != q.deep_view(),
            decreases self.files@.len() - i,
        {
            if seg_lists_equal(&self.files[i].0, q) {
                return Some(i);
            }
            i = i + 1;
        }
        None
    }

    /// All five validity conjuncts, stated separately to help the prover
    /// reassemble `wf` after a mutation.
    proof fn lemma_wf_parts(&self)
        requires
            forall|i: int|
                0 <= i < self.dirs@.len() ==> path_wf(#[trigger] self.dirs@[i].deep_view())
                    && self.dirs@[i].deep_view().len() > 0,
            forall|i: int, j: int|
                0 <= i < j < self.dirs@.len() ==> #[trigger] self.dirs@[i].deep_view()
                    != #[trigger] self.dirs@[j].deep_view(),
            forall|i: int|
                0 <= i < self.files@.len() ==> path_wf(#[trigger] self.files@[i].0.deep_view())
                    && self.files@[i].0.deep_view().len() > 0,
            forall|i: int, j: int|
                0 <= i < j < self.files@.len() ==> #[trigger] self.files@[i].0.deep_view()
                    != #[trigger] self.files@[j].0.deep_view(),
            forall|i: int, j: int|
                0 <= i < self.files@.len() && 0 <= j < self.dirs@.len()
                    ==> #[trigger] self.files@[i].0.deep_view() != #[trigger] self.dirs@[
                    j
                ].deep_view(),
        ensures
            self.wf(),
    {
    }

    /// A recorded file index determines the file's contents.
    proof fn lemma_file_bytes_at(&self, i: int)
        requires
            self.wf(),
            0 <= i < self.files@.len(),
        ensures
            self.is_file(self.files@[i].0.deep_view()),
            self.file_bytes(self.files@[i].0.deep_view()) == self.files@[i].1@,
    {
        let q = self.files@[i].0.deep_view();
        assert(self.is_file(q));
        let j = choose|j: int|
            0 <= j < self.files@.len() && #[trigger] self.files@[j].0.deep_view() == q;
        if i != j {
            assert(false);
        }
    }

    /// The root itself always exists and is a directory, whatever else the
    /// store holds.
    pub proof fn lemma_root_is_dir(&self)
        ensures
            self.is_dir(Seq::<Seq<char>>::empty()),
    {
    }

    /// No path is both a directory and a file in a valid store.
    pub proof fn lemma_kinds_exclusive(&self, q: Seq<Seq<char>>)
        requires
            self.wf(),
        ensures
            !(self.is_dir(q) && self.is_file(q)),
    {
        if self.is_dir(q) && self.is_file(q) {
            let i = choose|i: int|
                0 <= i < self.files@.len() && #[trigger] self.files@[i].0.deep_view() == q;
            assert(self.files@[i].0.deep_view().len() > 0);
            assert(q.len() > 0);
            let j = choose|j: int|
                0 <= j < self.dirs@.len() && #[trigger] self.dirs@[j].deep_view() == q;
            assert(false);
        }
    }

    /// Stores with the same file records agree on files.
    proof fn lemma_same_files(a: FileStore, b: FileStore)
        requires
            a.wf(),
            b.wf(),
            a.files@ == b.files@,
        ensures
            forall|q: Seq<Seq<char>>| #[trigger] a.is_file(q) == b.is_file(q),
            forall|q: Seq<Seq<char>>|
                b.is_file(q) ==> #[trigger] a.file_bytes(q) == b.file_bytes(q),
    {
        assert forall|q: Seq<Seq<char>>| #[trigger] a.is_file(q) == b.is_file(q) by {
            if a.is_file(q) {
                let k = choose|k: int|
                    0 <= k < a.files@.len() && #[trigger] a.files@[k].0.deep_view() == q;
                assert(b.files@[k].0.deep_view() == q);
            }
            if b.is_file(q) {
                let k = choose|k: int|
                    0 <= k < b.files@.len() && #[trigger] b.files@[k].0.deep_view() == q;
                assert(a.files@[k].0.deep_view() == q);
            }
        }
        assert forall|q: Seq<Seq<char>>|
            b.is_file(q) implies #[trigger] a.file_bytes(q) == b.file_bytes(q) by {
            let kb = choose|k: int|
                0 <= k < b.files@.len() && #[trigger] b.files@[k].0.deep_view() == q;
            b.lemma_file_bytes_at(kb);
            assert(a.files@[kb].0.deep_view() == q);
            a.lemma_file_bytes_at(kb);
        }
    }

    /// Stores with the same directory records agree on directories.
    proof fn lemma_same_dirs(a: FileStore, b: FileStore)
        requires
            a.dirs@ == b.dirs@,
        ensures
            forall|q: Seq<Seq<char>>| #[trigger] a.is_dir(q) == b.is_dir(q),
    {
        assert forall|q: Seq<Seq<char>>| #[trigger] a.is_dir(q) == b.is_dir(q) by {
            if a.is_dir(q) && q.len() > 0 {
                let k = choose|k: int|
                    0 <= k < a.dirs@.len() && #[trigger] a.dirs@[k].deep_view() == q;
                assert(b.dirs@[k].deep_view() == q);
            }
            if b.is_dir(q) && q.len() > 0 {
                let k = choose|k: int|
                    0 <= k < b.dirs@.len() && #[trigger] b.dirs@[k].deep_view() == q;
                assert(a.dirs@[k].deep_view() == q);
            }
        }
    }

    /// Classify what `p` denotes: none, file, or directory.
    pub fn stat(&self, p: &ResolvedPath) -> (k: EntryKind)
        requires
            self.wf(),
        ensures
            k == self.entry_kind(p@),
    {
        let segs = p.segments();
        if segs.len() == 0 {
            EntryKind::Directory
        } else if self.find_dir(segs).is_some() {
            EntryKind::Directory
        } else if self.find_file(segs).is_some() {
            proof {
                assert(!self.is_dir(p@));
            }
            EntryKind::File
        } else {
            proof {
                assert(!self.is_dir(p@) && !self.is_file(p@));
            }
            EntryKind::Missing
        }
    }

    /// Whole-file read.  Requires the path to denote a file; a directory is
    /// `NotAFile` and nothing at all is `NotFound`.
    pub fn read(&self, p: &ResolvedPath) -> (r: Result<Vec<u8>, IoError>)
        requires
            self.wf(),
        ensures
            match r {
                Ok(b) => self.is_file(p@) && b@ == self.file_bytes(p@),
                Err(e) => (e == IoError::NotAFile && self.is_dir(p@)) || (e == IoError::NotFound
                    && !self.occupied(p@)),
            },
    {
        let segs = p.segments();
        if segs.len() == 0 {
            return Err(IoError::NotAFile);
        }
        if self.find_dir(segs).is_some() {
            return Err(IoError::NotAFile);
        }
        match self.find_file(segs) {
            Some(i) => {
                proof {
                    self.lemma_file_bytes_at(i as int);
                }
                Ok(clone_bytes(&self.files[i].1))
            },
            None => {
                proof {
                    assert(!self.is_dir(p@) && !self.is_file(p@));
                }
                Err(IoError::NotFound)
            },
        }
    }

    /// Create or truncate the file at `p` with the given contents.  The
    /// parent directory must already exist (`NotFound` otherwise — no
    /// implicit directory creation), and `p` must not denote a directory.
    #[verifier::rlimit(100)]
    pub fn write(&mut self, p: &ResolvedPath, contents: &Vec<u8>) -> (r: Result<(), IoError>)
        requires
            old(self).wf(),
            p.wf(),
        ensures
            final(self).wf(),
            r is Ok ==> p@.len() > 0 && !old(self).is_dir(p@) && old(self).is_dir(p@.drop_last()),
            r is Ok ==> forall|q: Seq<Seq<char>>|
                #[trigger] final(self).is_dir(q) == old(self).is_dir(q),
            r is Ok ==> forall|q: Seq<Seq<char>>|
                #[trigger] final(self).is_file(q) == (old(self).is_file(q) || q == p@),
            r is Ok ==> final(self).file_bytes(p@) == contents@,
            r is Ok ==> forall|q: Seq<Seq<char>>|
                old(self).is_file(q) && q != p@ ==> #[trigger] final(self).file_bytes(q) == old(
                    self,
                ).file_bytes(q),
            r is Err ==> final(self).unchanged_from(old(self)),
            match r {
                Ok(()) => true,
                Err(e) => (e == IoError::NotAFile && (p@.len() == 0 || old(self).is_dir(p@))) || (
                e == IoError::NotFound && p@.len() > 0 && !old(self).is_dir(p@) && !old(
                    self,
                ).is_dir(p@.drop_last())),
            },
    {
        let segs = p.segments();
        if segs.len() == 0 {
            return Err(IoError::NotAFile);
        }
        if self.find_dir(segs).is_some() {
            return Err(IoError::NotAFile);
        }
        let par = parent_of(segs);
        if par.len() > 0 && self.find_dir(&par).is_none() {
            proof {
                assert(!self.is_dir(p@.drop_last()));
            }
            return Err(IoError::NotFound);
        }
        proof {
            assert(self.is_dir(p@.drop_last()));
        }
        let pair = (clone_segs(segs), clone_bytes(contents));
        match self.find_file(segs) {
            Some(i) => {
                self.files[i] = pair;
                proof {
                    let q0 = p@;
                    assert(self.files@[i as int].0.deep_view() == q0);
                    assert(old(self).files@[i as int].0.deep_view() == q0);
                    assert(forall|k: int|
                        0 <= k < self.files@.len() && k != i ==> #[trigger] self.files@[k] == old(
                            self,
                        ).files@[k]);
                    assert(forall|k: int|
                        0 <= k < self.files@.len() ==> #[trigger] self.files@[k].0.deep_view()
                            == old(self).files@[k].0.deep_view());
                    assert(self.dirs@ == old(self).dirs@);
                    assert forall|q: Seq<Seq<char>>|
                        #[trigger] self.is_dir(q) == old(self).is_dir(q) by {
                        if q.len() > 0 {
                            if self.is_dir(q) {
                                let k = choose|k: int|
                                    0 <= k < self.dirs@.len() && #[trigger] self.dirs@[
                                        k
                                    ].deep_view() == q;
                                assert(old(self).dirs@[k].deep_view() == q);
                            }
                            if old(self).is_dir(q) {
                                let k = choose|k: int|
                                    0 <= k < old(self).dirs@.len() && #[trigger] old(
                                        self,
                                    ).dirs@[k].deep_view() == q;
                                assert(self.dirs@[k].deep_view() == q);
                            }
                        }
                    }
                    assert forall|q: Seq<Seq<char>>|
                        #[trigger] self.is_file(q) == (old(self).is_file(q) || q == q0) by {
                        if self.is_file(q) {
                            let k = choose|k: int|
                                0 <= k < self.files@.len() && #[trigger] self.files@[
                                    k
                                ].0.deep_view() == q;
                            if k != i {
                                assert(old(self).files@[k].0.deep_view() == q);
                            }
                        }
                        if old(self).is_file(q) {
                            let k = choose|k: int|
                                0 <= k < old(self).files@.len() && #[trigger] old(
                                    self,
                                ).files@[k].0.deep_view() == q;
                            if k != i {
                                assert(self.files@[k].0.deep_view() == q);
                            } else {
                                assert(self.files@[i as int].0.deep_view() == q0);
                            }
                        }
                    }
                    self.lemma_wf_parts();
                    self.lemma_file_bytes_at(i as int);
                    assert forall|q: Seq<Seq<char>>|
                        old(self).is_file(q) && q != q0 implies #[trigger] self.file_bytes(q)
                        == old(self).file_bytes(q) by {
                        let k = choose|k: int|
                            0 <= k < old(self).files@.len() && #[trigger] old(self).files@[
                                k
                            ].0.deep_view() == q;
                        assert(self.files@[k].0.deep_view() == q);
                        self.lemma_file_bytes_at(k);
                        old(self).lemma_file_bytes_at(k);
                    }
                }
                Ok(())
            },
            None => {
                let ghost n = self.files@.len();
                self.files.push(pair);
                proof {
                    let q0 = p@;
                    assert(self.files@[n as int].0.deep_view() == q0);
                    assert(forall|k: int|
                        0 <= k < n ==> #[trigger] self.files@[k] == old(self).files@[k]);
                    assert(forall|k: int|
                        0 <= k < n ==> #[trigger] old(self).files@[k].0.deep_view() != q0);
                    assert(q0.len() > 0 && path_wf(q0));
                    assert(self.dirs@ == old(self).dirs@);
                    assert forall|q: Seq<Seq<char>>|
                        #[trigger] self.is_dir(q) == old(self).is_dir(q) by {
                        if q.len() > 0 {
                            if self.is_dir(q) {
                                let k = choose|k: int|
                                    0 <= k < self.dirs@.len() && #[trigger] self.dirs@[
                                        k
                                    ].deep_view() == q;
                                assert(old(self).dirs@[k].deep_view() == q);
                            }
                            if old(self).is_dir(q) {
                                let k = choose|k: int|
                                    0 <= k < old(self).dirs@.len() && #[trigger] old(
                                        self,
                                    ).dirs@[k].deep_view() == q;
                                assert(self.dirs@[k].deep_view() == q);
                            }
                        }
                    }
                    assert(self.files@[n as int].0.deep_view() == q0);
                    assert forall|q: Seq<Seq<char>>|
                        #[trigger] self.is_file(q) == (old(self).is_file(q) || q == q0) by {
                        if self.is_file(q) {
                            let k = choose|k: int|
                                0 <= k < self.files@.len() && #[trigger] self.files@[
                                    k
                                ].0.deep_view() == q;
                            if k < n {
                                assert(old(self).files@[k].0.deep_view() == q);
                            }
                        }
                        if old(self).is_file(q) {
                            let k = choose|k: int|
                                0 <= k < old(self).files@.len() && #[trigger] old(
                                    self,
                                ).files@[k].0.deep_view() == q;
                            assert(self.files@[k].0.deep_view() == q);
                        }
                    }
                    assert forall|a: int|
                        0 <= a < self.files@.len() implies path_wf(
                        #[trigger] self.files@[a].0.deep_view(),
                    ) && self.files@[a].0.deep_view().len() > 0 by {
                        if a < n {
                            assert(self.files@[a].0.deep_view() == old(self).files@[
                                a
                            ].0.deep_view());
                        } else {
                            assert(self.files@[a].0.deep_view() == q0);
                        }
                    }
                    assert forall|a: int, b: int|
                        0 <= a < b < self.files@.len() implies #[trigger] self.files@[
                        a
                    ].0.deep_view() != #[trigger] self.files@[b].0.deep_view() by {
                        assert(self.files@[a].0.deep_view() == old(self).files@[a].0.deep_view());
                        if b < n {
                            assert(self.files@[b].0.deep_view() == old(self).files@[
                                b
                            ].0.deep_view());
                        } else {
                            assert(self.files@[b].0.deep_view() == q0);
                        }
                    }
                    assert forall|a: int, b: int|
                        0 <= a < self.files@.len() && 0 <= b < self.dirs@.len()
                        implies #[trigger] self.files@[a].0.deep_view() != #[trigger] self.dirs@[
                        b
                    ].deep_view() by {
                        assert(self.dirs@[b].deep_view() == old(self).dirs@[b].deep_view());
                        if a < n {
                            assert(self.files@[a].0.deep_view() == old(self).files@[
                                a
                            ].0.deep_view());
                        } else {
                            assert(self.files@[a].0.deep_view() == q0);
                            assert(old(self).dirs@[b].deep_view() != q0);
                        }
                    }
                    self.lemma_wf_parts();
                    self.lemma_file_bytes_at(n as int);
                    assert forall|q: Seq<Seq<char>>|
                        old(self).is_file(q) && q != q0 implies #[trigger] self.file_bytes(q)
                        == old(self).file_bytes(q) by {
                        let k = choose|k: int|
                            0 <= k < old(self).files@.len() && #[trigger] old(self).files@[
                                k
                            ].0.deep_view() == q;
                        assert(self.files@[k].0.deep_view() == q);
                        self.lemma_file_bytes_at(k);
                        old(self).lemma_file_bytes_at(k);
                    }
                }
                Ok(())
            },
        }
    }

    /// Remove the file at `p`.  A directory is `NotAFile`; nothing at all
    /// is `NotFound`.
    #[verifier::rlimit(100)]
    pub fn delete_file(&mut self, p: &ResolvedPath) -> (r: Result<(), IoError>)
        requires
            old(self).wf(),
        ensures
            final(self).wf(),
            r is Ok ==> old(self).is_file(p@),
            r is Ok ==> forall|q: Seq<Seq<char>>|
                #[trigger] final(self).is_dir(q) == old(self).is_dir(q),
            r is Ok ==> forall|q: Seq<Seq<char>>|
                #[trigger] final(self).is_file(q) == (old(self).is_file(q) && q != p@),
            r is Ok ==> forall|q: Seq<Seq<char>>|
                old(self).is_file(q) && q != p@ ==> #[trigger] final(self).file_bytes(q) == old(
                    self,
                ).file_bytes(q),
            r is Err ==> final(self).unchanged_from(old(self)),
            match r {
                Ok(()) => true,
                Err(e) => (e == IoError::NotAFile && old(self).is_dir(p@)) || (e
                    == IoError::NotFound && !old(self).occupied(p@)),
            },
    {
        let segs = p.segments();
        if segs.len() == 0 {
            return Err(IoError::NotAFile);
        }
        if self.find_dir(segs).is_some() {
            return Err(IoError::NotAFile);
        }
        match self.find_file(segs) {
            Some(i) => {
                self.files.remove(i);
                proof {
                    let q0 = p@;
                    assert(old(self).files@[i as int].0.deep_view() == q0);
                    assert(self.files@ == old(self).files@.remove(i as int));
                    assert(forall|k: int|
                        0 <= k < i ==> #[trigger] self.files@[k] == old(self).files@[k]);
                    assert(forall|k: int|
                        i <= k < self.files@.len() ==> #[trigger] self.files@[k] == old(
                            self,
                        ).files@[k + 1]);
                    assert(self.dirs@ == old(self).dirs@);
                    assert forall|q: Seq<Seq<char>>|
                        #[trigger] self.is_file(q) == (old(self).is_file(q) && q != q0) by {
                        if self.is_file(q) {
                            let k = choose|k: int|
                                0 <= k < self.files@.len() && #[trigger] self.files@[
                                    k
                                ].0.deep_view() == q;
                            if k < i {
                                assert(old(self).files@[k].0.deep_view() == q);
                            } else {
                                assert(old(self).files@[k + 1].0.deep_view() == q);
                            }
                        }
                        if old(self).is_file(q) && q != q0 {
                            let k = choose|k: int|
                                0 <= k < old(self).files@.len() && #[trigger] old(
                                    self,
                                ).files@[k].0.deep_view() == q;
                            if k < i {
                                assert(self.files@[k].0.deep_view() == q);
                            } else {
                                assert(k > i);
                                assert(self.files@[k - 1].0.deep_view() == q);
                            }
                        }
                    }
                    assert forall|a: int|
                        0 <= a < self.files@.len() implies path_wf(
                        #[trigger] self.files@[a].0.deep_view(),
                    ) && self.files@[a].0.deep_view().len() > 0 by {
                        if a < i {
                            assert(self.files@[a].0.deep_view() == old(self).files@[
                                a
                            ].0.deep_view());
                        } else {
                            assert(self.files@[a].0.deep_view() == old(self).files@[
                                a + 1
                            ].0.deep_view());
                        }
                    }
                    assert forall|a: int, b: int|
                        0 <= a < b < self.files@.len() implies #[trigger] self.files@[
                        a
                    ].0.deep_view() != #[trigger] self.files@[b].0.deep_view() by {
                        let a2: int = if a < i { a } else { a + 1 };
                        let b2: int = if b < i { b } else { b + 1 };
                        assert(self.files@[a].0.deep_view() == old(self).files@[a2].0.deep_view());
                        assert(self.files@[b].0.deep_view() == old(self).files@[b2].0.deep_view());
                    }
                    assert forall|a: int, b: int|
                        0 <= a < self.files@.len() && 0 <= b < self.dirs@.len()
                        implies #[trigger] self.files@[a].0.deep_view() != #[trigger] self.dirs@[
                        b
                    ].deep_view() by {
                        let a2: int = if a < i { a } else { a + 1 };
                        assert(self.files@[a].0.deep_view() == old(self).files@[a2].0.deep_view());
                        assert(self.dirs@[b].deep_view() == old(self).dirs@[b].deep_view());
                    }
                    self.lemma_wf_parts();
                    assert forall|q: Seq<Seq<char>>|
                        old(self).is_file(q) && q != q0 implies #[trigger] self.file_bytes(q)
                        == old(self).file_bytes(q) by {
                        let k = choose|k: int|
                            0 <= k < old(self).files@.len() && #[trigger] old(self).files@[
                                k
                            ].0.deep_view() == q;
                        old(self).lemma_file_bytes_at(k);
                        if k < i {
                            assert(self.files@[k].0.deep_view() == q);
                            self.lemma_file_bytes_at(k);
                        } else {
                            assert(k > i);
                            assert(self.files@[k - 1].0.deep_view() == q);
                            self.lemma_file_bytes_at(k - 1);
                        }
                    }
                }
                Ok(())
            },
            None => {
                proof {
                    assert(!self.is_dir(p@) && !self.is_file(p@));
                }
                Err(IoError::NotFound)
            },
        }
    }
    /// Create the directory at `p` and every missing ancestor.  Idempotent:
    /// directories that already exist are left alone.  Fails only when some
    /// step of the path is already a file.
    pub fn mkdir_all(&mut self, p: &ResolvedPath) -> (r: Result<(), IoError>)
        requires
            old(self).wf(),
            p.wf(),
        ensures
            final(self).wf(),
            r is Ok ==> forall|k: int|
                1 <= k <= p@.len() ==> !old(self).is_file(#[trigger] p@.take(k)),
            r is Ok ==> forall|q: Seq<Seq<char>>|
                #[trigger] final(self).is_dir(q) == (old(self).is_dir(q) || q.is_prefix_of(p@)),
            r is Ok ==> forall|q: Seq<Seq<char>>|
                #[trigger] final(self).is_file(q) == old(self).is_file(q),
            r is Ok ==> forall|q: Seq<Seq<char>>|
                old(self).is_file(q) ==> #[trigger] final(self).file_bytes(q) == old(
                    self,
                ).file_bytes(q),
            r is Err ==> final(self).unchanged_from(old(self)),
            match r {
                Ok(()) => true,
                Err(e) => e == IoError::NotADirectory && exists|k: int|
                    1 <= k <= p@.len() && old(self).is_file(#[trigger] p@.take(k)),
            },
    {
        let segs = p.segments();
        let mut idx: usize = 0;
        while idx < segs.len()
            invariant
                *self == *old(self),
                self.wf(),
                p@ == segs.deep_view(),
                idx <= segs@.len(),
                segs@.len() == p@.len(),
                forall|j: int| 1 <= j <= idx ==> !self.is_file(#[trigger] p@.take(j)),
            decreases segs@.len() - idx,
        {
            let pre = prefix_of(segs, idx + 1);
            let ghost k: int = idx as int + 1;
            if self.find_file(&pre).is_some() {
                proof {
                    assert(self.is_file(p@.take(k)));
                }
                return Err(IoError::NotADirectory);
            }
            proof {
                assert(!self.is_file(p@.take(k)));
            }
            idx = idx + 1;
        }
        let ghost pre_state = *self;
        let mut idx: usize = 0;
        while idx < segs.len()
            invariant
                self.wf(),
                p.wf(),
                p@ == segs.deep_view(),
                idx <= segs@.len(),
                segs@.len() == p@.len(),
                self.files@ == pre_state.files@,
                forall|j: int| 1 <= j <= p@.len() ==> !pre_state.is_file(#[trigger] p@.take(j)),
                forall|q: Seq<Seq<char>>|
                    #[trigger] self.is_dir(q) == (pre_state.is_dir(q) || (q.is_prefix_of(p@)
                        && q.len() <= idx)),
            decreases segs@.len() - idx,
        {
            let ghost loop_pre = *self;
            let pre = prefix_of(segs, idx + 1);
            let ghost k: int = idx as int + 1;
            proof {
                assert(pre.deep_view() == p@.take(k));
                assert(p@.take(k).is_prefix_of(p@)) by {
                    assert(p@.take(k) =~= p@.subrange(0, k));
                }
                assert(path_wf(p@.take(k))) by {
                    assert(forall|i: int|
                        0 <= i < k ==> #[trigger] p@.take(k)[i] == p@[i]);
                }
            }
            if self.find_dir(&pre).is_none() {
                self.dirs.push(pre);
                proof {
                    let n = loop_pre.dirs@.len();
                    assert(self.dirs@[n as int].deep_view() == p@.take(k));
                    assert(self.wf()) by {
                        assert(forall|i: int|
                            0 <= i < n ==> #[trigger] self.dirs@[i] == loop_pre.dirs@[i]);
                        assert(!pre_state.is_file(p@.take(k)));
                        assert(forall|i: int|
                            0 <= i < pre_state.files@.len()
                                ==> #[trigger] pre_state.files@[i].0.deep_view() != p@.take(k));
                        assert(forall|i: int|
                            0 <= i < self.files@.len()
                                ==> #[trigger] self.files@[i].0.deep_view() != p@.take(k));
                    }
                    assert forall|q: Seq<Seq<char>>|
                        #[trigger] self.is_dir(q) == (pre_state.is_dir(q) || (q.is_prefix_of(p@)
                            && q.len() <= k)) by {
                        if self.is_dir(q) && q.len() > 0 {
                            let ix = choose|ix: int|
                                0 <= ix < self.dirs@.len() && #[trigger] self.dirs@[
                                    ix
                                ].deep_view() == q;
                            if ix < n {
                                assert(loop_pre.dirs@[ix].deep_view() == q);
                                assert(loop_pre.is_dir(q));
                            } else {
                                assert(q == p@.take(k));
                                assert(q.len() == k);
                            }
                        }
                        if pre_state.is_dir(q) && q.len() > 0 {
                            assert(loop_pre.is_dir(q));
                            let ix = choose|ix: int|
                                0 <= ix < loop_pre.dirs@.len() && #[trigger] loop_pre.dirs@[
                                    ix
                                ].deep_view() == q;
                            assert(self.dirs@[ix].deep_view() == q);
                        }
                        if q.is_prefix_of(p@) && q.len() <= k {
                            if q.len() <= idx {
                                assert(loop_pre.is_dir(q));
                                if q.len() > 0 {
                                    let ix = choose|ix: int|
                                        0 <= ix < loop_pre.dirs@.len()
                                            && #[trigger] loop_pre.dirs@[ix].deep_view() == q;
                                    assert(self.dirs@[ix].deep_view() == q);
                                }
                            } else {
                                assert(q =~= p@.take(k));
                            }
                        }
                    }
                }
            } else {
                proof {
                    assert(self.is_dir(p@.take(k)));
                    assert forall|q: Seq<Seq<char>>|
                        #[trigger] self.is_dir(q) == (pre_state.is_dir(q) || (q.is_prefix_of(p@)
                            && q.len() <= k)) by {
                        if q.is_prefix_of(p@) && q.len() == k {
                            assert(q =~= p@.take(k));
                        }
                    }
                }
            }
            idx = idx + 1;
        }
        proof {
            assert(pre_state == *old(self));
            Self::lemma_same_files(*self, pre_state);
            assert forall|q: Seq<Seq<char>>|
                #[trigger] self.is_dir(q) == (pre_state.is_dir(q) || q.is_prefix_of(p@)) by {
                if q.is_prefix_of(p@) {
                    assert(q.len() <= p@.len());
                }
            }
        }
        Ok(())
    }
    /// Enumerate the direct children of the directory at `p`, each with its
    /// definite classification.  The listing is complete, has no duplicate
    /// names, and is materialized before return; its order is not specified.
    /// Fails with `NotADirectory` when `p` does not denote a directory.
    pub fn list(&self, p: &ResolvedPath) -> (r: Result<Vec<EntryDescriptor>, IoError>)
        requires
            self.wf(),
        ensures
            match r {
                Ok(es) => {
                    &&& self.is_dir(p@)
                    &&& forall|k: int|
                        #![trigger es@[k]]
                        0 <= k < es@.len() ==> (es@[k].kind == EntryKind::Directory
                            && self.is_dir(p@.push(es@[k].name@))) || (es@[k].kind
                            == EntryKind::File && self.is_file(p@.push(es@[k].name@)))
                    &&& forall|s: Seq<char>|
                        #![trigger p@.push(s)]
                        self.occupied(p@.push(s)) ==> exists|k: int|
                            0 <= k < es@.len() && es@[k].name@ == s
                    &&& forall|k1: int, k2: int|
                        #![trigger es@[k1], es@[k2]]
                        0 <= k1 < k2 < es@.len() ==> es@[k1].name@ != es@[k2].name@
                },
                Err(e) => e == IoError::NotADirectory && !self.is_dir(p@),
            },
    {
        let segs = p.segments();
        let plen = segs.len();
        if plen > 0 && self.find_dir(segs).is_none() {
            return Err(IoError::NotADirectory);
        }
        let mut out: Vec<EntryDescriptor> = Vec::new();
        let mut i: usize = 0;
        while i < self.dirs.len()
            invariant
                self.wf(),
                p@ == segs.deep_view(),
                plen == p@.len(),
                i <= self.dirs@.len(),
                forall|k: int|
                    #![trigger out@[k]]
                    0 <= k < out@.len() ==> out@[k].kind == EntryKind::Directory && exists|ix: int|
                        0 <= ix < i && #[trigger] self.dirs@[ix].deep_view() == p@.push(
                            out@[k].name@,
                        ),
                forall|ix: int|
                    0 <= ix < i && (#[trigger] self.dirs@[ix].deep_view()).len() == p@.len() + 1
                        && p@.is_prefix_of(self.dirs@[ix].deep_view()) ==> exists|k: int|
                        0 <= k < out@.len() && #[trigger] out@[k].name@ == self.dirs@[
                            ix
                        ].deep_view().last(),
                forall|k1: int, k2: int|
                    #![trigger out@[k1], out@[k2]]
                    0 <= k1 < k2 < out@.len() ==> out@[k1].name@ != out@[k2].name@,
            decreases self.dirs@.len() - i,
        {
            let d = &self.dirs[i];
            if d.len() > 0 && d.len() - 1 == plen && is_contained_in(segs, d) {
                let last_ix = d.len() - 1;
                let name = d[last_ix].clone();
                proof {
                    let dv = self.dirs@[i as int].deep_view();
                    assert(name@ == dv.last());
                    assert(dv =~= p@.push(name@));
                    assert forall|k: int| 0 <= k < out@.len() implies #[trigger] out@[k].name@
                        != name@ by {
                        if out@[k].name@ == name@ {
                            let ix = choose|ix: int|
                                0 <= ix < i && #[trigger] self.dirs@[ix].deep_view() == p@.push(
                                    out@[k].name@,
                                );
                            assert(self.dirs@[ix].deep_view() == self.dirs@[i as int].deep_view());
                        }
                    }
                }
                let ghost old_out = out@;
                out.push(EntryDescriptor { name, kind: EntryKind::Directory });
                proof {
                    let dv = self.dirs@[i as int].deep_view();
                    assert(out@.len() == old_out.len() + 1);
                    assert(forall|k: int| 0 <= k < old_out.len() ==> #[trigger] out@[k] == old_out[k]);
                    assert(out@[old_out.len() as int].name@ == name@);
                    assert(out@[old_out.len() as int].name@ == dv.last());
                    assert forall|ix: int|
                        0 <= ix < i + 1 && (#[trigger] self.dirs@[ix].deep_view()).len() == p@.len()
                            + 1 && p@.is_prefix_of(self.dirs@[ix].deep_view()) implies exists|k: int|
                        0 <= k < out@.len() && #[trigger] out@[k].name@ == self.dirs@[
                            ix
                        ].deep_view().last() by {
                        if ix < i {
                            let k = choose|k: int|
                                0 <= k < old_out.len() && #[trigger] old_out[k].name@
                                    == self.dirs@[ix].deep_view().last();
                            assert(out@[k].name@ == self.dirs@[ix].deep_view().last());
                        } else {
                            assert(out@[old_out.len() as int].name@ == self.dirs@[
                                ix
                            ].deep_view().last());
                        }
                    }
                }
            }
            proof {
                if i < self.dirs@.len() {
                    let dv = self.dirs@[i as int].deep_view();
                    if dv.len() == p@.len() + 1 && p@.is_prefix_of(dv) {
                        assert(dv =~= p@.push(dv.last()));
                    }
                }
            }
            i = i + 1;
        }
        let ghost dir_count = out@.len();
        let mut j: usize = 0;
        while j < self.files.len()
            invariant
                self.wf(),
                p@ == segs.deep_view(),
                plen == p@.len(),
                j <= self.files@.len(),
                forall|k: int|
                    #![trigger out@[k]]
                    0 <= k < out@.len() ==> (out@[k].kind == EntryKind::Directory && self.is_dir(
                        p@.push(out@[k].name@),
                    )) || (out@[k].kind == EntryKind::File && exists|ix: int|
                        0 <= ix < j && #[trigger] self.files@[ix].0.deep_view() == p@.push(
                            out@[k].name@,
                        )),
                forall|s: Seq<char>|
                    #![trigger p@.push(s)]
                    self.is_dir(p@.push(s)) ==> exists|k: int|
                        0 <= k < out@.len() && out@[k].name@ == s,
                forall|ix: int|
                    0 <= ix < j && (#[trigger] self.files@[ix].0.deep_view()).len() == p@.len() + 1
                        && p@.is_prefix_of(self.files@[ix].0.deep_view()) ==> exists|k: int|
                        0 <= k < out@.len() && #[trigger] out@[k].name@ == self.files@[
                            ix
                        ].0.deep_view().last(),
                forall|k1: int, k2: int|
                    #![trigger out@[k1], out@[k2]]
                    0 <= k1 < k2 < out@.len() ==> out@[k1].name@ != out@[k2].name@,
            decreases self.files@.len() - j,
        {
            let d = &self.files[j].0;
            if d.len() > 0 && d.len() - 1 == plen && is_contained_in(segs, d) {
                let last_ix = d.len() - 1;
                let name = d[last_ix].clone();
                proof {
                    let dv = self.files@[j as int].0.deep_view();
                    assert(name@ == dv.last());
                    assert(dv =~= p@.push(name@));
                    self.lemma_file_bytes_at(j as int);
                    assert forall|k: int| 0 <= k < out@.len() implies #[trigger] out@[k].name@
                        != name@ by {
                        if out@[k].name@ == name@ {
                            if out@[k].kind == EntryKind::Directory {
                                let ix = choose|ix: int|
                                    0 <= ix < self.dirs@.len() && #[trigger] self.dirs@[
                                        ix
                                    ].deep_view() == p@.push(out@[k].name@);
                                assert(self.dirs@[ix].deep_view() == self.files@[
                                    j as int
                                ].0.deep_view());
                            } else {
                                let ix = choose|ix: int|
                                    0 <= ix < j && #[trigger] self.files@[ix].0.deep_view()
                                        == p@.push(out@[k].name@);
                                assert(self.files@[ix].0.deep_view() == self.files@[
                                    j as int
                                ].0.deep_view());
                            }
                        }
                    }
                }
                let ghost old_out = out@;
                out.push(EntryDescriptor { name, kind: EntryKind::File });
                proof {
                    let dv = self.files@[j as int].0.deep_view();
                    assert(out@.len() == old_out.len() + 1);
                    assert(forall|k: int| 0 <= k < old_out.len() ==> #[trigger] out@[k] == old_out[k]);
                    assert(out@[old_out.len() as int].name@ == name@);
                    assert(out@[old_out.len() as int].name@ == dv.last());
                    assert forall|s: Seq<char>|
                        self.is_dir(#[trigger] p@.push(s)) implies exists|k: int|
                        0 <= k < out@.len() && out@[k].name@ == s by {
                        let k = choose|k: int|
                            0 <= k < old_out.len() && #[trigger] old_out[k].name@ == s;
                        assert(out@[k].name@ == s);
                    }
                    assert forall|ix: int|
                        0 <= ix < j + 1 && (#[trigger] self.files@[ix].0.deep_view()).len()
                            == p@.len() + 1 && p@.is_prefix_of(self.files@[ix].0.deep_view())
                        implies exists|k: int|
                        0 <= k < out@.len() && #[trigger] out@[k].name@ == self.files@[
                            ix
                        ].0.deep_view().last() by {
                        if ix < j {
                            let k = choose|k: int|
                                0 <= k < old_out.len() && #[trigger] old_out[k].name@
                                    == self.files@[ix].0.deep_view().last();
                            assert(out@[k].name@ == self.files@[ix].0.deep_view().last());
                        } else {
                            assert(out@[old_out.len() as int].name@ == self.files@[
                                ix
                            ].0.deep_view().last());
                        }
                    }
                }
            }
            proof {
                if j < self.files@.len() {
                    let dv = self.files@[j as int].0.deep_view();
                    if dv.len() == p@.len() + 1 && p@.is_prefix_of(dv) {
                        assert(dv =~= p@.push(dv.last()));
                    }
                }
            }
            j = j + 1;
        }
        proof {
            assert forall|s: Seq<char>| self.occupied(#[trigger] p@.push(s)) implies exists|k: int|
                0 <= k < out@.len() && out@[k].name@ == s by {
                if self.is_file(p@.push(s)) {
                    let ix = choose|ix: int|
                        0 <= ix < self.files@.len() && #[trigger] self.files@[ix].0.deep_view()
                            == p@.push(s);
                    assert(self.files@[ix].0.deep_view().len() == p@.len() + 1);
                    assert(p@.is_prefix_of(self.files@[ix].0.deep_view())) by {
                        assert(p@ =~= self.files@[ix].0.deep_view().subrange(0, p@.len() as int));
                    }
                    assert(self.files@[ix].0.deep_view().last() == s);
                }
            }
            assert forall|k: int|
                #![trigger out@[k]]
                0 <= k < out@.len() implies (out@[k].kind == EntryKind::Directory && self.is_dir(
                p@.push(out@[k].name@),
            )) || (out@[k].kind == EntryKind::File && self.is_file(p@.push(out@[k].name@))) by {
                if out@[k].kind == EntryKind::File {
                    let ix = choose|ix: int|
                        0 <= ix < self.files@.len() && #[trigger] self.files@[ix].0.deep_view()
                            == p@.push(out@[k].name@);
                }
            }
        }
        Ok(out)
    }
    /// Remove the directory at `p` and everything below it, recursively and
    /// irreversibly.  Callers must already have validated that `p` is not
    /// the root itself.  A file is `NotADirectory`; nothing at all is
    /// `NotFound`.
    #[verifier::rlimit(100)]
    pub fn delete_tree(&mut self, p: &ResolvedPath) -> (r: Result<(), IoError>)
        requires
            old(self).wf(),
            p@.len() > 0,
        ensures
            final(self).wf(),
            r is Ok ==> old(self).is_dir(p@),
            r is Ok ==> forall|q: Seq<Seq<char>>|
                #[trigger] final(self).is_dir(q) == (old(self).is_dir(q) && !p@.is_prefix_of(q)),
            r is Ok ==> forall|q: Seq<Seq<char>>|
                #[trigger] final(self).is_file(q) == (old(self).is_file(q) && !p@.is_prefix_of(q)),
            r is Ok ==> forall|q: Seq<Seq<char>>|
                old(self).is_file(q) && !p@.is_prefix_of(q) ==> #[trigger] final(self).file_bytes(
                    q,
                ) == old(self).file_bytes(q),
            r is Err ==> final(self).unchanged_from(old(self)),
            match r {
                Ok(()) => true,
                Err(e) => (e == IoError::NotADirectory && old(self).is_file(p@)) || (e
                    == IoError::NotFound && !old(self).occupied(p@)),
            },
    {
        let segs = p.segments();
        if self.find_dir(segs).is_none() {
            if self.find_file(segs).is_some() {
                return Err(IoError::NotADirectory);
            }
            proof {
                assert(!self.is_dir(p@) && !self.is_file(p@));
            }
            return Err(IoError::NotFound);
        }
        loop
            invariant
                self.wf(),
                p@ == segs.deep_view(),
                p@.len() > 0,
                old(self).is_dir(p@),
                self.files@ == old(self).files@,
                forall|q: Seq<Seq<char>>| #[trigger] self.is_dir(q) ==> old(self).is_dir(q),
                forall|q: Seq<Seq<char>>|
                    !p@.is_prefix_of(q) ==> #[trigger] self.is_dir(q) == old(self).is_dir(q),
            ensures
                forall|ix: int|
                    0 <= ix < self.dirs@.len() ==> !p@.is_prefix_of(
                        #[trigger] self.dirs@[ix].deep_view(),
                    ),
            decreases self.dirs@.len(),
        {
            let ghost before = *self;
            match self.find_dir_under(segs) {
                Some(i) => {
                    self.dirs.remove(i);
                    proof {
                        assert(self.dirs@ == before.dirs@.remove(i as int));
                        assert(forall|k: int|
                            0 <= k < i ==> #[trigger] self.dirs@[k] == before.dirs@[k]);
                        assert(forall|k: int|
                            i <= k < self.dirs@.len() ==> #[trigger] self.dirs@[k]
                                == before.dirs@[k + 1]);
                        assert forall|a: int|
                            0 <= a < self.dirs@.len() implies path_wf(
                            #[trigger] self.dirs@[a].deep_view(),
                        ) && self.dirs@[a].deep_view().len() > 0 by {
                            let a2: int = if a < i {
                                a
                            } else {
                                a + 1
                            };
                            assert(self.dirs@[a].deep_view() == before.dirs@[a2].deep_view());
                        }
                        assert forall|a: int, b: int|
                            0 <= a < b < self.dirs@.len() implies #[trigger] self.dirs@[
                            a
                        ].deep_view() != #[trigger] self.dirs@[b].deep_view() by {
                            let a2: int = if a < i {
                                a
                            } else {
                                a + 1
                            };
                            let b2: int = if b < i {
                                b
                            } else {
                                b + 1
                            };
                            assert(self.dirs@[a].deep_view() == before.dirs@[a2].deep_view());
                            assert(self.dirs@[b].deep_view() == before.dirs@[b2].deep_view());
                        }
                        assert forall|a: int, b: int|
                            0 <= a < self.files@.len() && 0 <= b < self.dirs@.len()
                            implies #[trigger] self.files@[a].0.deep_view()
                            != #[trigger] self.dirs@[b].deep_view() by {
                            let b2: int = if b < i {
                                b
                            } else {
                                b + 1
                            };
                            assert(self.dirs@[b].deep_view() == before.dirs@[b2].deep_view());
                        }
                        self.lemma_wf_parts();
                        assert forall|q: Seq<Seq<char>>| #[trigger] self.is_dir(q) implies old(
                            self,
                        ).is_dir(q) by {
                            if q.len() > 0 && self.is_dir(q) {
                                let k = choose|k: int|
                                    0 <= k < self.dirs@.len() && #[trigger] self.dirs@[
                                        k
                                    ].deep_view() == q;
                                let k2: int = if k < i {
                                    k
                                } else {
                                    k + 1
                                };
                                assert(before.dirs@[k2].deep_view() == q);
                                assert(before.is_dir(q));
                            }
                        }
                        assert forall|q: Seq<Seq<char>>|
                            !p@.is_prefix_of(q) implies #[trigger] self.is_dir(q) == old(
                            self,
                        ).is_dir(q) by {
                            if q.len() > 0 && before.is_dir(q) && !p@.is_prefix_of(q) {
                                let k = choose|k: int|
                                    0 <= k < before.dirs@.len() && #[trigger] before.dirs@[
                                        k
                                    ].deep_view() == q;
                                assert(k != i);
                                let k2: int = if k < i {
                                    k
                                } else {
                                    k - 1
                                };
                                assert(self.dirs@[k2].deep_view() == q);
                            }
                        }
                    }
                },
                None => {
                    break ;
                },
            }
        }
        let ghost mid = *self;
        loop
            invariant
                self.wf(),
                p@ == segs.deep_view(),
                p@.len() > 0,
                self.dirs@ == mid.dirs@,
                forall|ix: int|
                    0 <= ix < self.dirs@.len() ==> !p@.is_prefix_of(
                        #[trigger] self.dirs@[ix].deep_view(),
                    ),
                forall|q: Seq<Seq<char>>| #[trigger] self.is_dir(q) ==> old(self).is_dir(q),
                forall|q: Seq<Seq<char>>|
                    !p@.is_prefix_of(q) ==> #[trigger] self.is_dir(q) == old(self).is_dir(q),
                forall|q: Seq<Seq<char>>|
                    #[trigger] self.is_file(q) ==> old(self).is_file(q) && self.file_bytes(q)
                        == old(self).file_bytes(q),
                forall|q: Seq<Seq<char>>|
                    !p@.is_prefix_of(q) ==> #[trigger] self.is_file(q) == old(self).is_file(q),
            ensures
                self.wf(),
                forall|ix: int|
                    0 <= ix < self.dirs@.len() ==> !p@.is_prefix_of(
                        #[trigger] self.dirs@[ix].deep_view(),
                    ),
                forall|q: Seq<Seq<char>>| #[trigger] self.is_dir(q) ==> old(self).is_dir(q),
                forall|q: Seq<Seq<char>>|
                    !p@.is_prefix_of(q) ==> #[trigger] self.is_dir(q) == old(self).is_dir(q),
                forall|q: Seq<Seq<char>>|
                    #[trigger] self.is_file(q) ==> old(self).is_file(q) && self.file_bytes(q)
                        == old(self).file_bytes(q),
                forall|q: Seq<Seq<char>>|
                    !p@.is_prefix_of(q) ==> #[trigger] self.is_file(q) == old(self).is_file(q),
                forall|ix: int|
                    0 <= ix < self.files@.len() ==> !p@.is_prefix_of(
                        #[trigger] self.files@[ix].0.deep_view(),
                    ),
            decreases self.files@.len(),
        {
            let ghost before = *self;
            match self.find_file_under(segs) {
                Some(i) => {
                    self.files.remove(i);
                    proof {
                        assert(self.files@ == before.files@.remove(i as int));
                        assert(forall|k: int|
                            0 <= k < i ==> #[trigger] self.files@[k] == before.files@[k]);
                        assert(forall|k: int|
                            i <= k < self.files@.len() ==> #[trigger] self.files@[k]
                                == before.files@[k + 1]);
                        assert forall|a: int|
                            0 <= a < self.files@.len() implies path_wf(
                            #[trigger] self.files@[a].0.deep_view(),
                        ) && self.files@[a].0.deep_view().len() > 0 by {
                            let a2: int = if a < i {
                                a
                            } else {
                                a + 1
                            };
                            assert(self.files@[a].0.deep_view() == before.files@[
                                a2
                            ].0.deep_view());
                        }
                        assert forall|a: int, b: int|
                            0 <= a < b < self.files@.len() implies #[trigger] self.files@[
                            a
                        ].0.deep_view() != #[trigger] self.files@[b].0.deep_view() by {
                            let a2: int = if a < i {
                                a
                            } else {
                                a + 1
                            };
                            let b2: int = if b < i {
                                b
                            } else {
                                b + 1
                            };
                            assert(self.files@[a].0.deep_view() == before.files@[
                                a2
                            ].0.deep_view());
                            assert(self.files@[b].0.deep_view() == before.files@[
                                b2
                            ].0.deep_view());
                        }
                        assert forall|a: int, b: int|
                            0 <= a < self.files@.len() && 0 <= b < self.dirs@.len()
                            implies #[trigger] self.files@[a].0.deep_view()
                            != #[trigger] self.dirs@[b].deep_view() by {
                            let a2: int = if a < i {
                                a
                            } else {
                                a + 1
                            };
                            assert(self.files@[a].0.deep_view() == before.files@[
                                a2
                            ].0.deep_view());
                        }
                        self.lemma_wf_parts();
                        assert(self.dirs@ == before.dirs@);
                        assert forall|q: Seq<Seq<char>>| #[trigger] self.is_dir(q) implies before
                            .is_dir(q) by {
                            if q.len() > 0 && self.is_dir(q) {
                                let k = choose|k: int|
                                    0 <= k < self.dirs@.len() && #[trigger] self.dirs@[
                                        k
                                    ].deep_view() == q;
                                assert(before.dirs@[k].deep_view() == q);
                            }
                        }
                        assert forall|q: Seq<Seq<char>>| #[trigger] before.is_dir(q) implies self
                            .is_dir(q) by {
                            if q.len() > 0 && before.is_dir(q) {
                                let k = choose|k: int|
                                    0 <= k < before.dirs@.len() && #[trigger] before.dirs@[
                                        k
                                    ].deep_view() == q;
                                assert(self.dirs@[k].deep_view() == q);
                            }
                        }
                        assert forall|q: Seq<Seq<char>>| #[trigger] self.is_file(q) implies old(
                            self,
                        ).is_file(q) && self.file_bytes(q) == old(self).file_bytes(q) by {
                            if self.is_file(q) {
                                let k = choose|k: int|
                                    0 <= k < self.files@.len() && #[trigger] self.files@[
                                        k
                                    ].0.deep_view() == q;
                                let k2: int = if k < i {
                                    k
                                } else {
                                    k + 1
                                };
                                assert(before.files@[k2].0.deep_view() == q);
                                assert(before.is_file(q));
                                self.lemma_file_bytes_at(k);
                                before.lemma_file_bytes_at(k2);
                            }
                        }
                        assert forall|q: Seq<Seq<char>>|
                            !p@.is_prefix_of(q) implies #[trigger] self.is_file(q) == old(
                            self,
                        ).is_file(q) by {
                            if before.is_file(q) && !p@.is_prefix_of(q) {
                                let k = choose|k: int|
                                    0 <= k < before.files@.len() && #[trigger] before.files@[
                                        k
                                    ].0.deep_view() == q;
                                assert(k != i);
                                let k2: int = if k < i {
                                    k
                                } else {
                                    k - 1
                                };
                                assert(self.files@[k2].0.deep_view() == q);
                            }
                            assert(before.is_file(q) == old(self).is_file(q));
                        }
                        assert forall|q: Seq<Seq<char>>|
                            !p@.is_prefix_of(q) implies #[trigger] self.is_dir(q) == old(
                            self,
                        ).is_dir(q) by {
                            assert(self.is_dir(q) == before.is_dir(q));
                            assert(before.is_dir(q) == old(self).is_dir(q));
                        }
                    }
                },
                None => {
                    break ;
                },
            }
        }
        proof {
            assert forall|q: Seq<Seq<char>>|
                #[trigger] self.is_dir(q) == (old(self).is_dir(q) && !p@.is_prefix_of(q)) by {
                if q.len() > 0 && self.is_dir(q) {
                    let k = choose|k: int|
                        0 <= k < self.dirs@.len() && #[trigger] self.dirs@[k].deep_view() == q;
                    assert(!p@.is_prefix_of(q));
                }
                if q.len() == 0 {
                    assert(!p@.is_prefix_of(q));
                }
            }
            assert forall|q: Seq<Seq<char>>|
                #[trigger] self.is_file(q) == (old(self).is_file(q) && !p@.is_prefix_of(q)) by {
                if self.is_file(q) {
                    let k = choose|k: int|
                        0 <= k < self.files@.len() && #[trigger] self.files@[k].0.deep_view() == q;
                    assert(!p@.is_prefix_of(q));
                }
            }
            assert forall|q: Seq<Seq<char>>|
                old(self).is_file(q) && !p@.is_prefix_of(q) implies #[trigger] self.file_bytes(q)
                == old(self).file_bytes(q) by {
                assert(self.is_file(q));
            }
        }
        Ok(())
    }

    /// The index of some recorded directory at or below `q`, if any.
    fn find_dir_under(&self, q: &Vec<String>) -> (r: Option<usize>)
        ensures
            match r {
                Some(i) => i < self.dirs@.len() && q.deep_view().is_prefix_of(
                    self.dirs@[i as int].deep_view(),
                ),
                None => forall|i: int|
                    0 <= i < self.dirs@.len() ==> !q.deep_view().is_prefix_of(
                        #[trigger] self.dirs@[i].deep_view(),
                    ),
            },
    {
        let mut i: usize = 0;
        while i < self.dirs.len()
            invariant
                i <= self.dirs@.len(),
                forall|j: int|
                    0 <= j < i ==> !q.deep_view().is_prefix_of(
                        #[trigger] self.dirs@[j].deep_view(),
                    ),
            decreases self.dirs@.len() - i,
        {
            if is_contained_in(q, &self.dirs[i]) {
                return Some(i);
            }
            i = i + 1;
        }
        None
    }

    /// The index of some recorded file at or below `q`, if any.
    fn find_file_under(&self, q: &Vec<String>) -> (r: Option<usize>)
        ensures
            match r {
                Some(i) => i < self.files@.len() && q.deep_view().is_prefix_of(
                    self.files@[i as int].0.deep_view(),
                ),
                None => forall|i: int|
                    0 <= i < self.files@.len() ==> !q.deep_view().is_prefix_of(
                        #[trigger] self.files@[i].0.deep_view(),
                    ),
            },
    {
        let mut i: usize = 0;
        while i < self.files.len()
            invariant
                i <= self.files@.len(),
                forall|j: int|
                    0 <= j < i ==> !q.deep_view().is_prefix_of(
                        #[trigger] self.files@[j].0.deep_view(),
                    ),
            decreases self.files@.len() - i,
        {
            if is_contained_in(q, &self.files[i].0) {
                return Some(i);
            }
            i = i + 1;
        }
        None
    }
    /// Nothing exists at or below `q`.
    fn subtree_clear(&self, q: &Vec<String>) -> (b: bool)
        ensures
            b ==> forall|qq: Seq<Seq<char>>|
                #[trigger] q.deep_view().is_prefix_of(qq) ==> !self.occupied(qq),
            !b ==> exists|qq: Seq<Seq<char>>|
                #[trigger] q.deep_view().is_prefix_of(qq) && self.occupied(qq),
    {
        if q.len() == 0 {
            proof {
                let e = Seq::<Seq<char>>::empty();
                assert(q.deep_view() =~= e);
                assert(q.deep_view().is_prefix_of(e)) by {
                    assert(q.deep_view() =~= e.subrange(0, 0));
                }
                assert(self.is_dir(e));
            }
            return false;
        }
        if self.find_dir_under(q).is_some() {
            proof {
                let i = choose|i: int|
                    0 <= i < self.dirs@.len() && q.deep_view().is_prefix_of(
                        #[trigger] self.dirs@[i].deep_view(),
                    );
            }
            return false;
        }
        if self.find_file_under(q).is_some() {
            return false;
        }
        proof {
            assert forall|qq: Seq<Seq<char>>|
                #[trigger] q.deep_view().is_prefix_of(qq) implies !self.occupied(qq) by {
                if qq.len() == 0 {
                    assert(q.deep_view().len() == 0);
                }
                if self.is_dir(qq) && qq.len() > 0 {
                    let i = choose|i: int|
                        0 <= i < self.dirs@.len() && #[trigger] self.dirs@[i].deep_view() == qq;
                }
                if self.is_file(qq) {
                    let i = choose|i: int|
                        0 <= i < self.files@.len() && #[trigger] self.files@[i].0.deep_view()
                            == qq;
                }
            }
        }
        true
    }

    /// Atomically move the entry at `from` — a file or a whole directory
    /// tree — to `to`.  Within this store there is a single volume, so the
    /// move never fails with `CrossVolume`.  Callers must already have
    /// validated that `from` is not the root.  The destination must not
    /// exist, must not lie below the source, and its parent must be a
    /// directory.
    #[verifier::rlimit(100)]
    pub fn rename(&mut self, from: &ResolvedPath, to: &ResolvedPath) -> (r: Result<(), IoError>)
        requires
            old(self).wf(),
            from.wf(),
            to.wf(),
            from@.len() > 0,
        ensures
            final(self).wf(),
            r is Ok ==> old(self).occupied(from@) && to@.len() > 0 && old(self).is_dir(
                to@.drop_last(),
            ) && !from@.is_prefix_of(to@) && (forall|qq: Seq<Seq<char>>|
                #[trigger] to@.is_prefix_of(qq) ==> !old(self).occupied(qq)),
            r is Ok ==> forall|q: Seq<Seq<char>>|
                #[trigger] final(self).is_dir(q) == ((old(self).is_dir(q) && !from@.is_prefix_of(
                    q,
                )) || (to@.is_prefix_of(q) && old(self).is_dir(
                    from@ + q.skip(to@.len() as int),
                ))),
            r is Ok ==> forall|q: Seq<Seq<char>>|
                #[trigger] final(self).is_file(q) == ((old(self).is_file(q) && !from@.is_prefix_of(
                    q,
                )) || (to@.is_prefix_of(q) && old(self).is_file(
                    from@ + q.skip(to@.len() as int),
                ))),
            r is Ok ==> forall|q: Seq<Seq<char>>|
                old(self).is_file(q) && !from@.is_prefix_of(q)
                    ==> #[trigger] final(self).file_bytes(q) == old(self).file_bytes(q),
            r is Ok ==> forall|q: Seq<Seq<char>>|
                to@.is_prefix_of(q) && old(self).is_file(from@ + q.skip(to@.len() as int))
                    ==> #[trigger] final(self).file_bytes(q) == old(self).file_bytes(
                    from@ + q.skip(to@.len() as int),
                ),
            r is Err ==> final(self).unchanged_from(old(self)),
            match r {
                Ok(()) => true,
                Err(e) => (e == IoError::NotFound && !old(self).occupied(from@)) || (e
                    == IoError::Other && old(self).occupied(from@) && exists|qq: Seq<Seq<char>>|
                    #[trigger] to@.is_prefix_of(qq) && old(self).occupied(qq)) || (e
                    == IoError::NotFound && old(self).occupied(from@) && !old(self).is_dir(
                    to@.drop_last(),
                ) && (forall|qq: Seq<Seq<char>>|
                    #[trigger] to@.is_prefix_of(qq) ==> !old(self).occupied(qq))) || (e
                    == IoError::Other && old(self).occupied(from@) && old(self).is_dir(
                    to@.drop_last(),
                ) && from@.is_prefix_of(to@) && (forall|qq: Seq<Seq<char>>|
                    #[trigger] to@.is_prefix_of(qq) ==> !old(self).occupied(qq))),
            },
    {
        let fsegs = from.segments();
        let tsegs = to.segments();
        if self.find_dir(fsegs).is_none() && self.find_file(fsegs).is_none() {
            proof {
                assert(!self.is_dir(from@) && !self.is_file(from@));
            }
            return Err(IoError::NotFound);
        }
        if !self.subtree_clear(tsegs) {
            return Err(IoError::Other);
        }
        proof {
            assert(to@.is_prefix_of(to@)) by {
                assert(to@ =~= to@.subrange(0, to@.len() as int));
            }
            assert(!self.occupied(to@));
            if to@.len() == 0 {
                assert(self.is_dir(to@));
            }
        }
        let tpar = parent_of(tsegs);
        if tpar.len() > 0 && self.find_dir(&tpar).is_none() {
            proof {
                assert(!self.is_dir(to@.drop_last()));
            }
            return Err(IoError::NotFound);
        }
        proof {
            assert(self.is_dir(to@.drop_last()));
        }
        if is_contained_in(fsegs, tsegs) {
            return Err(IoError::Other);
        }
        let flen = fsegs.len();
        let mut new_dirs: Vec<Vec<String>> = Vec::new();
        let mut i: usize = 0;
        while i < self.dirs.len()
            invariant
                *self == *old(self),
                self.wf(),
                from@ == fsegs.deep_view(),
                to@ == tsegs.deep_view(),
                flen == from@.len(),
                i <= self.dirs@.len(),
                new_dirs@.len() == i,
                forall|k: int|
                    0 <= k < i ==> #[trigger] new_dirs@[k].deep_view() == remap_path(
                        self.dirs@[k].deep_view(),
                        from@,
                        to@,
                    ),
            decreases self.dirs@.len() - i,
        {
            let ghost old_new = new_dirs@;
            if is_contained_in(fsegs, &self.dirs[i]) {
                let nk = remap_key(&self.dirs[i], flen, tsegs);
                new_dirs.push(nk);
            } else {
                new_dirs.push(clone_segs(&self.dirs[i]));
            }
            proof {
                assert(forall|k: int|
                    0 <= k < i ==> #[trigger] new_dirs@[k] == old_new[k]);
                assert(new_dirs@[i as int].deep_view() == remap_path(
                    self.dirs@[i as int].deep_view(),
                    from@,
                    to@,
                ));
            }
            i = i + 1;
        }
        let mut new_files: Vec<(Vec<String>, Vec<u8>)> = Vec::new();
        let mut j: usize = 0;
        while j < self.files.len()
            invariant
                *self == *old(self),
                self.wf(),
                from@ == fsegs.deep_view(),
                to@ == tsegs.deep_view(),
                flen == from@.len(),
                j <= self.files@.len(),
                new_files@.len() == j,
                forall|k: int|
                    0 <= k < j ==> #[trigger] new_files@[k].0.deep_view() == remap_path(
                        self.files@[k].0.deep_view(),
                        from@,
                        to@,
                    ),
                forall|k: int|
                    0 <= k < j ==> #[trigger] new_files@[k].1@ == self.files@[k].1@,
            decreases self.files@.len() - j,
        {
            let ghost old_new = new_files@;
            if is_contained_in(fsegs, &self.files[j].0) {
                let nk = remap_key(&self.files[j].0, flen, tsegs);
                new_files.push((nk, clone_bytes(&self.files[j].1)));
            } else {
                new_files.push((clone_segs(&self.files[j].0), clone_bytes(&self.files[j].1)));
            }
            proof {
                assert(forall|k: int|
                    0 <= k < j ==> #[trigger] new_files@[k] == old_new[k]);
                assert(new_files@[j as int].0.deep_view() == remap_path(
                    self.files@[j as int].0.deep_view(),
                    from@,
                    to@,
                ));
                assert(new_files@[j as int].1@ == self.files@[j as int].1@);
                assert forall|k: int|
                    0 <= k < j + 1 implies #[trigger] new_files@[k].0.deep_view() == remap_path(
                    self.files@[k].0.deep_view(),
                    from@,
                    to@,
                ) by {
                    if k < j {
                        assert(new_files@[k] == old_new[k]);
                        assert(old_new[k].0.deep_view() == remap_path(
                            self.files@[k].0.deep_view(),
                            from@,
                            to@,
                        ));
                    }
                }
                assert forall|k: int|
                    0 <= k < j + 1 implies #[trigger] new_files@[k].1@ == self.files@[k].1@ by {
                    if k < j {
                        assert(new_files@[k] == old_new[k]);
                        assert(old_new[k].1@ == self.files@[k].1@);
                    }
                }
            }
            j = j + 1;
        }
        let ghost pre = *self;
        let ghost nd = new_dirs@;
        let ghost nf = new_files@;
        self.dirs = new_dirs;
        self.files = new_files;
        proof {
            assert(pre == *old(self));
            assert(self.dirs@ == nd);
            assert(self.files@ == nf);
            let f = from@;
            let t = to@;
            // Every remapped key reconstructs its source and is injective.
            assert forall|d: Seq<Seq<char>>|
                f.is_prefix_of(d) implies #[trigger] remap_path(d, f, t) == t + d.skip(
                flen as int,
            ) && t.is_prefix_of(remap_path(d, f, t)) && remap_path(d, f, t).skip(t.len() as int)
                == d.skip(flen as int) && f + remap_path(d, f, t).skip(t.len() as int) == d by {
                lemma_seq_concat_skip(t, d.skip(flen as int));
                lemma_seq_prefix_restore(f, d);
            }
            assert forall|d: Seq<Seq<char>>|
                !f.is_prefix_of(d) implies #[trigger] remap_path(d, f, t) == d by {}
            // A kept key is never at or below the destination.
            assert forall|k: int|
                0 <= k < pre.dirs@.len() implies !t.is_prefix_of(
                    #[trigger] remap_path(pre.dirs@[k].deep_view(), f, t),
                ) || f.is_prefix_of(pre.dirs@[k].deep_view()) by {
                let d = pre.dirs@[k].deep_view();
                if !f.is_prefix_of(d) && t.is_prefix_of(d) {
                    assert(pre.is_dir(d));
                }
            }
            assert forall|k: int|
                0 <= k < pre.files@.len() implies !t.is_prefix_of(
                    #[trigger] remap_path(pre.files@[k].0.deep_view(), f, t),
                ) || f.is_prefix_of(pre.files@[k].0.deep_view()) by {
                let d = pre.files@[k].0.deep_view();
                if !f.is_prefix_of(d) && t.is_prefix_of(d) {
                    assert(pre.is_file(d));
                }
            }
            // Remapping is injective across all recorded keys.
            assert forall|d1: Seq<Seq<char>>, d2: Seq<Seq<char>>|
                path_wf(d1) && path_wf(d2) && #[trigger] remap_path(d1, f, t) == #[trigger]
                    remap_path(d2, f, t) && (pre.is_dir(d1) || pre.is_file(d1)) && (pre.is_dir(d2)
                    || pre.is_file(d2)) implies d1 == d2 by {
                if f.is_prefix_of(d1) && f.is_prefix_of(d2) {
                    lemma_seq_concat_skip(t, d1.skip(flen as int));
                    lemma_seq_concat_skip(t, d2.skip(flen as int));
                    lemma_seq_prefix_restore(f, d1);
                    lemma_seq_prefix_restore(f, d2);
                    assert(d1.skip(flen as int) == d2.skip(flen as int));
                } else if f.is_prefix_of(d1) && !f.is_prefix_of(d2) {
                    lemma_seq_concat_skip(t, d1.skip(flen as int));
                    assert(t.is_prefix_of(d2));
                    assert(!pre.occupied(d2));
                } else if !f.is_prefix_of(d1) && f.is_prefix_of(d2) {
                    lemma_seq_concat_skip(t, d2.skip(flen as int));
                    assert(t.is_prefix_of(d1));
                    assert(!pre.occupied(d1));
                }
            }
            // Well-formedness of each new key.
            assert forall|k: int|
                0 <= k < nd.len() implies path_wf(#[trigger] nd[k].deep_view())
                    && nd[k].deep_view().len() > 0 by {
                let d = pre.dirs@[k].deep_view();
                if f.is_prefix_of(d) {
                    lemma_path_wf_concat_skip(t, d, flen as int);
                }
            }
            assert forall|k: int|
                0 <= k < nf.len() implies path_wf(#[trigger] nf[k].0.deep_view())
                    && nf[k].0.deep_view().len() > 0 by {
                let d = pre.files@[k].0.deep_view();
                if f.is_prefix_of(d) {
                    lemma_path_wf_concat_skip(t, d, flen as int);
                }
            }
            assert forall|a: int, b: int|
                0 <= a < b < nd.len() implies #[trigger] nd[a].deep_view() != #[trigger] nd[
                b
            ].deep_view() by {
                let d1 = pre.dirs@[a].deep_view();
                let d2 = pre.dirs@[b].deep_view();
                assert(pre.is_dir(d1));
                assert(pre.is_dir(d2));
                assert(nd[a].deep_view() == remap_path(d1, f, t));
                assert(nd[b].deep_view() == remap_path(d2, f, t));
            }
            assert forall|a: int, b: int|
                0 <= a < b < nf.len() implies #[trigger] nf[a].0.deep_view() != #[trigger] nf[
                b
            ].0.deep_view() by {
                let d1 = pre.files@[a].0.deep_view();
                let d2 = pre.files@[b].0.deep_view();
                assert(pre.is_file(d1));
                assert(pre.is_file(d2));
                assert(nf[a].0.deep_view() == remap_path(d1, f, t));
                assert(nf[b].0.deep_view() == remap_path(d2, f, t));
            }
            assert forall|a: int, b: int|
                0 <= a < nf.len() && 0 <= b < nd.len() implies #[trigger] nf[a].0.deep_view()
                    != #[trigger] nd[b].deep_view() by {
                let d1 = pre.files@[a].0.deep_view();
                let d2 = pre.dirs@[b].deep_view();
                assert(pre.is_file(d1));
                assert(pre.is_dir(d2));
                assert(nf[a].0.deep_view() == remap_path(d1, f, t));
                assert(nd[b].deep_view() == remap_path(d2, f, t));
            }
            self.lemma_wf_parts();
            // Pointwise effect on directories.
            assert forall|q: Seq<Seq<char>>|
                #[trigger] self.is_dir(q) == ((pre.is_dir(q) && !f.is_prefix_of(q)) || (
                t.is_prefix_of(q) && pre.is_dir(f + q.skip(t.len() as int)))) by {
                if q.len() > 0 {
                    if self.is_dir(q) {
                        let k = choose|k: int|
                            0 <= k < self.dirs@.len() && #[trigger] self.dirs@[k].deep_view()
                                == q;
                        let d = pre.dirs@[k].deep_view();
                        assert(q == remap_path(d, f, t));
                        assert(pre.is_dir(d));
                        if f.is_prefix_of(d) {
                            assert(f + q.skip(t.len() as int) == d);
                        }
                    }
                    if pre.is_dir(q) && !f.is_prefix_of(q) {
                        let k = choose|k: int|
                            0 <= k < pre.dirs@.len() && #[trigger] pre.dirs@[k].deep_view() == q;
                        assert(self.dirs@[k].deep_view() == remap_path(q, f, t));
                        assert(self.dirs@[k].deep_view() == q);
                    }
                    if t.is_prefix_of(q) && pre.is_dir(f + q.skip(t.len() as int)) {
                        let d = f + q.skip(t.len() as int);
                        let k = choose|k: int|
                            0 <= k < pre.dirs@.len() && #[trigger] pre.dirs@[k].deep_view() == d;
                        lemma_seq_concat_skip(f, q.skip(t.len() as int));
                        assert(remap_path(d, f, t) == t + d.skip(flen as int));
                        lemma_seq_prefix_restore(t, q);
                        assert(self.dirs@[k].deep_view() == q);
                    }
                } else {
                    assert(!f.is_prefix_of(q));
                    assert(self.is_dir(q) && pre.is_dir(q));
                }
            }
            // Pointwise effect on files.
            assert forall|q: Seq<Seq<char>>|
                #[trigger] self.is_file(q) == ((pre.is_file(q) && !f.is_prefix_of(q)) || (
                t.is_prefix_of(q) && pre.is_file(f + q.skip(t.len() as int)))) by {
                if self.is_file(q) {
                    let k = choose|k: int|
                        0 <= k < self.files@.len() && #[trigger] self.files@[k].0.deep_view()
                            == q;
                    let d = pre.files@[k].0.deep_view();
                    assert(q == remap_path(d, f, t));
                    assert(pre.is_file(d));
                    if f.is_prefix_of(d) {
                        assert(f + q.skip(t.len() as int) == d);
                    }
                }
                if pre.is_file(q) && !f.is_prefix_of(q) {
                    let k = choose|k: int|
                        0 <= k < pre.files@.len() && #[trigger] pre.files@[k].0.deep_view() == q;
                    assert(self.files@[k].0.deep_view() == remap_path(q, f, t));
                    assert(self.files@[k].0.deep_view() == q);
                }
                if t.is_prefix_of(q) && pre.is_file(f + q.skip(t.len() as int)) {
                    let d = f + q.skip(t.len() as int);
                    let k = choose|k: int|
                        0 <= k < pre.files@.len() && #[trigger] pre.files@[k].0.deep_view() == d;
                    lemma_seq_concat_skip(f, q.skip(t.len() as int));
                    assert(remap_path(d, f, t) == t + d.skip(flen as int));
                    lemma_seq_prefix_restore(t, q);
                    assert(self.files@[k].0.deep_view() == q);
                }
            }
            // Contents carried over.
            assert forall|q: Seq<Seq<char>>|
                pre.is_file(q) && !f.is_prefix_of(q) implies #[trigger] self.file_bytes(q)
                == pre.file_bytes(q) by {
                let k = choose|k: int|
                    0 <= k < pre.files@.len() && #[trigger] pre.files@[k].0.deep_view() == q;
                pre.lemma_file_bytes_at(k);
                assert(self.files@[k].0.deep_view() == q);
                assert(self.files@[k].1@ == pre.files@[k].1@);
                self.lemma_file_bytes_at(k);
            }
            assert forall|q: Seq<Seq<char>>|
                t.is_prefix_of(q) && pre.is_file(f + q.skip(t.len() as int))
                implies #[trigger] self.file_bytes(q) == pre.file_bytes(
                f + q.skip(t.len() as int),
            ) by {
                let d = f + q.skip(t.len() as int);
                let k = choose|k: int|
                    0 <= k < pre.files@.len() && #[trigger] pre.files@[k].0.deep_view() == d;
                pre.lemma_file_bytes_at(k);
                lemma_seq_concat_skip(f, q.skip(t.len() as int));
                assert(remap_path(d, f, t) == t + d.skip(flen as int));
                lemma_seq_prefix_restore(t, q);
                assert(self.files@[k].0.deep_view() == q);
                assert(self.files@[k].1@ == pre.files@[k].1@);
                self.lemma_file_bytes_at(k);
            }
        }
        Ok(())
    }
}

/// The listing `es` is exactly the set of direct children of `p` in `s`:
/// every entry is a real child with its definite classification, every
/// child appears, and no name appears twice.
pub open spec fn listing_of(s: FileStore, p: Seq<Seq<char>>, es: Seq<EntryDescriptor>) -> bool {
    &&& forall|k: int|
        #![trigger es[k]]
        0 <= k < es.len() ==> (es[k].kind == EntryKind::Directory && s.is_dir(p.push(es[k].name@)))
            || (es[k].kind == EntryKind::File && s.is_file(p.push(es[k].name@)))
    &&& forall|nm: Seq<char>|
        #![trigger p.push(nm)]
        s.occupied(p.push(nm)) ==> exists|k: int| 0 <= k < es.len() && es[k].name@ == nm
    &&& forall|k1: int, k2: int|
        #![trigger es[k1], es[k2]]
        0 <= k1 < k2 < es.len() ==> es[k1].name@ != es[k2].name@
}

/// A freshly created directory has no children.  If nothing existed strictly
/// below `p` before `mkdir_all(p)` succeeded, then afterwards no child of
/// `p` exists, so a listing of `p` is the empty sequence, not an error.
pub proof fn lemma_fresh_directory_is_empty(
    pre: FileStore,
    post: FileStore,
    p: Seq<Seq<char>>,
    s: Seq<char>,
)
    requires
        forall|q: Seq<Seq<char>>| #[trigger] post.is_dir(q) == (pre.is_dir(q) || q.is_prefix_of(p)),
        forall|q: Seq<Seq<char>>| #[trigger] post.is_file(q) == pre.is_file(q),
        forall|q: Seq<Seq<char>>| p.is_prefix_of(q) && q != p ==> !(#[trigger] pre.occupied(q)),
    ensures
        !post.occupied(p.push(s)),
{
    let c = p.push(s);
    assert(p.is_prefix_of(c)) by {
        assert(p =~= c.subrange(0, p.len() as int));
    }
    assert(c != p) by {
        assert(c.len() != p.len());
    }
    assert(!pre.occupied(c));
    assert(!c.is_prefix_of(p)) by {
        assert(c.len() > p.len());
    }
}

/// Round trip: writing bytes at `p` and immediately reading `p` back, with
/// no operation in between, returns exactly the written bytes.
pub proof fn lemma_write_read_round_trip(
    pre: FileStore,
    post: FileStore,
    p: Seq<Seq<char>>,
    bytes: Seq<u8>,
)
    requires
        forall|q: Seq<Seq<char>>| #[trigger] post.is_file(q) == (pre.is_file(q) || q == p),
        post.file_bytes(p) == bytes,
    ensures
        post.is_file(p),
        post.file_bytes(p) == bytes,
{
    assert(post.is_file(p));
}

/// Where a key below `from` moves to: the destination followed by the key's
/// suffix below `from`; a key not below `from` stays put.
pub open spec fn remap_path(
    q: Seq<Seq<char>>,
    from: Seq<Seq<char>>,
    to: Seq<Seq<char>>,
) -> Seq<Seq<char>> {
    if from.is_prefix_of(q) {
        to + q.skip(from.len() as int)
    } else {
        q
    }
}

/// Appending a suffix and skipping it back are inverses.
proof fn lemma_seq_concat_skip(a: Seq<Seq<char>>, r: Seq<Seq<char>>)
    ensures
        (a + r).skip(a.len() as int) == r,
        a.is_prefix_of(a + r),
{
    assert((a + r).skip(a.len() as int) =~= r);
    assert(a =~= (a + r).subrange(0, a.len() as int));
}

/// A prefix followed by the remainder is the whole.
proof fn lemma_seq_prefix_restore(a: Seq<Seq<char>>, b: Seq<Seq<char>>)
    requires
        a.is_prefix_of(b),
    ensures
        a + b.skip(a.len() as int) == b,
{
    assert(a + b.skip(a.len() as int) =~= b);
}

/// A destination key made of two well-formed parts is well-formed.
proof fn lemma_path_wf_concat_skip(t: Seq<Seq<char>>, d: Seq<Seq<char>>, flen: int)
    requires
        path_wf(t),
        path_wf(d),
        0 <= flen <= d.len(),
    ensures
        path_wf(t + d.skip(flen)),
{
    let w = t + d.skip(flen);
    assert forall|i: int|
        0 <= i < w.len() implies is_normal_seg(#[trigger] w[i]) && sep_free(w[i]) by {
        if i < t.len() {
            assert(w[i] == t[i]);
        } else {
            assert(w[i] == d[i - t.len() + flen]);
        }
    }
}

/// The destination key for a source key below the moved directory: the
/// destination segments followed by the key's suffix.
fn remap_key(key: &Vec<String>, flen: usize, tsegs: &Vec<String>) -> (r: Vec<String>)
    requires
        flen <= key@.len(),
    ensures
        r.deep_view() == tsegs.deep_view() + key.deep_view().skip(flen as int),
{
    let mut r = clone_segs(tsegs);
    proof {
        assert(r.deep_view() =~= tsegs.deep_view() + key.deep_view().subrange(
            flen as int,
            flen as int,
        ));
    }
    let mut i: usize = flen;
    while i < key.len()
        invariant
            flen <= i <= key@.len(),
            r.deep_view() == tsegs.deep_view() + key.deep_view().subrange(flen as int, i as int),
            r@.len() == tsegs@.len() + i - flen,
        decreases key@.len() - i,
    {
        let ghost r0 = r.deep_view();
        let ghost rv0 = r@;
        let x = key[i].clone();
        proof {
            assert(x@ == key.deep_view()[i as int]);
        }
        r.push(x);
        proof {
            assert(r@ == rv0.push(x));
            let goal = tsegs.deep_view() + key.deep_view().subrange(flen as int, i as int + 1);
            assert forall|m: int| 0 <= m < r@.len() implies r.deep_view()[m] == goal[m] by {
                if m < rv0.len() {
                    assert(r@[m] == rv0[m]);
                    assert(r.deep_view()[m] == r0[m]);
                } else {
                    assert(r@[m] == x);
                }
            }
            assert(r.deep_view() =~= goal);
        }
        i = i + 1;
    }
    proof {
        assert(key.deep_view().subrange(flen as int, key.deep_view().len() as int)
            =~= key.deep_view().skip(flen as int));
        assert(r.deep_view() =~= tsegs.deep_view() + key.deep_view().skip(flen as int));
    }
    r
}

/// The first `k` segments of a segment list, as a fresh list.
pub(crate) fn prefix_of(v: &Vec<String>, k: usize) -> (r: Vec<String>)
    requires
        k <= v@.len(),
    ensures
        r.deep_view() == v.deep_view().take(k as int),
{
    let mut r: Vec<String> = Vec::new();
    let mut i: usize = 0;
    while i < k
        invariant
            i <= k <= v@.len(),
            r@.len() == i,
            r.deep_view() == v.deep_view().take(i as int),
        decreases k - i,
    {
        r.push(v[i].clone());
        proof {
            assert(r.deep_view() =~= v.deep_view().take(i as int + 1));
        }
        i = i + 1;
    }
    r
}

/// Byte-for-byte copy of a buffer.
pub(crate) fn clone_bytes(v: &Vec<u8>) -> (r: Vec<u8>)
    ensures
        r@ == v@,
{
    let mut r: Vec<u8> = Vec::new();
    let mut i: usize = 0;
    while i < v.len()
        invariant
            i <= v@.len(),
            r@ == v@.take(i as int),
        decreases v@.len() - i,
    {
        r.push(v[i]);
        proof {
            assert(r@ =~= v@.take(i as int + 1));
        }
        i = i + 1;
    }
    proof {
        assert(v@.take(v@.len() as int) =~= v@);
    }
    r
}

/// Segment-by-segment copy of a segment list.
pub(crate) fn clone_segs(v: &Vec<String>) -> (r: Vec<String>)
    ensures
        r.deep_view() == v.deep_view(),
{
    let mut r: Vec<String> = Vec::new();
    let mut i: usize = 0;
    while i < v.len()
        invariant
            i <= v@.len(),
            r@.len() == i,
            r.deep_view() == v.deep_view().take(i as int),
        decreases v@.len() - i,
    {
        r.push(v[i].clone());
        proof {
            assert(r.deep_view() =~= v.deep_view().take(i as int + 1));
        }
        i = i + 1;
    }
    proof {
        assert(v.deep_view().take(v@.len() as int) =~= v.deep_view());
    }
    r
}

/// Equality of two segment lists, by their character sequences.
pub(crate) fn seg_lists_equal(a: &Vec<String>, b: &Vec<String>) -> (r: bool)
    ensures
        r == (a.deep_view() == b.deep_view()),
{
    if a.len() != b.len() {
        proof {
            assert(a.deep_view().len() != b.deep_view().len());
        }
        return false;
    }
    let mut i: usize = 0;
    while i < a.len()
        invariant
            i <= a@.len() == b@.len(),
            forall|j: int| 0 <= j < i ==> a.deep_view()[j] == b.deep_view()[j],
        decreases a@.len() - i,
    {
        if !strings_equal(&a[i], &b[i]) {
            proof {
                assert(a.deep_view()[i as int] != b.deep_view()[i as int]);
            }
            return false;
        }
        i = i + 1;
    }
    proof {
        assert(a.deep_view() =~= b.deep_view());
    }
    true
}

/// All but the last segment of a non-empty segment list.
pub(crate) fn parent_of(v: &Vec<String>) -> (r: Vec<String>)
    requires
        v@.len() > 0,
    ensures
        r.deep_view() == v.deep_view().drop_last(),
{
    let mut r: Vec<String> = Vec::new();
    let mut i: usize = 0;
    while i < v.len() - 1
        invariant
            v@.len() > 0,
            i <= v@.len() - 1,
            r@.len() == i,
            r.deep_view() == v.deep_view().take(i as int),
        decreases v@.len() - 1 - i,
    {
        r.push(v[i].clone());
        proof {
            assert(r.deep_view() =~= v.deep_view().take(i as int + 1));
        }
        i = i + 1;
    }
    proof {
        assert(v.deep_view().take(v@.len() - 1) =~= v.deep_view().drop_last());
    }
    r
}

} // verus!
