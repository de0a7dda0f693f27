//! The file manager: the raw-string interface over the sandboxed core.
//! Every method first resolves its request path against the root and then
//! performs exactly one store operation on the result; a raw string never
//! reaches the operations layer.

use vstd::prelude::*;
use crate::paths::{resolve_spec, resolve_request_path, PathError, ResolvedPath};
use crate::store::{listing_of, EntryDescriptor, EntryKind, FileStore, IoError};

verus! {

/// A failure of a file-manager operation: either the request path was
/// refused by the resolver, or the store operation itself failed.
#[derive(Clone, Copy, PartialEq, Eq, Structural, Debug)]
pub enum FmError {
    Path(PathError),
    Io(IoError),
}

/// The managed tree together with the resolution front door.
pub struct FileManager {
    /// The operations layer over the managed tree.
    pub store: FileStore,
}

impl FileManager {
    /// Validity of the managed tree.
    pub open spec fn wf(&self) -> bool {
        self.store.wf()
    }

    /// A manager over an empty tree: just the root directory.
    pub fn new() -> (fm: Self)
        ensures
            fm.wf(),
            forall|q: Seq<Seq<char>>| #[trigger] fm.store.is_dir(q) == (q.len() == 0),
            forall|q: Seq<Seq<char>>| !(#[trigger] fm.store.is_file(q)),
    {
        FileManager { store: FileStore::new() }
    }

    /// Resolve a raw request path to a location inside the root, or refuse
    /// it as an escape attempt.  This is the structural stage; a caller
    /// operating on a real filesystem must additionally canonicalize the
    /// result (resolving symlinks) and re-check it with
    /// [`crate::paths::confirm_containment`], whose contract makes any
    /// canonical form outside the root — however the structural path
    /// looked — an escape.
    pub fn resolve_path(&self, rel_path: &str) -> (r: Result<ResolvedPath, PathError>)
        ensures
            match r {
                Ok(p) => resolve_spec(rel_path@) == Some(p@) && p.wf(),
                Err(e) => e == PathError::Escape && resolve_spec(rel_path@) is None,
            },
    {
        resolve_request_path(rel_path)
    }

    /// Determine what the resolved path denotes: nothing, a file, or a
    /// directory.  "Nothing" is a valid outcome, not an error.
    pub fn path_type(&self, relative_path: &str) -> (r: Result<EntryKind, FmError>)
        requires
            self.wf(),
        ensures
            match r {
                Ok(k) => resolve_spec(relative_path@) is Some && k == self.store.entry_kind(
                    resolve_spec(relative_path@).unwrap(),
                ),
                Err(e) => e == FmError::Path(PathError::Escape) && resolve_spec(relative_path@)
                    is None,
            },
    {
        match self.resolve_path(relative_path) {
            Ok(p) => Ok(self.store.stat(&p)),
            Err(e) => Err(FmError::Path(e)),
        }
    }

    /// List the direct children of the resolved directory.
    pub fn list_directory(&self, relative_path: &str) -> (r: Result<
        Vec<EntryDescriptor>,
        FmError,
    >)
        requires
            self.wf(),
        ensures
            match r {
                Ok(es) => resolve_spec(relative_path@) is Some && self.store.is_dir(
                    resolve_spec(relative_path@).unwrap(),
                ) && listing_of(self.store, resolve_spec(relative_path@).unwrap(), es@),
                Err(FmError::Path(e)) => e == PathError::Escape && resolve_spec(relative_path@)
                    is None,
                Err(FmError::Io(e)) => e == IoError::NotADirectory && resolve_spec(relative_path@)
                    is Some && !self.store.is_dir(resolve_spec(relative_path@).unwrap()),
            },
    {
        match self.resolve_path(relative_path) {
            Ok(p) => match self.store.list(&p) {
                Ok(es) => Ok(es),
                Err(e) => Err(FmError::Io(e)),
            },
            Err(e) => Err(FmError::Path(e)),
        }
    }

    /// Create the resolved directory and any missing ancestors; idempotent.
    pub fn create_directory(&mut self, relative_path: &str) -> (r: Result<(), FmError>)
        requires
            old(self).wf(),
        ensures
            final(self).wf(),
            r is Ok ==> resolve_spec(relative_path@) is Some,
            r is Ok ==> forall|q: Seq<Seq<char>>|
                #[trigger] final(self).store.is_dir(q) == (old(self).store.is_dir(q)
                    || q.is_prefix_of(resolve_spec(relative_path@).unwrap())),
            r is Ok ==> forall|q: Seq<Seq<char>>|
                #[trigger] final(self).store.is_file(q) == old(self).store.is_file(q),
            r is Ok ==> forall|q: Seq<Seq<char>>|
                old(self).store.is_file(q) ==> #[trigger] final(self).store.file_bytes(q) == old(
                    self,
                ).store.file_bytes(q),
            r is Err ==> final(self).store.unchanged_from(&old(self).store),
            match r {
                Ok(()) => true,
                Err(FmError::Path(e)) => e == PathError::Escape && resolve_spec(relative_path@)
                    is None,
                Err(FmError::Io(e)) => e == IoError::NotADirectory && resolve_spec(relative_path@)
                    is Some && exists|k: int|
                    1 <= k <= resolve_spec(relative_path@).unwrap().len() && old(
                        self,
                    ).store.is_file(#[trigger] resolve_spec(relative_path@).unwrap().take(k)),
            },
    {
        match self.resolve_path(relative_path) {
            Ok(p) => match self.store.mkdir_all(&p) {
                Ok(()) => Ok(()),
                Err(e) => {
                    proof {
                        assert(resolve_spec(relative_path@).unwrap() == p@);
                        let k = choose|k: int|
                            1 <= k <= p@.len() && old(self).store.is_file(#[trigger] p@.take(k));
                        assert(old(self).store.is_file(
                            resolve_spec(relative_path@).unwrap().take(k),
                        ));
                    }
                    Err(FmError::Io(e))
                },
            },
            Err(e) => Err(FmError::Path(e)),
        }
    }

    /// Create or truncate the resolved file with the given contents.  The
    /// parent directory must already exist.
    pub fn write_file_contents(&mut self, rel_path: &str, contents: &Vec<u8>) -> (r: Result<
        (),
        FmError,
    >)
        requires
            old(self).wf(),
        ensures
            final(self).wf(),
            r is Ok ==> ({
                let p = resolve_spec(rel_path@).unwrap();
                &&& resolve_spec(rel_path@) is Some
                &&& p.len() > 0
                &&& !old(self).store.is_dir(p)
                &&& old(self).store.is_dir(p.drop_last())
                &&& final(self).store.file_bytes(p) == contents@
            }),
            r is Ok ==> forall|q: Seq<Seq<char>>|
                #[trigger] final(self).store.is_dir(q) == old(self).store.is_dir(q),
            r is Ok ==> forall|q: Seq<Seq<char>>|
                #[trigger] final(self).store.is_file(q) == (old(self).store.is_file(q) || q
                    == resolve_spec(rel_path@).unwrap()),
            r is Ok ==> forall|q: Seq<Seq<char>>|
                old(self).store.is_file(q) && q != resolve_spec(rel_path@).unwrap()
                    ==> #[trigger] final(self).store.file_bytes(q) == old(self).store.file_bytes(
                    q,
                ),
            r is Err ==> final(self).store.unchanged_from(&old(self).store),
            match r {
                Ok(()) => true,
                Err(FmError::Path(e)) => e == PathError::Escape && resolve_spec(rel_path@)
                    is None,
                Err(FmError::Io(e)) => resolve_spec(rel_path@) is Some && ({
                    let p = resolve_spec(rel_path@).unwrap();
                    (e == IoError::NotAFile && (p.len() == 0 || old(self).store.is_dir(p))) || (e
                        == IoError::NotFound && p.len() > 0 && !old(self).store.is_dir(p) && !old(
                        self,
                    ).store.is_dir(p.drop_last()))
                }),
            },
    {
        match self.resolve_path(rel_path) {
            Ok(p) => match self.store.write(&p, contents) {
                Ok(()) => Ok(()),
                Err(e) => Err(FmError::Io(e)),
            },
            Err(e) => Err(FmError::Path(e)),
        }
    }

    /// Create the resolved file empty, or truncate an existing one.
    pub fn create_file(&mut self, rel_file_path: &str) -> (r: Result<(), FmError>)
        requires
            old(self).wf(),
        ensures
            final(self).wf(),
            r is Ok ==> ({
                let p = resolve_spec(rel_file_path@).unwrap();
                &&& resolve_spec(rel_file_path@) is Some
                &&& p.len() > 0
                &&& final(self).store.is_file(p)
                &&& final(self).store.file_bytes(p) == Seq::<u8>::empty()
            }),
            r is Ok ==> forall|q: Seq<Seq<char>>|
                #[trigger] final(self).store.is_dir(q) == old(self).store.is_dir(q),
            r is Ok ==> forall|q: Seq<Seq<char>>|
                #[trigger] final(self).store.is_file(q) == (old(self).store.is_file(q) || q
                    == resolve_spec(rel_file_path@).unwrap()),
            r is Ok ==> forall|q: Seq<Seq<char>>|
                old(self).store.is_file(q) && q != resolve_spec(rel_file_path@).unwrap()
                    ==> #[trigger] final(self).store.file_bytes(q) == old(self).store.file_bytes(
                    q,
                ),
            r is Err ==> final(self).store.unchanged_from(&old(self).store),
            match r {
                Ok(()) => true,
                Err(FmError::Path(e)) => e == PathError::Escape && resolve_spec(rel_file_path@)
                    is None,
                Err(FmError::Io(e)) => resolve_spec(rel_file_path@) is Some && ({
                    let p = resolve_spec(rel_file_path@).unwrap();
                    (e == IoError::NotAFile && (p.len() == 0 || old(self).store.is_dir(p))) || (e
                        == IoError::NotFound && p.len() > 0 && !old(self).store.is_dir(p) && !old(
                        self,
                    ).store.is_dir(p.drop_last()))
                }),
            },
    {
        let empty: Vec<u8> = Vec::new();
        match self.write_file_contents(rel_file_path, &empty) {
            Ok(()) => {
                proof {
                    let p = resolve_spec(rel_file_path@).unwrap();
                    assert(self.store.is_file(p));
                }
                Ok(())
            },
            Err(e) => Err(e),
        }
    }

    /// Read the whole contents of the resolved file.
    pub fn read_file_contents(&self, rel_file_path: &str) -> (r: Result<Vec<u8>, FmError>)
        requires
            self.wf(),
        ensures
            match r {
                Ok(b) => resolve_spec(rel_file_path@) is Some && self.store.is_file(
                    resolve_spec(rel_file_path@).unwrap(),
                ) && b@ == self.store.file_bytes(resolve_spec(rel_file_path@).unwrap()),
                Err(FmError::Path(e)) => e == PathError::Escape && resolve_spec(rel_file_path@)
                    is None,
                Err(FmError::Io(e)) => resolve_spec(rel_file_path@) is Some && ({
                    let p = resolve_spec(rel_file_path@).unwrap();
                    (e == IoError::NotAFile && self.store.is_dir(p)) || (e == IoError::NotFound
                        && !self.store.occupied(p))
                }),
            },
    {
        match self.resolve_path(rel_file_path) {
            Ok(p) => match self.store.read(&p) {
                Ok(b) => Ok(b),
                Err(e) => Err(FmError::Io(e)),
            },
            Err(e) => Err(FmError::Path(e)),
        }
    }

    /// Delete the resolved file.
    pub fn delete_file(&mut self, relative_path: &str) -> (r: Result<(), FmError>)
        requires
            old(self).wf(),
        ensures
            final(self).wf(),
            r is Ok ==> resolve_spec(relative_path@) is Some && old(self).store.is_file(
                resolve_spec(relative_path@).unwrap(),
            ),
            r is Ok ==> forall|q: Seq<Seq<char>>|
                #[trigger] final(self).store.is_dir(q) == old(self).store.is_dir(q),
            r is Ok ==> forall|q: Seq<Seq<char>>|
                #[trigger] final(self).store.is_file(q) == (old(self).store.is_file(q) && q
                    != resolve_spec(relative_path@).unwrap()),
            r is Ok ==> forall|q: Seq<Seq<char>>|
                old(self).store.is_file(q) && q != resolve_spec(relative_path@).unwrap()
                    ==> #[trigger] final(self).store.file_bytes(q) == old(self).store.file_bytes(
                    q,
                ),
            r is Err ==> final(self).store.unchanged_from(&old(self).store),
            match r {
                Ok(()) => true,
                Err(FmError::Path(e)) => e == PathError::Escape && resolve_spec(relative_path@)
                    is None,
                Err(FmError::Io(e)) => resolve_spec(relative_path@) is Some && ({
                    let p = resolve_spec(relative_path@).unwrap();
                    (e == IoError::NotAFile && old(self).store.is_dir(p)) || (e
                        == IoError::NotFound && !old(self).store.occupied(p))
                }),
            },
    {
        match self.resolve_path(relative_path) {
            Ok(p) => match self.store.delete_file(&p) {
                Ok(()) => Ok(()),
                Err(e) => Err(FmError::Io(e)),
            },
            Err(e) => Err(FmError::Path(e)),
        }
    }

    /// Delete the resolved directory and everything below it.  The root
    /// itself is never deleted: a request that resolves to the root is
    /// refused before the operations layer is reached.
    pub fn delete_directory(&mut self, relative_path: &str) -> (r: Result<(), FmError>)
        requires
            old(self).wf(),
        ensures
            final(self).wf(),
            r is Ok ==> ({
                let p = resolve_spec(relative_path@).unwrap();
                resolve_spec(relative_path@) is Some && p.len() > 0 && old(self).store.is_dir(p)
            }),
            r is Ok ==> forall|q: Seq<Seq<char>>|
                #[trigger] final(self).store.is_dir(q) == (old(self).store.is_dir(q)
                    && !resolve_spec(relative_path@).unwrap().is_prefix_of(q)),
            r is Ok ==> forall|q: Seq<Seq<char>>|
                #[trigger] final(self).store.is_file(q) == (old(self).store.is_file(q)
                    && !resolve_spec(relative_path@).unwrap().is_prefix_of(q)),
            r is Ok ==> forall|q: Seq<Seq<char>>|
                old(self).store.is_file(q) && !resolve_spec(relative_path@).unwrap().is_prefix_of(
                    q,
                ) ==> #[trigger] final(self).store.file_bytes(q) == old(self).store.file_bytes(q),
            r is Err ==> final(self).store.unchanged_from(&old(self).store),
            match r {
                Ok(()) => true,
                Err(FmError::Path(e)) => e == PathError::Escape && resolve_spec(relative_path@)
                    is None,
                Err(FmError::Io(e)) => resolve_spec(relative_path@) is Some && ({
                    let p = resolve_spec(relative_path@).unwrap();
                    (p.len() == 0 && e == IoError::Other) || (p.len() > 0 && ((e
                        == IoError::NotADirectory && old(self).store.is_file(p)) || (e
                        == IoError::NotFound && !old(self).store.occupied(p))))
                }),
            },
    {
        match self.resolve_path(relative_path) {
            Ok(p) => {
                if p.is_root() {
                    return Err(FmError::Io(IoError::Other));
                }
                match self.store.delete_tree(&p) {
                    Ok(()) => Ok(()),
                    Err(e) => Err(FmError::Io(e)),
                }
            },
            Err(e) => Err(FmError::Path(e)),
        }
    }

    /// Move or rename the resolved source to the resolved destination.  The
    /// root itself is never moved: a source that resolves to the root is
    /// refused before the operations layer is reached.
    pub fn move_file_or_directory(&mut self, from_relative_path: &str, to_relative_path: &str) -> (r:
        Result<(), FmError>)
        requires
            old(self).wf(),
        ensures
            final(self).wf(),
            r is Ok ==> ({
                let f = resolve_spec(from_relative_path@).unwrap();
                let t = resolve_spec(to_relative_path@).unwrap();
                &&& resolve_spec(from_relative_path@) is Some
                &&& resolve_spec(to_relative_path@) is Some
                &&& f.len() > 0
                &&& t.len() > 0
                &&& old(self).store.occupied(f)
                &&& old(self).store.is_dir(t.drop_last())
                &&& !f.is_prefix_of(t)
                &&& forall|qq: Seq<Seq<char>>|
                    #[trigger] t.is_prefix_of(qq) ==> !old(self).store.occupied(qq)
            }),
            r is Ok ==> forall|q: Seq<Seq<char>>|
                #[trigger] final(self).store.is_dir(q) == ((old(self).store.is_dir(q)
                    && !resolve_spec(from_relative_path@).unwrap().is_prefix_of(q)) || (
                resolve_spec(to_relative_path@).unwrap().is_prefix_of(q) && old(
                    self,
                ).store.is_dir(
                    resolve_spec(from_relative_path@).unwrap() + q.skip(
                        resolve_spec(to_relative_path@).unwrap().len() as int,
                    ),
                ))),
            r is Ok ==> forall|q: Seq<Seq<char>>|
                #[trigger] final(self).store.is_file(q) == ((old(self).store.is_file(q)
                    && !resolve_spec(from_relative_path@).unwrap().is_prefix_of(q)) || (
                resolve_spec(to_relative_path@).unwrap().is_prefix_of(q) && old(
                    self,
                ).store.is_file(
                    resolve_spec(from_relative_path@).unwrap() + q.skip(
                        resolve_spec(to_relative_path@).unwrap().len() as int,
                    ),
                ))),
            r is Ok ==> forall|q: Seq<Seq<char>>|
                old(self).store.is_file(q) && !resolve_spec(
                    from_relative_path@,
                ).unwrap().is_prefix_of(q) ==> #[trigger] final(self).store.file_bytes(q) == old(
                    self,
                ).store.file_bytes(q),
            r is Ok ==> forall|q: Seq<Seq<char>>|
                resolve_spec(to_relative_path@).unwrap().is_prefix_of(q) && old(
                    self,
                ).store.is_file(
                    resolve_spec(from_relative_path@).unwrap() + q.skip(
                        resolve_spec(to_relative_path@).unwrap().len() as int,
                    ),
                ) ==> #[trigger] final(self).store.file_bytes(q) == old(self).store.file_bytes(
                    resolve_spec(from_relative_path@).unwrap() + q.skip(
                        resolve_spec(to_relative_path@).unwrap().len() as int,
                    ),
                ),
            r is Err ==> final(self).store.unchanged_from(&old(self).store),
            match r {
                Ok(()) => true,
                Err(FmError::Path(e)) => e == PathError::Escape && (resolve_spec(
                    from_relative_path@,
                ) is None || resolve_spec(to_relative_path@) is None),
                Err(FmError::Io(e)) => resolve_spec(from_relative_path@) is Some && resolve_spec(
                    to_relative_path@,
                ) is Some && ({
                    let f = resolve_spec(from_relative_path@).unwrap();
                    let t = resolve_spec(to_relative_path@).unwrap();
                    (f.len() == 0 && e == IoError::Other) || (f.len() > 0 && ((e
                        == IoError::NotFound && !old(self).store.occupied(f)) || (e
                        == IoError::Other && old(self).store.occupied(f) && exists|
                        qq: Seq<Seq<char>>,
                    |
                        #[trigger] t.is_prefix_of(qq) && old(self).store.occupied(qq)) || (e
                        == IoError::NotFound && old(self).store.occupied(f) && !old(
                        self,
                    ).store.is_dir(t.drop_last()) && (forall|qq: Seq<Seq<char>>|
                        #[trigger] t.is_prefix_of(qq) ==> !old(self).store.occupied(qq))) || (e
                        == IoError::Other && old(self).store.occupied(f) && old(self).store.is_dir(
                        t.drop_last(),
                    ) && f.is_prefix_of(t) && (forall|qq: Seq<Seq<char>>|
                        #[trigger] t.is_prefix_of(qq) ==> !old(self).store.occupied(qq)))))
                }),
            },
    {
        let from_p = match self.resolve_path(from_relative_path) {
            Ok(p) => p,
            Err(e) => {
                return Err(FmError::Path(e));
            },
        };
        let to_p = match self.resolve_path(to_relative_path) {
            Ok(p) => p,
            Err(e) => {
                return Err(FmError::Path(e));
            },
        };
        if from_p.is_root() {
            return Err(FmError::Io(IoError::Other));
        }
        match self.store.rename(&from_p, &to_p) {
            Ok(()) => Ok(()),
            Err(e) => Err(FmError::Io(e)),
        }
    }
}

} // verus!
