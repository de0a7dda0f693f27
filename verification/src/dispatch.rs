//! The request dispatcher: maps an inbound (method, path, payload) tuple to
//! one file-manager operation and produces a structured outcome.
//!
//! Policy decisions live here: a request that escapes the root and a
//! request for something that does not exist are indistinguishable to the
//! caller — the same rejection kind and the same message; permission and
//! volume problems are distinguishable failures; and a delete or move whose
//! source is the root itself is rejected before any store operation,
//! whatever the tree looks like.

use vstd::prelude::*;
use crate::paths::resolve_spec;
use crate::store::{listing_of, EntryDescriptor, EntryKind, IoError};
use crate::file_manager::{FileManager, FmError};

verus! {

/// The request methods the dispatcher understands.
#[derive(Clone, Copy, PartialEq, Eq, Structural, Debug)]
pub enum Method {
    Get,
    Post,
    Put,
    Delete,
    MkCol,
}

/// One operation on the managed tree, parsed from a request.
pub enum Operation {
    /// Serve the target: a listing for a directory, contents for a file.
    Read,
    /// List the target directory.
    List,
    /// Create or replace the target file with the given bytes.
    Write(Vec<u8>),
    /// Delete the target file or directory tree.
    Delete,
    /// Move the target to the destination path.
    Move(String),
    /// Create the target directory.
    CreateDirectory,
}

/// Why a request was rejected before or instead of performing its effect.
#[derive(Clone, Copy, PartialEq, Eq, Structural, Debug)]
pub enum RejectKind {
    /// The target does not exist — or tried to escape the root, which is
    /// deliberately indistinguishable.
    NotFound,
    /// The request named the root itself as the target of a delete or the
    /// source of a move.
    RootGuard,
    /// The request was malformed: a write without a payload, or a move
    /// without a destination.
    BadRequest,
}

/// An operational failure an operator should look at.
#[derive(Clone, Copy, PartialEq, Eq, Structural, Debug)]
pub enum FailKind {
    PermissionDenied,
    CrossVolume,
    Io,
}

/// The structured outcome of one request.
pub enum Outcome {
    /// A directory listing was served.
    Listing(Vec<EntryDescriptor>),
    /// File contents were served, with a suggested filename.
    FileBytes(Vec<u8>, String),
    /// The effect was performed.
    Accepted,
    /// The request was refused by policy, with a caller-safe message.
    Rejected(RejectKind, String),
    /// The operation failed, with a caller-safe message.
    Failed(FailKind, String),
}

/// What a read-intent request does, given what the target is: a directory
/// is served as a listing, a file as its contents, anything else is
/// rejected as not found.
#[derive(Clone, Copy, PartialEq, Eq, Structural, Debug)]
pub enum ReadAction {
    ServeListing,
    ServeFile,
    Reject,
}

/// The read-intent decision on the target's classification alone.
pub fn read_action(kind: EntryKind) -> (a: ReadAction)
    ensures
        (a == ReadAction::ServeListing) <==> (kind == EntryKind::Directory),
        (a == ReadAction::ServeFile) <==> (kind == EntryKind::File),
        (a == ReadAction::Reject) <==> (kind == EntryKind::Missing || kind == EntryKind::Other),
{
    match kind {
        EntryKind::Directory => ReadAction::ServeListing,
        EntryKind::File => ReadAction::ServeFile,
        EntryKind::Missing => ReadAction::Reject,
        EntryKind::Other => ReadAction::Reject,
    }
}

/// Parse a method, optional payload and optional destination into an
/// operation; a write needs a payload and a move needs a destination.
pub fn parse_request(method: Method, payload: Option<Vec<u8>>, destination: Option<String>) -> (r:
    Option<Operation>)
    ensures
        match r {
            Some(Operation::Read) => method == Method::Get,
            Some(Operation::Write(b)) => method == Method::Post && (payload matches Some(pl)
                && b@ == pl@),
            Some(Operation::Move(d)) => method == Method::Put && (destination matches Some(ds)
                && d@ == ds@),
            Some(Operation::Delete) => method == Method::Delete,
            Some(Operation::CreateDirectory) => method == Method::MkCol,
            Some(Operation::List) => false,
            None => (method == Method::Post && payload is None) || (method == Method::Put
                && destination is None),
        },
{
    match method {
        Method::Get => Some(Operation::Read),
        Method::Post => match payload {
            Some(b) => Some(Operation::Write(b)),
            None => None,
        },
        Method::Put => match destination {
            Some(d) => Some(Operation::Move(d)),
            None => None,
        },
        Method::Delete => Some(Operation::Delete),
        Method::MkCol => Some(Operation::CreateDirectory),
    }
}

/// Classify a store failure for the caller: missing or mistyped targets are
/// a not-found-class rejection with one fixed message; permission and
/// volume problems surface as distinguishable failures; raw error detail is
/// never forwarded.
pub fn classify_io_error(e: IoError) -> (out: Outcome)
    ensures
        match out {
            Outcome::Rejected(k, m) => k == RejectKind::NotFound && m@ == "not found"@ && (e
                == IoError::NotFound || e == IoError::NotADirectory || e == IoError::NotAFile),
            Outcome::Failed(k, m) => (k == FailKind::PermissionDenied && e
                == IoError::PermissionDenied && m@ == "permission denied"@) || (k
                == FailKind::CrossVolume && e == IoError::CrossVolume && m@
                == "cannot move across volumes"@) || (k == FailKind::Io && e == IoError::Other
                && m@ == "operation failed"@),
            _ => false,
        },
{
    match e {
        IoError::NotFound => Outcome::Rejected(RejectKind::NotFound, String::from_str("not found")),
        IoError::NotADirectory => Outcome::Rejected(
            RejectKind::NotFound,
            String::from_str("not found"),
        ),
        IoError::NotAFile => Outcome::Rejected(RejectKind::NotFound, String::from_str("not found")),
        IoError::PermissionDenied => Outcome::Failed(
            FailKind::PermissionDenied,
            String::from_str("permission denied"),
        ),
        IoError::CrossVolume => Outcome::Failed(
            FailKind::CrossVolume,
            String::from_str("cannot move across volumes"),
        ),
        IoError::Other => Outcome::Failed(FailKind::Io, String::from_str("operation failed")),
    }
}

/// A rejection for a path that escaped the root: deliberately the same
/// kind and the same message a missing target gets.
fn reject_not_found() -> (out: Outcome)
    ensures
        out matches Outcome::Rejected(k, m) && k == RejectKind::NotFound && m@ == "not found"@,
{
    Outcome::Rejected(RejectKind::NotFound, String::from_str("not found"))
}

/// The rejection for a delete or move that names the root itself.
fn reject_root_guard() -> (out: Outcome)
    ensures
        out matches Outcome::Rejected(k, m) && k == RejectKind::RootGuard && m@
            == "refusing to touch the root"@,
{
    Outcome::Rejected(RejectKind::RootGuard, String::from_str("refusing to touch the root"))
}

/// The filename suggested when serving a file: its last path segment.
fn suggested_name(p: &crate::paths::ResolvedPath) -> (r: String)
    ensures
        p@.len() > 0 ==> r@ == p@.last(),
        p@.len() == 0 ==> r@ == Seq::<char>::empty(),
{
    let segs = p.segments();
    if segs.len() > 0 {
        segs[segs.len() - 1].clone()
    } else {
        String::new()
    }
}

/// Serve a read-intent request: a directory is served as a listing, a file
/// as its contents, and anything else — including an escape attempt — is
/// the one fixed not-found rejection.
pub fn dispatch_read(fm: &FileManager, raw: &str) -> (out: Outcome)
    requires
        fm.wf(),
    ensures
        ({
            let rv = resolve_spec(raw@);
            match out {
                Outcome::Listing(es) => rv is Some && fm.store.is_dir(rv.unwrap()) && listing_of(
                    fm.store,
                    rv.unwrap(),
                    es@,
                ),
                Outcome::FileBytes(b, name) => rv is Some && fm.store.is_file(rv.unwrap()) && b@
                    == fm.store.file_bytes(rv.unwrap()) && (rv.unwrap().len() > 0 ==> name@
                    == rv.unwrap().last()),
                Outcome::Rejected(k, m) => k == RejectKind::NotFound && m@ == "not found"@ && (rv
                    is None || (rv is Some && !fm.store.occupied(rv.unwrap()))),
                _ => false,
            }
        }),
{
    match fm.resolve_path(raw) {
        Ok(p) => {
            let kind = fm.store.stat(&p);
            match read_action(kind) {
                ReadAction::ServeListing => match fm.store.list(&p) {
                    Ok(es) => Outcome::Listing(es),
                    Err(_) => {
                        proof {
                            fm.store.lemma_kinds_exclusive(p@);
                            assert(false);
                        }
                        reject_not_found()
                    },
                },
                ReadAction::ServeFile => match fm.store.read(&p) {
                    Ok(b) => {
                        let name = suggested_name(&p);
                        Outcome::FileBytes(b, name)
                    },
                    Err(_) => {
                        proof {
                            fm.store.lemma_kinds_exclusive(p@);
                            assert(false);
                        }
                        reject_not_found()
                    },
                },
                ReadAction::Reject => reject_not_found(),
            }
        },
        Err(_) => reject_not_found(),
    }
}

/// Perform a write request: create or replace the target file, accepted
/// exactly when the path resolves to a non-directory below the root whose
/// parent directory exists.
pub fn dispatch_write(fm: &mut FileManager, raw: &str, contents: Vec<u8>) -> (out: Outcome)
    requires
        old(fm).wf(),
    ensures
        final(fm).wf(),
        ({
            let rv = resolve_spec(raw@);
            match out {
                Outcome::Accepted => rv is Some && ({
                    let p = rv.unwrap();
                    p.len() > 0 && !old(fm).store.is_dir(p) && old(fm).store.is_dir(p.drop_last())
                        && final(fm).store.file_bytes(p) == contents@
                }),
                Outcome::Rejected(k, m) => k == RejectKind::NotFound && m@ == "not found"@ && (rv
                    is None || rv.unwrap().len() == 0 || old(fm).store.is_dir(rv.unwrap()) || !old(
                    fm,
                ).store.is_dir(rv.unwrap().drop_last())),
                _ => false,
            }
        }),
        out matches Outcome::Accepted ==> forall|q: Seq<Seq<char>>|
            #[trigger] final(fm).store.is_file(q) == (old(fm).store.is_file(q) || q
                == resolve_spec(raw@).unwrap()),
        out matches Outcome::Accepted ==> forall|q: Seq<Seq<char>>|
            #[trigger] final(fm).store.is_dir(q) == old(fm).store.is_dir(q),
        out matches Outcome::Accepted ==> forall|q: Seq<Seq<char>>|
            old(fm).store.is_file(q) && q != resolve_spec(raw@).unwrap() ==> #[trigger] final(
                fm).store.file_bytes(q) == old(fm).store.file_bytes(q),
        !(out matches Outcome::Accepted) ==> final(fm).store.unchanged_from(&old(fm).store),
{
    match fm.write_file_contents(raw, &contents) {
        Ok(()) => Outcome::Accepted,
        Err(FmError::Path(_)) => reject_not_found(),
        Err(FmError::Io(e)) => classify_io_error(e),
    }
}

/// Perform a directory-creation request, accepted exactly when the path
/// resolves and no step of it is already a file; creating what already
/// exists succeeds.
pub fn dispatch_mkdir(fm: &mut FileManager, raw: &str) -> (out: Outcome)
    requires
        old(fm).wf(),
    ensures
        final(fm).wf(),
        ({
            let rv = resolve_spec(raw@);
            match out {
                Outcome::Accepted => rv is Some && final(fm).store.is_dir(rv.unwrap()),
                Outcome::Rejected(k, m) => k == RejectKind::NotFound && m@ == "not found"@ && (rv
                    is None || exists|kk: int|
                    1 <= kk <= rv.unwrap().len() && old(fm).store.is_file(
                        #[trigger] rv.unwrap().take(kk),
                    )),
                _ => false,
            }
        }),
        out matches Outcome::Accepted ==> forall|q: Seq<Seq<char>>|
            #[trigger] final(fm).store.is_dir(q) == (old(fm).store.is_dir(q) || q.is_prefix_of(
                resolve_spec(raw@).unwrap(),
            )),
        out matches Outcome::Accepted ==> forall|q: Seq<Seq<char>>|
            #[trigger] final(fm).store.is_file(q) == old(fm).store.is_file(q),
        !(out matches Outcome::Accepted) ==> final(fm).store.unchanged_from(&old(fm).store),
{
    match fm.create_directory(raw) {
        Ok(()) => {
            proof {
                let p = resolve_spec(raw@).unwrap();
                assert(p.is_prefix_of(p)) by {
                    assert(p =~= p.subrange(0, p.len() as int));
                }
            }
            Outcome::Accepted
        },
        Err(FmError::Path(_)) => reject_not_found(),
        Err(FmError::Io(e)) => classify_io_error(e),
    }
}

/// Perform a delete request, accepted exactly when the target resolves to
/// an existing entry below the root.  A target that resolves to the root
/// itself is rejected here, before any store operation, whatever the tree
/// holds.
pub fn dispatch_delete(fm: &mut FileManager, raw: &str) -> (out: Outcome)
    requires
        old(fm).wf(),
    ensures
        final(fm).wf(),
        resolve_spec(raw@) == Some(Seq::<Seq<char>>::empty()) ==> (out matches Outcome::Rejected(
            k,
            _,
        ) && k == RejectKind::RootGuard),
        ({
            let rv = resolve_spec(raw@);
            match out {
                Outcome::Accepted => rv is Some && rv.unwrap().len() > 0 && old(
                    fm,
                ).store.occupied(rv.unwrap()),
                Outcome::Rejected(k, m) => (k == RejectKind::RootGuard && m@
                    == "refusing to touch the root"@ && rv == Some(Seq::<Seq<char>>::empty())) || (
                k == RejectKind::NotFound && m@ == "not found"@ && (rv is None || (rv is Some
                    && rv.unwrap().len() > 0 && !old(fm).store.occupied(rv.unwrap())))),
                _ => false,
            }
        }),
        out matches Outcome::Accepted ==> ({
            let p = resolve_spec(raw@).unwrap();
            (old(fm).store.is_file(p) && (forall|q: Seq<Seq<char>>|
                #[trigger] final(fm).store.is_file(q) == (old(fm).store.is_file(q) && q != p))
                && (forall|q: Seq<Seq<char>>|
                #[trigger] final(fm).store.is_dir(q) == old(fm).store.is_dir(q))) || (old(
                fm,
            ).store.is_dir(p) && (forall|q: Seq<Seq<char>>|
                #[trigger] final(fm).store.is_dir(q) == (old(fm).store.is_dir(q)
                    && !p.is_prefix_of(q))) && (forall|q: Seq<Seq<char>>|
                #[trigger] final(fm).store.is_file(q) == (old(fm).store.is_file(q)
                    && !p.is_prefix_of(q))))
        }),
        out matches Outcome::Accepted ==> forall|q: Seq<Seq<char>>|
            old(fm).store.is_file(q) && #[trigger] final(fm).store.is_file(q) ==> final(
                fm).store.file_bytes(q) == old(fm).store.file_bytes(q),
        !(out matches Outcome::Accepted) ==> final(fm).store.unchanged_from(&old(fm).store),
{
    let p = match fm.resolve_path(raw) {
        Ok(p) => p,
        Err(_) => {
            return reject_not_found();
        },
    };
    if p.is_root() {
        return reject_root_guard();
    }
    match fm.store.stat(&p) {
        EntryKind::File => match fm.store.delete_file(&p) {
            Ok(()) => Outcome::Accepted,
            Err(_) => {
                proof {
                    old(fm).store.lemma_kinds_exclusive(p@);
                    assert(false);
                }
                reject_not_found()
            },
        },
        EntryKind::Directory => match fm.store.delete_tree(&p) {
            Ok(()) => Outcome::Accepted,
            Err(_) => {
                proof {
                    old(fm).store.lemma_kinds_exclusive(p@);
                    assert(false);
                }
                reject_not_found()
            },
        },
        EntryKind::Missing => reject_not_found(),
        EntryKind::Other => reject_not_found(),
    }
}

/// Perform a move request, accepted exactly when the source resolves to an
/// existing entry below the root and the destination resolves to a fresh
/// location (nothing at or below it) whose parent is a directory and which
/// does not lie below the source.  A source that resolves to the root
/// itself is rejected here, before any store operation.
pub fn dispatch_move(fm: &mut FileManager, raw: &str, destination: &str) -> (out: Outcome)
    requires
        old(fm).wf(),
    ensures
        final(fm).wf(),
        resolve_spec(raw@) == Some(Seq::<Seq<char>>::empty()) && resolve_spec(destination@)
            is Some ==> (out matches Outcome::Rejected(k, _) && k == RejectKind::RootGuard),
        ({
            let rf = resolve_spec(raw@);
            let rt = resolve_spec(destination@);
            match out {
                Outcome::Accepted => rf is Some && rt is Some && rf.unwrap().len() > 0
                    && rt.unwrap().len() > 0 && old(fm).store.occupied(rf.unwrap()) && old(
                    fm,
                ).store.is_dir(rt.unwrap().drop_last()) && !rf.unwrap().is_prefix_of(rt.unwrap())
                    && (forall|qq: Seq<Seq<char>>|
                    #[trigger] rt.unwrap().is_prefix_of(qq) ==> !old(fm).store.occupied(qq)),
                Outcome::Rejected(k, m) => (k == RejectKind::RootGuard && m@
                    == "refusing to touch the root"@ && rf == Some(Seq::<Seq<char>>::empty())
                    && rt is Some) || (k == RejectKind::NotFound && m@ == "not found"@ && (rf
                    is None || rt is None || (rf.unwrap().len() > 0 && (!old(fm).store.occupied(
                    rf.unwrap(),
                ) || ((forall|qq: Seq<Seq<char>>|
                    #[trigger] rt.unwrap().is_prefix_of(qq) ==> !old(fm).store.occupied(qq))
                    && !old(fm).store.is_dir(rt.unwrap().drop_last())))))),
                Outcome::Failed(k, m) => k == FailKind::Io && m@ == "operation failed"@ && rf
                    is Some && rt is Some && rf.unwrap().len() > 0 && old(fm).store.occupied(
                    rf.unwrap(),
                ) && ((exists|qq: Seq<Seq<char>>|
                    #[trigger] rt.unwrap().is_prefix_of(qq) && old(fm).store.occupied(qq))
                    || rf.unwrap().is_prefix_of(rt.unwrap())),
                _ => false,
            }
        }),
        out matches Outcome::Accepted ==> forall|q: Seq<Seq<char>>|
            #[trigger] final(fm).store.is_dir(q) == ((old(fm).store.is_dir(q) && !resolve_spec(
                raw@,
            ).unwrap().is_prefix_of(q)) || (resolve_spec(destination@).unwrap().is_prefix_of(q)
                && old(fm).store.is_dir(
                resolve_spec(raw@).unwrap() + q.skip(
                    resolve_spec(destination@).unwrap().len() as int,
                ),
            ))),
        out matches Outcome::Accepted ==> forall|q: Seq<Seq<char>>|
            #[trigger] final(fm).store.is_file(q) == ((old(fm).store.is_file(q) && !resolve_spec(
                raw@,
            ).unwrap().is_prefix_of(q)) || (resolve_spec(destination@).unwrap().is_prefix_of(q)
                && old(fm).store.is_file(
                resolve_spec(raw@).unwrap() + q.skip(
                    resolve_spec(destination@).unwrap().len() as int,
                ),
            ))),
        out matches Outcome::Accepted ==> forall|q: Seq<Seq<char>>|
            old(fm).store.is_file(q) && !resolve_spec(raw@).unwrap().is_prefix_of(q)
                ==> #[trigger] final(fm).store.file_bytes(q) == old(fm).store.file_bytes(q),
        out matches Outcome::Accepted ==> forall|q: Seq<Seq<char>>|
            resolve_spec(destination@).unwrap().is_prefix_of(q) && old(fm).store.is_file(
                resolve_spec(raw@).unwrap() + q.skip(
                    resolve_spec(destination@).unwrap().len() as int,
                ),
            ) ==> #[trigger] final(fm).store.file_bytes(q) == old(fm).store.file_bytes(
                resolve_spec(raw@).unwrap() + q.skip(
                    resolve_spec(destination@).unwrap().len() as int,
                ),
            ),
        !(out matches Outcome::Accepted) ==> final(fm).store.unchanged_from(&old(fm).store),
{
    let from_p = match fm.resolve_path(raw) {
        Ok(p) => p,
        Err(_) => {
            return reject_not_found();
        },
    };
    let to_p = match fm.resolve_path(destination) {
        Ok(p) => p,
        Err(_) => {
            return reject_not_found();
        },
    };
    if from_p.is_root() {
        return reject_root_guard();
    }
    match fm.store.rename(&from_p, &to_p) {
        Ok(()) => Outcome::Accepted,
        Err(e) => classify_io_error(e),
    }
}

/// Serve a list request: the target must be a directory.
pub fn dispatch_list(fm: &FileManager, raw: &str) -> (out: Outcome)
    requires
        fm.wf(),
    ensures
        ({
            let rv = resolve_spec(raw@);
            match out {
                Outcome::Listing(es) => rv is Some && fm.store.is_dir(rv.unwrap()) && listing_of(
                    fm.store,
                    rv.unwrap(),
                    es@,
                ),
                Outcome::Rejected(k, m) => k == RejectKind::NotFound && m@ == "not found"@ && (rv
                    is None || !fm.store.is_dir(rv.unwrap())),
                _ => false,
            }
        }),
{
    match fm.list_directory(raw) {
        Ok(es) => Outcome::Listing(es),
        Err(FmError::Path(_)) => reject_not_found(),
        Err(FmError::Io(e)) => classify_io_error(e),
    }
}

/// Dispatch one parsed operation against the managed tree.  Each arm
/// carries the whole contract of the operation it routes to: reads and
/// listings leave the tree untouched, effects are exact and accepted
/// exactly when the operation's conditions hold, a delete or move whose
/// source is the root is rejected before any store operation, and every
/// rejection says why with a fixed caller-safe message.
#[verifier::rlimit(50)]
pub fn dispatch(fm: &mut FileManager, op: Operation, raw: &str) -> (out: Outcome)
    requires
        old(fm).wf(),
    ensures
        final(fm).wf(),
        op matches Operation::Delete && resolve_spec(raw@) == Some(Seq::<Seq<char>>::empty())
            ==> (out matches Outcome::Rejected(k, _) && k == RejectKind::RootGuard && final(
            fm).store.unchanged_from(&old(fm).store)),
        (op matches Operation::Read || op matches Operation::List) ==> final(
            fm).store.unchanged_from(&old(fm).store),
        op matches Operation::Read ==> ({
            let rv = resolve_spec(raw@);
            match out {
                Outcome::Listing(es) => rv is Some && final(fm).store.is_dir(rv.unwrap())
                    && listing_of(final(fm).store, rv.unwrap(), es@),
                Outcome::FileBytes(b, name) => rv is Some && final(fm).store.is_file(rv.unwrap())
                    && b@ == final(fm).store.file_bytes(rv.unwrap()) && (rv.unwrap().len() > 0
                    ==> name@ == rv.unwrap().last()),
                Outcome::Rejected(k, m) => k == RejectKind::NotFound && m@ == "not found"@ && (rv
                    is None || (rv is Some && !final(fm).store.occupied(rv.unwrap()))),
                _ => false,
            }
        }),
        op matches Operation::List ==> ({
            let rv = resolve_spec(raw@);
            match out {
                Outcome::Listing(es) => rv is Some && final(fm).store.is_dir(rv.unwrap())
                    && listing_of(final(fm).store, rv.unwrap(), es@),
                Outcome::Rejected(k, m) => k == RejectKind::NotFound && m@ == "not found"@ && (rv
                    is None || !final(fm).store.is_dir(rv.unwrap())),
                _ => false,
            }
        }),
        op matches Operation::Write(b) ==> ({
            let rv = resolve_spec(raw@);
            match out {
                Outcome::Accepted => rv is Some && ({
                    let p = rv.unwrap();
                    p.len() > 0 && !old(fm).store.is_dir(p) && old(fm).store.is_dir(p.drop_last())
                        && final(fm).store.file_bytes(p) == b@
                }) && (forall|q: Seq<Seq<char>>|
                    #[trigger] final(fm).store.is_file(q) == (old(fm).store.is_file(q) || q
                        == rv.unwrap())) && (forall|q: Seq<Seq<char>>|
                    #[trigger] final(fm).store.is_dir(q) == old(fm).store.is_dir(q)) && (forall|
                    q: Seq<Seq<char>>,
                |
                    old(fm).store.is_file(q) && q != rv.unwrap() ==> #[trigger] final(
                        fm).store.file_bytes(q) == old(fm).store.file_bytes(q)),
                Outcome::Rejected(k, m) => k == RejectKind::NotFound && m@ == "not found"@ && (rv
                    is None || rv.unwrap().len() == 0 || old(fm).store.is_dir(rv.unwrap()) || !old(
                    fm,
                ).store.is_dir(rv.unwrap().drop_last())) && final(fm).store.unchanged_from(
                    &old(fm).store,
                ),
                _ => false,
            }
        }),
        op matches Operation::CreateDirectory ==> ({
            let rv = resolve_spec(raw@);
            match out {
                Outcome::Accepted => rv is Some && (forall|q: Seq<Seq<char>>|
                    #[trigger] final(fm).store.is_dir(q) == (old(fm).store.is_dir(q)
                        || q.is_prefix_of(rv.unwrap()))) && (forall|q: Seq<Seq<char>>|
                    #[trigger] final(fm).store.is_file(q) == old(fm).store.is_file(q)),
                Outcome::Rejected(k, m) => k == RejectKind::NotFound && m@ == "not found"@ && (rv
                    is None || exists|kk: int|
                    1 <= kk <= rv.unwrap().len() && old(fm).store.is_file(
                        #[trigger] rv.unwrap().take(kk),
                    )) && final(fm).store.unchanged_from(&old(fm).store),
                _ => false,
            }
        }),
        op matches Operation::Delete ==> ({
            let rv = resolve_spec(raw@);
            match out {
                Outcome::Accepted => rv is Some && rv.unwrap().len() > 0 && old(
                    fm,
                ).store.occupied(rv.unwrap()) && ((old(fm).store.is_file(rv.unwrap()) && (forall|
                    q: Seq<Seq<char>>,
                |
                    #[trigger] final(fm).store.is_file(q) == (old(fm).store.is_file(q) && q
                        != rv.unwrap())) && (forall|q: Seq<Seq<char>>|
                    #[trigger] final(fm).store.is_dir(q) == old(fm).store.is_dir(q))) || (old(
                    fm,
                ).store.is_dir(rv.unwrap()) && (forall|q: Seq<Seq<char>>|
                    #[trigger] final(fm).store.is_dir(q) == (old(fm).store.is_dir(q)
                        && !rv.unwrap().is_prefix_of(q))) && (forall|q: Seq<Seq<char>>|
                    #[trigger] final(fm).store.is_file(q) == (old(fm).store.is_file(q)
                        && !rv.unwrap().is_prefix_of(q))))),
                Outcome::Rejected(k, m) => final(fm).store.unchanged_from(&old(fm).store) && ((k
                    == RejectKind::RootGuard && m@ == "refusing to touch the root"@ && rv == Some(
                    Seq::<Seq<char>>::empty(),
                )) || (k == RejectKind::NotFound && m@ == "not found"@ && (rv is None || (rv
                    is Some && rv.unwrap().len() > 0 && !old(fm).store.occupied(rv.unwrap()))))),
                _ => false,
            }
        }),
        op matches Operation::Move(d) ==> ({
            let rf = resolve_spec(raw@);
            let rt = resolve_spec(d@);
            match out {
                Outcome::Accepted => rf is Some && rt is Some && rf.unwrap().len() > 0
                    && rt.unwrap().len() > 0 && old(fm).store.occupied(rf.unwrap()) && old(
                    fm,
                ).store.is_dir(rt.unwrap().drop_last()) && !rf.unwrap().is_prefix_of(rt.unwrap())
                    && (forall|q: Seq<Seq<char>>|
                    #[trigger] final(fm).store.is_file(q) == ((old(fm).store.is_file(q)
                        && !rf.unwrap().is_prefix_of(q)) || (rt.unwrap().is_prefix_of(q) && old(
                        fm,
                    ).store.is_file(rf.unwrap() + q.skip(rt.unwrap().len() as int))))) && (forall|
                    q: Seq<Seq<char>>,
                |
                    #[trigger] final(fm).store.is_dir(q) == ((old(fm).store.is_dir(q)
                        && !rf.unwrap().is_prefix_of(q)) || (rt.unwrap().is_prefix_of(q) && old(
                        fm,
                    ).store.is_dir(rf.unwrap() + q.skip(rt.unwrap().len() as int))))) && (forall|
                    q: Seq<Seq<char>>,
                |
                    rt.unwrap().is_prefix_of(q) && old(fm).store.is_file(
                        rf.unwrap() + q.skip(rt.unwrap().len() as int),
                    ) ==> #[trigger] final(fm).store.file_bytes(q) == old(fm).store.file_bytes(
                        rf.unwrap() + q.skip(rt.unwrap().len() as int),
                    )),
                Outcome::Rejected(k, m) => final(fm).store.unchanged_from(&old(fm).store) && ((k
                    == RejectKind::RootGuard && m@ == "refusing to touch the root"@ && rf == Some(
                    Seq::<Seq<char>>::empty(),
                ) && rt is Some) || (k == RejectKind::NotFound && m@ == "not found"@ && (rf
                    is None || rt is None || (rf.unwrap().len() > 0 && (!old(fm).store.occupied(
                    rf.unwrap(),
                ) || ((forall|qq: Seq<Seq<char>>|
                    #[trigger] rt.unwrap().is_prefix_of(qq) ==> !old(fm).store.occupied(qq))
                    && !old(fm).store.is_dir(rt.unwrap().drop_last()))))))),
                Outcome::Failed(k, m) => k == FailKind::Io && m@ == "operation failed"@ && final(
                    fm).store.unchanged_from(&old(fm).store) && rf is Some && rt is Some
                    && rf.unwrap().len() > 0 && old(fm).store.occupied(rf.unwrap()) && ((exists|
                    qq: Seq<Seq<char>>,
                |
                    #[trigger] rt.unwrap().is_prefix_of(qq) && old(fm).store.occupied(qq))
                    || rf.unwrap().is_prefix_of(rt.unwrap())),
                _ => false,
            }
        }),
{
    match op {
        Operation::Read => dispatch_read(fm, raw),
        Operation::List => dispatch_list(fm, raw),
        Operation::Write(b) => dispatch_write(fm, raw, b),
        Operation::Delete => dispatch_delete(fm, raw),
        Operation::Move(d) => dispatch_move(fm, raw, d.as_str()),
        Operation::CreateDirectory => dispatch_mkdir(fm, raw),
    }
}

/// Handle one inbound request end to end: parse the method, payload and
/// destination into an operation — a write without a payload or a move
/// without a destination is the one malformed-request rejection — then
/// dispatch the operation, forwarding its whole per-operation contract.
#[verifier::rlimit(50)]
pub fn handle_request(
    fm: &mut FileManager,
    method: Method,
    raw: &str,
    payload: Option<Vec<u8>>,
    destination: Option<String>,
) -> (out: Outcome)
    requires
        old(fm).wf(),
    ensures
        final(fm).wf(),
        ((method == Method::Post && payload is None) || (method == Method::Put && destination
            is None)) <==> (out matches Outcome::Rejected(k, m) && k == RejectKind::BadRequest
            && m@ == "malformed request"@),
        (method == Method::Post && payload is None) || (method == Method::Put && destination
            is None) ==> final(fm).store.unchanged_from(&old(fm).store),
        method == Method::Delete && resolve_spec(raw@) == Some(Seq::<Seq<char>>::empty()) ==> (
        out matches Outcome::Rejected(k, _) && k == RejectKind::RootGuard && final(
            fm).store.unchanged_from(&old(fm).store)),
        method == Method::Get ==> final(fm).store.unchanged_from(&old(fm).store),
        method == Method::Get ==> ({
            let rv = resolve_spec(raw@);
            match out {
                Outcome::Listing(es) => rv is Some && final(fm).store.is_dir(rv.unwrap())
                    && listing_of(final(fm).store, rv.unwrap(), es@),
                Outcome::FileBytes(b, name) => rv is Some && final(fm).store.is_file(rv.unwrap())
                    && b@ == final(fm).store.file_bytes(rv.unwrap()) && (rv.unwrap().len() > 0
                    ==> name@ == rv.unwrap().last()),
                Outcome::Rejected(k, m) => k == RejectKind::NotFound && m@ == "not found"@ && (rv
                    is None || (rv is Some && !final(fm).store.occupied(rv.unwrap()))),
                _ => false,
            }
        }),
        method == Method::Post && payload is Some ==> ({
            let pl = payload.unwrap();
            let rv = resolve_spec(raw@);
            match out {
                Outcome::Accepted => rv is Some && ({
                    let p = rv.unwrap();
                    p.len() > 0 && !old(fm).store.is_dir(p) && old(fm).store.is_dir(p.drop_last())
                        && final(fm).store.file_bytes(p) == pl@
                }),
                Outcome::Rejected(k, m) => k == RejectKind::NotFound && m@ == "not found"@ && (rv
                    is None || rv.unwrap().len() == 0 || old(fm).store.is_dir(rv.unwrap()) || !old(
                    fm,
                ).store.is_dir(rv.unwrap().drop_last())),
                _ => false,
            }
        }),
        method == Method::MkCol ==> ({
            let rv = resolve_spec(raw@);
            match out {
                Outcome::Accepted => rv is Some && final(fm).store.is_dir(rv.unwrap()),
                Outcome::Rejected(k, m) => k == RejectKind::NotFound && m@ == "not found"@ && (rv
                    is None || exists|kk: int|
                    1 <= kk <= rv.unwrap().len() && old(fm).store.is_file(
                        #[trigger] rv.unwrap().take(kk),
                    )),
                _ => false,
            }
        }),
        method == Method::Delete ==> ({
            let rv = resolve_spec(raw@);
            match out {
                Outcome::Accepted => rv is Some && rv.unwrap().len() > 0 && old(
                    fm,
                ).store.occupied(rv.unwrap()),
                Outcome::Rejected(k, m) => (k == RejectKind::RootGuard && m@
                    == "refusing to touch the root"@ && rv == Some(Seq::<Seq<char>>::empty())) || (
                k == RejectKind::NotFound && m@ == "not found"@ && (rv is None || (rv is Some
                    && rv.unwrap().len() > 0 && !old(fm).store.occupied(rv.unwrap())))),
                _ => false,
            }
        }),
        method == Method::Put && destination is Some ==> ({
            let ds = destination.unwrap();
            let rf = resolve_spec(raw@);
            let rt = resolve_spec(ds@);
            match out {
                Outcome::Accepted => rf is Some && rt is Some && rf.unwrap().len() > 0
                    && rt.unwrap().len() > 0 && old(fm).store.occupied(rf.unwrap()) && old(
                    fm,
                ).store.is_dir(rt.unwrap().drop_last()) && !rf.unwrap().is_prefix_of(rt.unwrap()),
                Outcome::Rejected(k, m) => (k == RejectKind::RootGuard && m@
                    == "refusing to touch the root"@ && rf == Some(Seq::<Seq<char>>::empty())
                    && rt is Some) || (k == RejectKind::NotFound && m@ == "not found"@ && (rf
                    is None || rt is None || (rf.unwrap().len() > 0 && (!old(fm).store.occupied(
                    rf.unwrap(),
                ) || ((forall|qq: Seq<Seq<char>>|
                    #[trigger] rt.unwrap().is_prefix_of(qq) ==> !old(fm).store.occupied(qq))
                    && !old(fm).store.is_dir(rt.unwrap().drop_last())))))),
                Outcome::Failed(k, m) => k == FailKind::Io && m@ == "operation failed"@ && rf
                    is Some && rt is Some && rf.unwrap().len() > 0 && old(fm).store.occupied(
                    rf.unwrap(),
                ) && ((exists|qq: Seq<Seq<char>>|
                    #[trigger] rt.unwrap().is_prefix_of(qq) && old(fm).store.occupied(qq))
                    || rf.unwrap().is_prefix_of(rt.unwrap())),
                _ => false,
            }
        }),
{
    match parse_request(method, payload, destination) {
        Some(op) => dispatch(fm, op, raw),
        None => Outcome::Rejected(RejectKind::BadRequest, String::from_str("malformed request")),
    }
}

} // verus!
