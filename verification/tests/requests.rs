use wex::dispatch::{
    classify_io_error, dispatch, dispatch_delete, dispatch_move, dispatch_read, dispatch_write,
    handle_request, parse_request, read_action, FailKind, Method, Operation, Outcome, ReadAction,
    RejectKind,
};
use wex::file_manager::FileManager;
use wex::store::{EntryKind, IoError};

#[test]
fn parse_maps_methods_to_operations() {
    assert!(matches!(
        parse_request(Method::Get, None, None),
        Some(Operation::Read)
    ));
    assert!(matches!(
        parse_request(Method::Delete, None, None),
        Some(Operation::Delete)
    ));
    assert!(matches!(
        parse_request(Method::MkCol, None, None),
        Some(Operation::CreateDirectory)
    ));
    match parse_request(Method::Post, Some(vec![1u8, 2]), None) {
        Some(Operation::Write(b)) => assert_eq!(b, vec![1u8, 2]),
        _ => panic!("a post with a payload is a write"),
    }
    match parse_request(Method::Put, None, Some("to/here".to_string())) {
        Some(Operation::Move(d)) => assert_eq!(d, "to/here"),
        _ => panic!("a put with a destination is a move"),
    }
    assert!(parse_request(Method::Post, None, None).is_none());
    assert!(parse_request(Method::Put, None, None).is_none());
}

#[test]
fn classification_keeps_operator_errors_distinguishable() {
    for e in [IoError::NotFound, IoError::NotADirectory, IoError::NotAFile] {
        match classify_io_error(e) {
            Outcome::Rejected(RejectKind::NotFound, _) => {}
            _ => panic!("missing or mistyped targets are not-found-class"),
        }
    }
    assert!(matches!(
        classify_io_error(IoError::PermissionDenied),
        Outcome::Failed(FailKind::PermissionDenied, _)
    ));
    assert!(matches!(
        classify_io_error(IoError::CrossVolume),
        Outcome::Failed(FailKind::CrossVolume, _)
    ));
    assert!(matches!(
        classify_io_error(IoError::Other),
        Outcome::Failed(FailKind::Io, _)
    ));
}

#[test]
fn read_serves_directories_as_listings() {
    let mut fm = FileManager::new();
    fm.create_directory("d").unwrap();
    fm.write_file_contents("d/f", &vec![1u8]).unwrap();
    match dispatch_read(&fm, "d") {
        Outcome::Listing(es) => {
            assert_eq!(es.len(), 1);
            assert_eq!(es[0].name, "f");
            assert_eq!(es[0].kind, EntryKind::File);
        }
        _ => panic!("a directory is served as a listing"),
    }
    // the empty request path means the root itself
    match dispatch_read(&fm, "") {
        Outcome::Listing(es) => assert_eq!(es.len(), 1),
        _ => panic!("the root is served as a listing"),
    }
}

#[test]
fn read_serves_files_with_a_suggested_name() {
    let mut fm = FileManager::new();
    fm.create_directory("d").unwrap();
    fm.write_file_contents("d/report.txt", &vec![10u8, 20]).unwrap();
    match dispatch_read(&fm, "d/report.txt") {
        Outcome::FileBytes(b, name) => {
            assert_eq!(b, vec![10u8, 20]);
            assert_eq!(name, "report.txt");
        }
        _ => panic!("a file is served as its bytes"),
    }
}

#[test]
fn read_of_missing_or_escaping_paths_is_the_same_rejection() {
    let fm = FileManager::new();
    let missing = dispatch_read(&fm, "no/such/thing");
    let escaping = dispatch_read(&fm, "../../etc/passwd");
    match (missing, escaping) {
        (Outcome::Rejected(RejectKind::NotFound, m1), Outcome::Rejected(RejectKind::NotFound, m2)) => {
            // indistinguishable to the caller: same kind, same fixed message
            assert_eq!(m1, "not found");
            assert_eq!(m2, "not found");
        }
        _ => panic!("both surface as the same not-found-class rejection"),
    }
}

#[test]
fn write_request_round_trips_through_read() {
    let mut fm = FileManager::new();
    fm.create_directory("up").unwrap();
    match dispatch_write(&mut fm, "up/data.bin", vec![3u8, 4, 5]) {
        Outcome::Accepted => {}
        _ => panic!("the upload is accepted"),
    }
    match dispatch_read(&fm, "up/data.bin") {
        Outcome::FileBytes(b, _) => assert_eq!(b, vec![3u8, 4, 5]),
        _ => panic!("the upload can be read back"),
    }
}

#[test]
fn delete_of_the_root_is_rejected_before_any_store_call() {
    let mut fm = FileManager::new();
    fm.write_file_contents("precious", &vec![7u8]).unwrap();
    match dispatch_delete(&mut fm, "") {
        Outcome::Rejected(RejectKind::RootGuard, m) => assert_eq!(m, "refusing to touch the root"),
        _ => panic!("a delete of the root is rejected unconditionally"),
    }
    // nothing was touched
    assert_eq!(fm.read_file_contents("precious").unwrap(), vec![7u8]);
}

#[test]
fn delete_removes_files_and_trees() {
    let mut fm = FileManager::new();
    fm.create_directory("d/e").unwrap();
    fm.write_file_contents("d/e/f", &vec![1u8]).unwrap();
    fm.write_file_contents("g", &vec![2u8]).unwrap();
    assert!(matches!(dispatch_delete(&mut fm, "g"), Outcome::Accepted));
    assert!(matches!(dispatch_delete(&mut fm, "d"), Outcome::Accepted));
    assert_eq!(fm.path_type("d/e/f").unwrap(), EntryKind::Missing);
    assert!(matches!(
        dispatch_delete(&mut fm, "g"),
        Outcome::Rejected(RejectKind::NotFound, _)
    ));
}

#[test]
fn move_source_at_root_is_rejected() {
    let mut fm = FileManager::new();
    fm.create_directory("dst").unwrap();
    match dispatch_move(&mut fm, "", "dst/copy") {
        Outcome::Rejected(RejectKind::RootGuard, _) => {}
        _ => panic!("a move of the root is rejected unconditionally"),
    }
}

#[test]
fn move_request_relocates_the_target() {
    let mut fm = FileManager::new();
    fm.create_directory("a").unwrap();
    fm.write_file_contents("a/f", &vec![9u8]).unwrap();
    match dispatch_move(&mut fm, "a/f", "a/g") {
        Outcome::Accepted => {}
        _ => panic!("the move is accepted"),
    }
    assert_eq!(fm.read_file_contents("a/g").unwrap(), vec![9u8]);
    assert_eq!(fm.path_type("a/f").unwrap(), EntryKind::Missing);
}

#[test]
fn dispatch_routes_each_operation() {
    let mut fm = FileManager::new();
    assert!(matches!(
        dispatch(&mut fm, Operation::CreateDirectory, "d"),
        Outcome::Accepted
    ));
    assert!(matches!(
        dispatch(&mut fm, Operation::Write(vec![1u8]), "d/f"),
        Outcome::Accepted
    ));
    assert!(matches!(
        dispatch(&mut fm, Operation::List, "d"),
        Outcome::Listing(_)
    ));
    assert!(matches!(
        dispatch(&mut fm, Operation::Read, "d/f"),
        Outcome::FileBytes(_, _)
    ));
    assert!(matches!(
        dispatch(&mut fm, Operation::Move("d/g".to_string()), "d/f"),
        Outcome::Accepted
    ));
    assert!(matches!(
        dispatch(&mut fm, Operation::Delete, "d"),
        Outcome::Accepted
    ));
    assert!(matches!(
        dispatch(&mut fm, Operation::Delete, ""),
        Outcome::Rejected(RejectKind::RootGuard, _)
    ));
}

#[test]
fn list_of_a_file_is_rejected() {
    let mut fm = FileManager::new();
    fm.write_file_contents("f", &vec![1u8]).unwrap();
    assert!(matches!(
        dispatch(&mut fm, Operation::List, "f"),
        Outcome::Rejected(RejectKind::NotFound, _)
    ));
}

#[test]
fn malformed_requests_are_bad_requests() {
    let mut fm = FileManager::new();
    assert!(matches!(
        handle_request(&mut fm, Method::Post, "f", None, None),
        Outcome::Rejected(RejectKind::BadRequest, _)
    ));
    assert!(matches!(
        handle_request(&mut fm, Method::Put, "f", None, None),
        Outcome::Rejected(RejectKind::BadRequest, _)
    ));
}

#[test]
fn handled_requests_flow_end_to_end() {
    let mut fm = FileManager::new();
    assert!(matches!(
        handle_request(&mut fm, Method::MkCol, "d", None, None),
        Outcome::Accepted
    ));
    assert!(matches!(
        handle_request(&mut fm, Method::Post, "d/f", Some(vec![1u8, 2]), None),
        Outcome::Accepted
    ));
    match handle_request(&mut fm, Method::Get, "d/f", None, None) {
        Outcome::FileBytes(b, name) => {
            assert_eq!(b, vec![1u8, 2]);
            assert_eq!(name, "f");
        }
        _ => panic!("the file is served"),
    }
    assert!(matches!(
        handle_request(&mut fm, Method::Put, "d/f", None, Some("d/g".to_string())),
        Outcome::Accepted
    ));
    assert!(matches!(
        handle_request(&mut fm, Method::Delete, "", None, None),
        Outcome::Rejected(RejectKind::RootGuard, _)
    ));
    assert!(matches!(
        handle_request(&mut fm, Method::Delete, "d", None, None),
        Outcome::Accepted
    ));
}

#[test]
fn read_action_classifies_each_kind() {
    assert_eq!(read_action(EntryKind::Directory), ReadAction::ServeListing);
    assert_eq!(read_action(EntryKind::File), ReadAction::ServeFile);
    assert_eq!(read_action(EntryKind::Missing), ReadAction::Reject);
    assert_eq!(read_action(EntryKind::Other), ReadAction::Reject);
}

#[test]
fn move_preserves_the_moved_bytes() {
    let mut fm = FileManager::new();
    fm.create_directory("a/deep").unwrap();
    fm.write_file_contents("a/deep/f", &vec![11u8, 12, 13]).unwrap();
    fm.create_directory("b").unwrap();
    assert!(matches!(dispatch_move(&mut fm, "a", "b/moved"), Outcome::Accepted));
    assert_eq!(
        fm.read_file_contents("b/moved/deep/f").unwrap(),
        vec![11u8, 12, 13]
    );
}
