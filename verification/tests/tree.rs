use wex::file_manager::{FileManager, FmError};
use wex::paths::PathError;
use wex::store::{EntryKind, IoError};

#[test]
fn fresh_directory_lists_empty() {
    let mut fm = FileManager::new();
    fm.create_directory("docs").unwrap();
    let es = fm.list_directory("docs").unwrap();
    assert_eq!(es.len(), 0);
}

#[test]
fn write_then_read_round_trip() {
    let mut fm = FileManager::new();
    fm.create_directory("d").unwrap();
    let bytes = vec![1u8, 2, 3, 250, 0];
    fm.write_file_contents("d/f.bin", &bytes).unwrap();
    let back = fm.read_file_contents("d/f.bin").unwrap();
    assert_eq!(back, bytes);
}

#[test]
fn write_replaces_contents() {
    let mut fm = FileManager::new();
    fm.write_file_contents("f", &vec![1u8]).unwrap();
    fm.write_file_contents("f", &vec![2u8, 3]).unwrap();
    assert_eq!(fm.read_file_contents("f").unwrap(), vec![2u8, 3]);
}

#[test]
fn write_without_parent_is_not_found() {
    let mut fm = FileManager::new();
    let r = fm.write_file_contents("missing/f.txt", &vec![1u8]);
    assert_eq!(r.err(), Some(FmError::Io(IoError::NotFound)));
}

#[test]
fn write_over_directory_is_refused() {
    let mut fm = FileManager::new();
    fm.create_directory("d").unwrap();
    assert_eq!(
        fm.write_file_contents("d", &vec![1u8]).err(),
        Some(FmError::Io(IoError::NotAFile))
    );
    assert_eq!(
        fm.write_file_contents("", &vec![1u8]).err(),
        Some(FmError::Io(IoError::NotAFile))
    );
}

#[test]
fn write_escaping_path_is_refused() {
    let mut fm = FileManager::new();
    let r = fm.write_file_contents("../evil", &vec![1u8]);
    assert_eq!(r.err(), Some(FmError::Path(PathError::Escape)));
}

#[test]
fn path_type_reports_all_kinds() {
    let mut fm = FileManager::new();
    assert_eq!(fm.path_type("").unwrap(), EntryKind::Directory);
    assert_eq!(fm.path_type("nothing").unwrap(), EntryKind::Missing);
    fm.create_directory("d").unwrap();
    fm.write_file_contents("d/f", &vec![9u8]).unwrap();
    assert_eq!(fm.path_type("d").unwrap(), EntryKind::Directory);
    assert_eq!(fm.path_type("d/f").unwrap(), EntryKind::File);
}

#[test]
fn create_directory_is_idempotent() {
    let mut fm = FileManager::new();
    fm.create_directory("a/b/c").unwrap();
    fm.create_directory("a/b/c").unwrap();
    fm.create_directory("a/b").unwrap();
    let root = fm.list_directory("").unwrap();
    assert_eq!(root.len(), 1);
    assert_eq!(root[0].name, "a");
    assert_eq!(root[0].kind, EntryKind::Directory);
}

#[test]
fn create_directory_over_file_is_refused() {
    let mut fm = FileManager::new();
    fm.write_file_contents("f", &vec![0u8]).unwrap();
    assert_eq!(
        fm.create_directory("f").err(),
        Some(FmError::Io(IoError::NotADirectory))
    );
    assert_eq!(
        fm.create_directory("f/sub").err(),
        Some(FmError::Io(IoError::NotADirectory))
    );
}

#[test]
fn create_file_makes_an_empty_file() {
    let mut fm = FileManager::new();
    fm.create_file("empty.txt").unwrap();
    assert_eq!(fm.read_file_contents("empty.txt").unwrap(), Vec::<u8>::new());
}

#[test]
fn listing_classifies_children() {
    let mut fm = FileManager::new();
    fm.create_directory("sub").unwrap();
    fm.write_file_contents("file.txt", &vec![1u8]).unwrap();
    let es = fm.list_directory("").unwrap();
    assert_eq!(es.len(), 2);
    let sub = es.iter().find(|e| e.name == "sub").unwrap();
    assert_eq!(sub.kind, EntryKind::Directory);
    let file = es.iter().find(|e| e.name == "file.txt").unwrap();
    assert_eq!(file.kind, EntryKind::File);
}

#[test]
fn listing_a_file_is_refused() {
    let mut fm = FileManager::new();
    fm.write_file_contents("f", &vec![1u8]).unwrap();
    assert_eq!(
        fm.list_directory("f").err(),
        Some(FmError::Io(IoError::NotADirectory))
    );
    assert_eq!(
        fm.list_directory("nothing").err(),
        Some(FmError::Io(IoError::NotADirectory))
    );
}

#[test]
fn delete_file_removes_only_that_file() {
    let mut fm = FileManager::new();
    fm.write_file_contents("a", &vec![1u8]).unwrap();
    fm.write_file_contents("b", &vec![2u8]).unwrap();
    fm.delete_file("a").unwrap();
    assert_eq!(fm.path_type("a").unwrap(), EntryKind::Missing);
    assert_eq!(fm.read_file_contents("b").unwrap(), vec![2u8]);
}

#[test]
fn delete_file_error_cases() {
    let mut fm = FileManager::new();
    fm.create_directory("d").unwrap();
    assert_eq!(
        fm.delete_file("d").err(),
        Some(FmError::Io(IoError::NotAFile))
    );
    assert_eq!(
        fm.delete_file("nothing").err(),
        Some(FmError::Io(IoError::NotFound))
    );
}

#[test]
fn delete_directory_removes_the_whole_tree() {
    let mut fm = FileManager::new();
    fm.create_directory("t/a/b").unwrap();
    fm.write_file_contents("t/a/f", &vec![1u8]).unwrap();
    fm.write_file_contents("keep", &vec![2u8]).unwrap();
    fm.delete_directory("t").unwrap();
    assert_eq!(fm.path_type("t").unwrap(), EntryKind::Missing);
    assert_eq!(fm.path_type("t/a").unwrap(), EntryKind::Missing);
    assert_eq!(fm.path_type("t/a/f").unwrap(), EntryKind::Missing);
    assert_eq!(fm.read_file_contents("keep").unwrap(), vec![2u8]);
}

#[test]
fn delete_directory_never_touches_the_root() {
    let mut fm = FileManager::new();
    fm.write_file_contents("precious", &vec![7u8]).unwrap();
    assert_eq!(
        fm.delete_directory("").err(),
        Some(FmError::Io(IoError::Other))
    );
    assert_eq!(fm.read_file_contents("precious").unwrap(), vec![7u8]);
}

#[test]
fn move_renames_a_file() {
    let mut fm = FileManager::new();
    fm.create_directory("a").unwrap();
    fm.create_directory("b").unwrap();
    fm.write_file_contents("a/f", &vec![1u8, 2]).unwrap();
    fm.move_file_or_directory("a/f", "b/g").unwrap();
    assert_eq!(fm.path_type("a/f").unwrap(), EntryKind::Missing);
    assert_eq!(fm.read_file_contents("b/g").unwrap(), vec![1u8, 2]);
}

#[test]
fn move_carries_a_whole_directory() {
    let mut fm = FileManager::new();
    fm.create_directory("src_dir/inner").unwrap();
    fm.write_file_contents("src_dir/inner/f", &vec![5u8]).unwrap();
    fm.move_file_or_directory("src_dir", "dst_dir").unwrap();
    assert_eq!(fm.path_type("src_dir").unwrap(), EntryKind::Missing);
    assert_eq!(fm.path_type("dst_dir/inner").unwrap(), EntryKind::Directory);
    assert_eq!(fm.read_file_contents("dst_dir/inner/f").unwrap(), vec![5u8]);
}

#[test]
fn move_error_cases() {
    let mut fm = FileManager::new();
    fm.create_directory("a").unwrap();
    fm.write_file_contents("a/f", &vec![1u8]).unwrap();
    // missing source
    assert_eq!(
        fm.move_file_or_directory("nothing", "x").err(),
        Some(FmError::Io(IoError::NotFound))
    );
    // occupied destination
    assert_eq!(
        fm.move_file_or_directory("a/f", "a").err(),
        Some(FmError::Io(IoError::Other))
    );
    // destination below the source
    assert_eq!(
        fm.move_file_or_directory("a", "a/sub").err(),
        Some(FmError::Io(IoError::Other))
    );
    // destination parent missing
    assert_eq!(
        fm.move_file_or_directory("a/f", "missing/g").err(),
        Some(FmError::Io(IoError::NotFound))
    );
    // the root is never a move source
    assert_eq!(
        fm.move_file_or_directory("", "elsewhere").err(),
        Some(FmError::Io(IoError::Other))
    );
    // escapes on either side are refused at resolution
    assert_eq!(
        fm.move_file_or_directory("../x", "y").err(),
        Some(FmError::Path(PathError::Escape))
    );
    assert_eq!(
        fm.move_file_or_directory("a/f", "../y").err(),
        Some(FmError::Path(PathError::Escape))
    );
}

#[test]
fn parent_segments_do_not_require_existence() {
    let mut fm = FileManager::new();
    fm.create_directory("a").unwrap();
    // "a/b/../c" resolves structurally to a/c even though a/b does not exist
    fm.write_file_contents("a/b/../c", &vec![1u8]).unwrap();
    assert_eq!(fm.read_file_contents("a/c").unwrap(), vec![1u8]);
    // but operations that depend on the missing b itself report not found
    assert_eq!(
        fm.write_file_contents("a/b/x", &vec![2u8]).err(),
        Some(FmError::Io(IoError::NotFound))
    );
}
