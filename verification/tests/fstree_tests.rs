use rustx::error::Error;
use rustx::fstree::Fs;
use rustx::fstree::contains_path;
use rustx::fstree::copy_dir_all;
use rustx::fstree::create_dir_all;
use rustx::fstree::has_entries_under;
use rustx::fstree::is_dir;
use rustx::fstree::is_file;
use rustx::fstree::path_display;
use rustx::fstree::read_file;
use rustx::fstree::recreate_dir;
use rustx::fstree::remove_files_except;
use rustx::fstree::write_file;

fn path(parts: &[&str]) -> Vec<String> {
    parts.iter().map(|s| s.to_string()).collect()
}

#[test]
fn test_recreate_dir_create_new() {
    let mut fs = Fs::new();
    create_dir_all(&mut fs, &path(&["tmp"])).unwrap();
    let new_dir = path(&["tmp", "new_dir"]);

    recreate_dir(&mut fs, &new_dir).unwrap();

    assert!(is_dir(&fs, &new_dir));
}

#[test]
fn test_recreate_dir_remove_existing() {
    let mut fs = Fs::new();
    let existing_dir = path(&["tmp", "existing_dir"]);
    create_dir_all(&mut fs, &existing_dir).unwrap();
    write_file(&mut fs, &path(&["tmp", "existing_dir", "old.txt"]), "old".to_string()).unwrap();

    recreate_dir(&mut fs, &existing_dir).unwrap();

    assert!(is_dir(&fs, &existing_dir));
    assert!(!has_entries_under(&fs, &existing_dir));
}

#[test]
fn test_recreate_dir_non_dir() {
    let mut fs = Fs::new();
    let file_path = path(&["tmp", "file.txt"]);
    create_dir_all(&mut fs, &path(&["tmp"])).unwrap();
    write_file(&mut fs, &file_path, "content".to_string()).unwrap();

    let result = recreate_dir(&mut fs, &file_path);
    assert!(result.is_err());
    assert!(matches!(result, Err(Error::NotADirectory { .. })));
    // The file is untouched.
    assert_eq!(read_file(&fs, &file_path).unwrap(), "content");
}

#[test]
fn test_copy_dir_all() {
    let mut fs = Fs::new();
    create_dir_all(&mut fs, &path(&["src_dir"])).unwrap();
    create_dir_all(&mut fs, &path(&["dest_dir"])).unwrap();
    write_file(&mut fs, &path(&["src_dir", "file.txt"]), "test content".to_string()).unwrap();

    copy_dir_all(&mut fs, &path(&["src_dir"]), &path(&["dest_dir"])).unwrap();

    let copied_file = path(&["dest_dir", "file.txt"]);
    assert!(is_file(&fs, &copied_file));
    assert_eq!(read_file(&fs, &copied_file).unwrap(), "test content");
}

#[test]
fn test_copy_empty_dir() {
    let mut fs = Fs::new();
    create_dir_all(&mut fs, &path(&["src_dir"])).unwrap();

    copy_dir_all(&mut fs, &path(&["src_dir"]), &path(&["dest_dir"])).unwrap();

    assert!(is_dir(&fs, &path(&["dest_dir"])));
    assert!(!has_entries_under(&fs, &path(&["dest_dir"])));
}

#[test]
fn test_copy_missing_source_fails() {
    let mut fs = Fs::new();
    let result = copy_dir_all(&mut fs, &path(&["nowhere"]), &path(&["dest_dir"]));
    assert!(matches!(result, Err(Error::Io { .. })));
    assert!(!contains_path(&fs, &path(&["dest_dir"])));
}

#[test]
fn test_copy_keeps_unrelated_destination_files() {
    let mut fs = Fs::new();
    create_dir_all(&mut fs, &path(&["a"])).unwrap();
    write_file(&mut fs, &path(&["a", "new.txt"]), "new".to_string()).unwrap();
    create_dir_all(&mut fs, &path(&["b"])).unwrap();
    write_file(&mut fs, &path(&["b", "kept.txt"]), "kept".to_string()).unwrap();

    copy_dir_all(&mut fs, &path(&["a"]), &path(&["b"])).unwrap();

    assert_eq!(read_file(&fs, &path(&["b", "kept.txt"])).unwrap(), "kept");
    assert_eq!(read_file(&fs, &path(&["b", "new.txt"])).unwrap(), "new");
}

#[test]
fn test_remove_files_except() {
    let mut fs = Fs::new();
    create_dir_all(&mut fs, &path(&["tmp"])).unwrap();
    write_file(&mut fs, &path(&["tmp", "keep.txt"]), String::new()).unwrap();
    write_file(&mut fs, &path(&["tmp", "remove.txt"]), String::new()).unwrap();

    remove_files_except(&mut fs, &path(&["tmp"]), &path(&["keep.txt"])).unwrap();

    assert!(is_file(&fs, &path(&["tmp", "keep.txt"])));
    assert!(!contains_path(&fs, &path(&["tmp", "remove.txt"])));
}

#[test]
fn test_remove_no_files() {
    let mut fs = Fs::new();
    create_dir_all(&mut fs, &path(&["tmp"])).unwrap();

    remove_files_except(&mut fs, &path(&["tmp"]), &Vec::new()).unwrap();

    assert!(is_dir(&fs, &path(&["tmp"])));
}

#[test]
fn test_remove_files_except_missing_dir_fails() {
    let mut fs = Fs::new();
    let result = remove_files_except(&mut fs, &path(&["nowhere"]), &Vec::new());
    assert!(matches!(result, Err(Error::Io { .. })));
}

#[test]
fn test_write_file_missing_parent_fails() {
    let mut fs = Fs::new();
    let result = write_file(&mut fs, &path(&["no_dir", "file.txt"]), String::new());
    assert!(matches!(result, Err(Error::Io { .. })));
}

#[test]
fn test_create_dir_all_blocked_by_file() {
    let mut fs = Fs::new();
    write_file(&mut fs, &path(&["blocker"]), String::new()).unwrap();
    let result = create_dir_all(&mut fs, &path(&["blocker", "sub"]));
    assert!(matches!(result, Err(Error::Io { .. })));
}

#[test]
fn test_path_display_joins_components() {
    assert_eq!(path_display(&path(&["a", "b", "c.txt"])), "a/b/c.txt");
    assert_eq!(path_display(&path(&["single"])), "single");
}
