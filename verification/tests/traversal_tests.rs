use dusk::entry::{DiskEntry, EntryType};
use dusk::error::DuskError;
use dusk::traversal::{build_tree, classify_kind, traverse, traverse_parallel, FlatEntry};
use std::io::Write;
use tempfile::{NamedTempFile, TempDir};

fn flat(
    path: &str,
    parent: Option<&str>,
    size: u64,
    entry_type: EntryType,
    depth: usize,
) -> FlatEntry {
    FlatEntry {
        path: path.to_string(),
        parent: parent.map(|p| p.to_string()),
        size,
        entry_type,
        depth,
    }
}

fn sample_entries() -> Vec<FlatEntry> {
    vec![
        flat("/root", None, 4096, EntryType::Directory, 0),
        flat("/root/file_a", Some("/root"), 5, EntryType::File, 1),
        flat("/root/subdir", Some("/root"), 4096, EntryType::Directory, 1),
        flat("/root/subdir/file_b", Some("/root/subdir"), 10, EntryType::File, 2),
        flat("/root/subdir/nested", Some("/root/subdir"), 4096, EntryType::Directory, 2),
        flat(
            "/root/subdir/nested/file_c",
            Some("/root/subdir/nested"),
            20,
            EntryType::File,
            3,
        ),
    ]
}

fn count_nodes(entry: &DiskEntry) -> usize {
    1 + entry.children.iter().map(count_nodes).sum::<usize>()
}

#[test]
fn build_tree_totals_whole_listing() {
    let tree = build_tree(sample_entries()).unwrap();
    assert_eq!(tree.total_size(), 4096 + 5 + 4096 + 10 + 4096 + 20);
}

#[test]
fn build_tree_keeps_every_entry_as_a_node() {
    let tree = build_tree(sample_entries()).unwrap();
    assert_eq!(count_nodes(&tree), 6);
}

#[test]
fn build_tree_is_order_independent() {
    let mut shuffled = sample_entries();
    shuffled.reverse();
    shuffled.swap(0, 3);
    let a = build_tree(sample_entries()).unwrap();
    let b = build_tree(shuffled).unwrap();
    assert_eq!(a.total_size(), b.total_size());
    assert_eq!(count_nodes(&a), count_nodes(&b));
}

#[test]
fn build_tree_rejects_empty_listing() {
    let result = build_tree(Vec::new());
    assert!(matches!(result, Err(DuskError::TraversalError(_))));
}

#[test]
fn build_tree_rejects_listing_without_root() {
    let entries = vec![flat("/root/file_a", Some("/root"), 5, EntryType::File, 1)];
    let result = build_tree(entries);
    assert!(matches!(result, Err(DuskError::TraversalError(_))));
}

/// A three-level directory tree built with temporary files alone: a file
/// of 5 bytes beside a subdirectory holding a file of 10 bytes and a
/// nested directory holding a file of 20 bytes. The handles keep the tree
/// alive for the test's duration.
struct TestTree {
    root: TempDir,
    _subdir: TempDir,
    _nested: TempDir,
    _files: Vec<NamedTempFile>,
}

fn create_test_tree() -> TestTree {
    let root = TempDir::new().unwrap();
    let mut file_a = NamedTempFile::new_in(root.path()).unwrap();
    file_a.write_all(b"hello").unwrap();
    let subdir = tempfile::tempdir_in(root.path()).unwrap();
    let mut file_b = NamedTempFile::new_in(subdir.path()).unwrap();
    file_b.write_all(b"0123456789").unwrap();
    let nested = tempfile::tempdir_in(subdir.path()).unwrap();
    let mut file_c = NamedTempFile::new_in(nested.path()).unwrap();
    file_c.write_all(b"01234567890123456789").unwrap();
    TestTree { root, _subdir: subdir, _nested: nested, _files: vec![file_a, file_b, file_c] }
}

fn find_by_size(entry: &DiskEntry, size: u64) -> Option<&DiskEntry> {
    if entry.size_bytes == size && entry.entry_type == EntryType::File {
        return Some(entry);
    }
    for child in &entry.children {
        if let Some(found) = find_by_size(child, size) {
            return Some(found);
        }
    }
    None
}

fn max_depth(entry: &DiskEntry) -> usize {
    if entry.children.is_empty() {
        entry.depth
    } else {
        entry.children.iter().map(max_depth).max().unwrap_or(entry.depth)
    }
}

#[test]
fn test_traverse_returns_root() {
    let tree = create_test_tree();
    let result = traverse(tree.root.path().to_str().unwrap(), None);
    assert!(result.is_ok());
    let root = result.unwrap();
    assert_eq!(root.entry_type, EntryType::Directory);
    assert_eq!(root.depth, 0);
}

#[test]
fn test_traverse_finds_all_entries() {
    let tree = create_test_tree();
    let root = traverse(tree.root.path().to_str().unwrap(), None).unwrap();
    assert_eq!(count_nodes(&root), 6);
}

#[test]
fn test_traverse_file_sizes() {
    let tree = create_test_tree();
    let root = traverse(tree.root.path().to_str().unwrap(), None).unwrap();

    let file_a = find_by_size(&root, 5).unwrap();
    assert_eq!(file_a.entry_type, EntryType::File);
    assert!(find_by_size(&root, 10).is_some());
    assert!(find_by_size(&root, 20).is_some());
}

#[test]
fn test_traverse_directory_has_children() {
    let tree = create_test_tree();
    let root = traverse(tree.root.path().to_str().unwrap(), None).unwrap();

    let subdir = root
        .children
        .iter()
        .find(|c| c.entry_type == EntryType::Directory)
        .unwrap();
    assert_eq!(subdir.children.len(), 2);
}

#[test]
fn test_traverse_max_depth() {
    let tree = create_test_tree();
    let root = traverse(tree.root.path().to_str().unwrap(), Some(1)).unwrap();
    assert!(max_depth(&root) <= 1);
}

#[test]
fn test_traverse_nonexistent_path() {
    let result = traverse("/nonexistent/path/that/does/not/exist", None);
    assert!(result.is_err());
}

#[test]
fn nonexistent_root_reports_path_not_found() {
    let result = traverse("/definitely/does/not/exist", None);
    assert!(matches!(result, Err(DuskError::PathNotFound(_))));
}

#[test]
fn test_traverse_single_file() {
    let tmp = TempDir::new().unwrap();
    let mut file = NamedTempFile::new_in(tmp.path()).unwrap();
    file.write_all(b"data").unwrap();

    let result = traverse(file.path().to_str().unwrap(), None).unwrap();
    assert_eq!(result.entry_type, EntryType::File);
    assert_eq!(result.size_bytes, 4);
    assert!(result.children.is_empty());
}

#[test]
fn test_traverse_parallel_returns_root() {
    let tree = create_test_tree();
    let result = traverse_parallel(tree.root.path().to_str().unwrap(), None, Some(2));
    assert!(result.is_ok());
    let root = result.unwrap();
    assert_eq!(root.entry_type, EntryType::Directory);
    assert_eq!(root.depth, 0);
}

#[test]
fn test_traverse_parallel_finds_all_entries() {
    let tree = create_test_tree();
    let root = traverse_parallel(tree.root.path().to_str().unwrap(), None, Some(2)).unwrap();
    assert_eq!(count_nodes(&root), 6);
}

#[test]
fn test_traverse_parallel_file_sizes_match_sequential() {
    let tree = create_test_tree();
    let seq = traverse(tree.root.path().to_str().unwrap(), None).unwrap();
    let par = traverse_parallel(tree.root.path().to_str().unwrap(), None, Some(4)).unwrap();

    assert_eq!(seq.total_size(), par.total_size());
}

#[test]
fn test_traverse_parallel_with_max_depth() {
    let tree = create_test_tree();
    let root = traverse_parallel(tree.root.path().to_str().unwrap(), Some(1), Some(2)).unwrap();
    assert!(max_depth(&root) <= 1);
}

#[test]
fn test_traverse_empty_directory() {
    let tmp = TempDir::new().unwrap();
    let result = traverse(tmp.path().to_str().unwrap(), None).unwrap();
    assert_eq!(result.entry_type, EntryType::Directory);
    assert!(result.children.is_empty());
}

#[test]
fn empty_directory_total_is_its_own_size() {
    let tmp = TempDir::new().unwrap();
    let result = traverse(tmp.path().to_str().unwrap(), None).unwrap();
    assert!(result.children.is_empty());
    assert_eq!(result.total_size(), result.size_bytes);
}

#[test]
fn test_traverse_parallel_nonexistent_path() {
    let result = traverse_parallel("/nonexistent/path/does/not/exist", None, Some(2));
    assert!(result.is_err());
}

#[test]
fn parallel_and_sequential_agree_at_any_worker_count() {
    let tree = create_test_tree();
    let seq = traverse(tree.root.path().to_str().unwrap(), None).unwrap();
    for workers in [1usize, 2, 3, 8] {
        let par =
            traverse_parallel(tree.root.path().to_str().unwrap(), None, Some(workers)).unwrap();
        assert_eq!(seq.total_size(), par.total_size());
    }
}

#[test]
fn classify_kind_prefers_directory_then_symlink_then_file() {
    assert_eq!(classify_kind(true, true, true), EntryType::Directory);
    assert_eq!(classify_kind(false, true, true), EntryType::Symlink);
    assert_eq!(classify_kind(false, false, true), EntryType::File);
    assert_eq!(classify_kind(false, false, false), EntryType::Other);
}
