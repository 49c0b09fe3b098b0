use dusk::entry::{DiskEntry, EntryType, SortOrder};

#[test]
fn test_entry_type_variants() {
    assert_eq!(EntryType::File, EntryType::File);
    assert_eq!(EntryType::Directory, EntryType::Directory);
    assert_eq!(EntryType::Symlink, EntryType::Symlink);
    assert_eq!(EntryType::Other, EntryType::Other);
    assert_ne!(EntryType::File, EntryType::Directory);
}

#[test]
fn test_sort_order_parse() {
    assert_eq!(SortOrder::parse("none"), Some(SortOrder::Unsorted));
    assert_eq!(SortOrder::parse("size"), Some(SortOrder::SizeDescending));
    assert_eq!(SortOrder::parse("size-asc"), Some(SortOrder::SizeAscending));
    assert_eq!(SortOrder::parse("name"), Some(SortOrder::Name));
    assert_eq!(SortOrder::parse("invalid"), None);
}

#[test]
fn test_disk_entry_new() {
    let entry = DiskEntry::new("/tmp/test".to_string(), 1024, EntryType::File, 0);
    assert_eq!(entry.path, "/tmp/test".to_string());
    assert_eq!(entry.size_bytes, 1024);
    assert_eq!(entry.entry_type, EntryType::File);
    assert_eq!(entry.depth, 0);
    assert!(entry.children.is_empty());
}

#[test]
fn test_total_size_leaf() {
    let entry = DiskEntry::new("file.txt".to_string(), 500, EntryType::File, 0);
    assert_eq!(entry.total_size(), 500);
}

#[test]
fn test_total_size_with_children() {
    let mut dir = DiskEntry::new("/dir".to_string(), 4096, EntryType::Directory, 0);
    dir.children.push(DiskEntry::new("/dir/a.txt".to_string(), 100, EntryType::File, 1));
    dir.children.push(DiskEntry::new("/dir/b.txt".to_string(), 200, EntryType::File, 1));
    assert_eq!(dir.total_size(), 4096 + 100 + 200);
}

#[test]
fn test_total_size_nested() {
    let mut root = DiskEntry::new("/root".to_string(), 4096, EntryType::Directory, 0);
    let mut sub = DiskEntry::new("/root/sub".to_string(), 4096, EntryType::Directory, 1);
    sub.children.push(DiskEntry::new(
        "/root/sub/file.txt".to_string(),
        1000,
        EntryType::File,
        2,
    ));
    root.children.push(sub);
    assert_eq!(root.total_size(), 4096 + 4096 + 1000);
}

#[test]
fn test_sort_entries_by_size_descending() {
    let mut dir = DiskEntry::new("/dir".to_string(), 0, EntryType::Directory, 0);
    dir.children.push(DiskEntry::new("/dir/small".to_string(), 100, EntryType::File, 1));
    dir.children.push(DiskEntry::new("/dir/large".to_string(), 9999, EntryType::File, 1));
    dir.children.push(DiskEntry::new("/dir/medium".to_string(), 500, EntryType::File, 1));

    dir.sort_entries(&SortOrder::SizeDescending);
    let sizes: Vec<u64> = dir.children.iter().map(|c| c.size_bytes).collect();
    assert_eq!(sizes, vec![9999, 500, 100]);
}

#[test]
fn test_sort_entries_by_size_ascending() {
    let mut dir = DiskEntry::new("/dir".to_string(), 0, EntryType::Directory, 0);
    dir.children.push(DiskEntry::new("/dir/large".to_string(), 9999, EntryType::File, 1));
    dir.children.push(DiskEntry::new("/dir/small".to_string(), 100, EntryType::File, 1));

    dir.sort_entries(&SortOrder::SizeAscending);
    let sizes: Vec<u64> = dir.children.iter().map(|c| c.size_bytes).collect();
    assert_eq!(sizes, vec![100, 9999]);
}

#[test]
fn test_sort_entries_by_name() {
    let mut dir = DiskEntry::new("/dir".to_string(), 0, EntryType::Directory, 0);
    dir.children.push(DiskEntry::new("/dir/charlie".to_string(), 100, EntryType::File, 1));
    dir.children.push(DiskEntry::new("/dir/alpha".to_string(), 200, EntryType::File, 1));
    dir.children.push(DiskEntry::new("/dir/bravo".to_string(), 300, EntryType::File, 1));

    dir.sort_entries(&SortOrder::Name);
    let names: Vec<&str> = dir
        .children
        .iter()
        .map(|c| c.path.rsplit('/').next().unwrap())
        .collect();
    assert_eq!(names, vec!["alpha", "bravo", "charlie"]);
}

#[test]
fn test_sort_entries_none_preserves_order() {
    let mut dir = DiskEntry::new("/dir".to_string(), 0, EntryType::Directory, 0);
    dir.children.push(DiskEntry::new("/dir/b".to_string(), 200, EntryType::File, 1));
    dir.children.push(DiskEntry::new("/dir/a".to_string(), 100, EntryType::File, 1));

    dir.sort_entries(&SortOrder::Unsorted);
    let names: Vec<&str> = dir
        .children
        .iter()
        .map(|c| c.path.rsplit('/').next().unwrap())
        .collect();
    assert_eq!(names, vec!["b", "a"]);
}

#[test]
fn test_collapse_to_depth_zero() {
    let mut root = DiskEntry::new("/root".to_string(), 100, EntryType::Directory, 0);
    root.children.push(DiskEntry::new("/root/child".to_string(), 200, EntryType::File, 1));
    let total = root.total_size();
    root.collapse_to_depth(0);
    assert!(root.children.is_empty());
    assert_eq!(root.size_bytes, total);
}

#[test]
fn test_collapse_to_depth_preserves_sizes() {
    let mut root = DiskEntry::new("/root".to_string(), 100, EntryType::Directory, 0);
    let mut sub = DiskEntry::new("/root/sub".to_string(), 200, EntryType::Directory, 1);
    sub.children.push(DiskEntry::new("/root/sub/deep".to_string(), 300, EntryType::File, 2));
    root.children.push(sub);

    let total_before = root.total_size();
    root.collapse_to_depth(1);

    assert_eq!(root.children.len(), 1);
    assert!(root.children[0].children.is_empty());
    assert_eq!(root.children[0].size_bytes, 200 + 300);
    assert_eq!(root.total_size(), total_before);
}

#[test]
fn test_collapse_to_depth_no_op_when_shallow() {
    let mut root = DiskEntry::new("/root".to_string(), 100, EntryType::Directory, 0);
    root.children.push(DiskEntry::new("/root/a".to_string(), 50, EntryType::File, 1));
    root.collapse_to_depth(5);
    assert_eq!(root.children.len(), 1);
    assert_eq!(root.children[0].size_bytes, 50);
}

#[test]
fn sort_descending_ties_keep_relative_order() {
    let mut dir = DiskEntry::new("/dir".to_string(), 0, EntryType::Directory, 0);
    dir.children.push(DiskEntry::new("/dir/first".to_string(), 100, EntryType::File, 1));
    dir.children.push(DiskEntry::new("/dir/second".to_string(), 100, EntryType::File, 1));
    dir.children.push(DiskEntry::new("/dir/third".to_string(), 300, EntryType::File, 1));

    dir.sort_entries(&SortOrder::SizeDescending);
    let names: Vec<&str> = dir
        .children
        .iter()
        .map(|c| c.path.rsplit('/').next().unwrap())
        .collect();
    assert_eq!(names, vec!["third", "first", "second"]);
}

#[test]
fn collapse_large_depth_tree_totals_unchanged() {
    let mut root = DiskEntry::new("/r".to_string(), 7, EntryType::Directory, 0);
    let mut a = DiskEntry::new("/r/a".to_string(), 11, EntryType::Directory, 1);
    let mut b = DiskEntry::new("/r/a/b".to_string(), 13, EntryType::Directory, 2);
    b.children.push(DiskEntry::new("/r/a/b/c".to_string(), 17, EntryType::File, 3));
    a.children.push(b);
    root.children.push(a);
    let before = root.total_size();
    root.collapse_to_depth(2);
    assert_eq!(root.total_size(), before);
    assert_eq!(root.children[0].children[0].size_bytes, 13 + 17);
    assert!(root.children[0].children[0].children.is_empty());
}

#[test]
fn sort_descending_orders_every_level() {
    let mut inner = DiskEntry::new("/d/inner".to_string(), 0, EntryType::Directory, 1);
    inner.children.push(DiskEntry::new("/d/inner/x".to_string(), 1, EntryType::File, 2));
    inner.children.push(DiskEntry::new("/d/inner/y".to_string(), 50, EntryType::File, 2));
    let mut dir = DiskEntry::new("/d".to_string(), 0, EntryType::Directory, 0);
    dir.children.push(DiskEntry::new("/d/a".to_string(), 10, EntryType::File, 1));
    dir.children.push(inner);

    dir.sort_entries(&SortOrder::SizeDescending);

    let tops: Vec<u64> = dir.children.iter().map(|c| c.total_size()).collect();
    assert_eq!(tops, vec![51, 10]);
    let inners: Vec<u64> = dir.children[0].children.iter().map(|c| c.total_size()).collect();
    assert_eq!(inners, vec![50, 1]);
}
