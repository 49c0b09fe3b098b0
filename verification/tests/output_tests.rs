use dusk::entry::{DiskEntry, EntryType};
use dusk::formatter::{GB, KB, MB};
use dusk::output::{colorize_path, colorize_size, render_entry, render_tree};

fn make_file(name: &str, size: u64) -> DiskEntry {
    DiskEntry::new(name.to_string(), size, EntryType::File, 1)
}

fn make_dir(name: &str, size: u64, children: Vec<DiskEntry>) -> DiskEntry {
    let mut entry = DiskEntry::new(name.to_string(), size, EntryType::Directory, 0);
    entry.children = children;
    entry
}

#[test]
fn test_render_entry_no_color_raw() {
    let entry = make_file("test.txt", 1024);
    let result = render_entry(&entry, false, false);
    assert_eq!(result, "1024\ttest.txt");
}

#[test]
fn test_render_entry_no_color_human() {
    let entry = make_file("test.txt", 1024);
    let result = render_entry(&entry, true, false);
    assert_eq!(result, "1.0K\ttest.txt");
}

#[test]
fn test_render_entry_directory_total_size() {
    let dir = make_dir(
        "/mydir",
        4096,
        vec![make_file("/mydir/a.txt", 100), make_file("/mydir/b.txt", 200)],
    );
    let result = render_entry(&dir, false, false);
    assert_eq!(result, "4396\t/mydir");
}

#[test]
fn test_render_tree_summarize() {
    let dir = make_dir("/mydir", 4096, vec![make_file("/mydir/a.txt", 100)]);
    let result = render_tree(&dir, false, false, true, false);
    assert_eq!(result, "4196\t/mydir");
}

#[test]
fn test_render_tree_directories_only() {
    let dir = make_dir("/root", 100, vec![make_file("/root/file.txt", 50)]);
    let result = render_tree(&dir, false, false, false, false);
    assert_eq!(result, "150\t/root");
}

#[test]
fn test_render_tree_show_all() {
    let dir = make_dir("/root", 100, vec![make_file("/root/file.txt", 50)]);
    let result = render_tree(&dir, false, true, false, false);
    let lines: Vec<&str> = result.lines().collect();
    assert_eq!(lines.len(), 2);
    assert_eq!(lines[0], "50\t/root/file.txt");
    assert_eq!(lines[1], "150\t/root");
}

#[test]
fn test_render_tree_nested_dirs() {
    let mut inner = DiskEntry::new("/root/sub".to_string(), 200, EntryType::Directory, 1);
    inner.children.push(DiskEntry::new(
        "/root/sub/data.bin".to_string(),
        1000,
        EntryType::File,
        2,
    ));
    let mut root = DiskEntry::new("/root".to_string(), 100, EntryType::Directory, 0);
    root.children.push(inner);

    let result = render_tree(&root, false, false, false, false);
    let lines: Vec<&str> = result.lines().collect();
    assert_eq!(lines.len(), 2);
    assert!(lines[0].contains("/root/sub"));
    assert!(lines[1].contains("/root"));
}

#[test]
fn test_render_entry_with_color() {
    let entry = make_file("test.txt", 500);
    let result = render_entry(&entry, true, true);
    assert!(!result.is_empty());
}

#[test]
fn test_colorize_size_ranges() {
    let _ = colorize_size("1.0G", 2 * GB);
    let _ = colorize_size("150M", 150 * MB);
    let _ = colorize_size("5.0M", 5 * MB);
    let _ = colorize_size("10K", 10 * KB);
    let _ = colorize_size("500B", 500);
}

#[test]
fn test_colorize_path_variants() {
    let _ = colorize_path("/dir", &EntryType::Directory);
    let _ = colorize_path("file.txt", &EntryType::File);
    let _ = colorize_path("link", &EntryType::Symlink);
    let _ = colorize_path("other", &EntryType::Other);
}

#[test]
fn test_render_tree_empty_dir() {
    let dir = DiskEntry::new("/empty".to_string(), 4096, EntryType::Directory, 0);
    let result = render_tree(&dir, true, false, false, false);
    assert_eq!(result, "4.0K\t/empty");
}

#[test]
fn test_render_tree_human_readable() {
    let dir = make_dir("/data", 0, vec![make_file("/data/big.bin", 5 * MB)]);
    let result = render_tree(&dir, true, true, false, false);
    let lines: Vec<&str> = result.lines().collect();
    assert_eq!(lines.len(), 2);
    assert!(lines[0].contains("5.0M"));
    assert!(lines[1].contains("5.0M"));
}
