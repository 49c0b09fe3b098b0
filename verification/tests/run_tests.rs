use dusk::cli::CliArgs;
use std::io::Write;
use dusk::entry::SortOrder;
use dusk::run_to_string;

fn args_for(paths: Vec<&str>) -> CliArgs {
    CliArgs {
        paths: paths.into_iter().map(|p| p.to_string()).collect(),
        human_readable: false,
        summarize: false,
        max_depth: None,
        all: false,
        sort: "none".to_string(),
        threads: None,
        no_color: true,
    }
}

#[test]
fn test_run_to_string_nonexistent_path() {
    let args = args_for(vec!["/nonexistent/path/for/testing"]);
    let result = run_to_string(&args);
    assert!(result.is_err());
}

#[test]
fn test_sort_order_invalid_defaults_to_none() {
    let mut args = args_for(vec!["."]);
    args.sort = "bogus".to_string();
    assert_eq!(args.sort_order(), SortOrder::Unsorted);
}

#[test]
fn sort_order_reads_the_sort_option() {
    let mut args = args_for(vec!["."]);
    args.sort = "size".to_string();
    assert_eq!(args.sort_order(), SortOrder::SizeDescending);
    args.sort = "size-asc".to_string();
    assert_eq!(args.sort_order(), SortOrder::SizeAscending);
    args.sort = "name".to_string();
    assert_eq!(args.sort_order(), SortOrder::Name);
    args.sort = "none".to_string();
    assert_eq!(args.sort_order(), SortOrder::Unsorted);
}

#[test]
fn run_to_string_renders_an_existing_directory() {
    let tmp = tempfile::TempDir::new().unwrap();
    let mut data = tempfile::NamedTempFile::new_in(tmp.path()).unwrap();
    data.write_all(b"0123456789").unwrap();
    let args = args_for(vec![tmp.path().to_str().unwrap()]);
    let output = run_to_string(&args).unwrap();
    assert!(!output.is_empty());
}
