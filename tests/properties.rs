use checkout_stats::{
    chkout_list_to_string, file_desc_from_path, format_table, git_checkouts_stats, name_from_pb,
    runs_fit, stats_from_file_desc_list, to_decimal, ChkInfo, FileDesc, PathError,
};

fn fd(name: &str, size: u64) -> FileDesc {
    FileDesc {
        path: name.to_string(),
        name: name.to_string(),
        size,
    }
}

fn groups(list: Vec<FileDesc>) -> Vec<(String, u32, u64)> {
    stats_from_file_desc_list(list)
        .into_iter()
        .map(|c| (c.name, c.counter, c.total_size))
        .collect()
}

#[test]
fn counts_and_totals_cover_input() {
    let list = vec![
        fd("a", 5),
        fd("a", 7),
        fd("b", 0),
        fd("c", 9),
        fd("c", 1),
        fd("c", 2),
    ];
    let g = groups(list);
    let count: u32 = g.iter().map(|x| x.1).sum();
    let total: u64 = g.iter().map(|x| x.2).sum();
    assert_eq!(count, 6);
    assert_eq!(total, 24);
    assert_eq!(
        g,
        vec![
            ("a".to_string(), 2, 12),
            ("b".to_string(), 1, 0),
            ("c".to_string(), 3, 12)
        ]
    );
}

#[test]
fn separated_runs_stay_separate() {
    let g = groups(vec![fd("a", 1), fd("b", 2), fd("a", 3)]);
    assert_eq!(
        g,
        vec![
            ("a".to_string(), 1, 1),
            ("b".to_string(), 1, 2),
            ("a".to_string(), 1, 3)
        ]
    );
}

#[test]
fn empty_input_gives_empty_output() {
    assert!(stats_from_file_desc_list(Vec::new()).is_empty());
    assert_eq!(chkout_list_to_string(0, Vec::new()), "");
    assert_eq!(chkout_list_to_string(10, Vec::new()), "");
}

#[test]
fn identity_ignores_suffix_and_revision() {
    let a = name_from_pb("/x/checkouts/cargo-cache-16826c8e13331adc/0f9966c").unwrap();
    let b = name_from_pb("/x/checkouts/cargo-cache-aaaa/1234567").unwrap();
    assert_eq!(a, b);
    assert_eq!(a, "cargo-cache");
}

#[test]
fn identity_ignores_repeated_slashes() {
    assert_eq!(name_from_pb("/x//proj-ab//rev/").unwrap(), "proj");
}

#[test]
fn malformed_paths_are_rejected() {
    assert_eq!(name_from_pb("onlyone-abc"), Err(PathError::MalformedPath));
    assert_eq!(name_from_pb(""), Err(PathError::MalformedPath));
    assert_eq!(name_from_pb("/x/nohyphen/rev"), Err(PathError::MalformedPath));
    assert_eq!(name_from_pb("/x/-abc/rev"), Err(PathError::MalformedPath));
    assert_eq!(name_from_pb("a/-b/c"), Err(PathError::MalformedPath));
    assert_eq!(name_from_pb("a/b-/c").unwrap(), "b");
}

#[test]
fn ranking_ignores_input_order() {
    let a = vec![
        ChkInfo::new("x".to_string(), 1, 5),
        ChkInfo::new("y".to_string(), 2, 9),
        ChkInfo::new("z".to_string(), 1, 1),
    ];
    let b = vec![
        ChkInfo::new("z".to_string(), 1, 1),
        ChkInfo::new("x".to_string(), 1, 5),
        ChkInfo::new("y".to_string(), 2, 9),
    ];
    assert_eq!(chkout_list_to_string(2, a), chkout_list_to_string(2, b));
}

#[test]
fn equal_totals_keep_input_order() {
    let a = vec![
        ChkInfo::new("x".to_string(), 1, 5),
        ChkInfo::new("y".to_string(), 1, 5),
    ];
    assert_eq!(
        chkout_list_to_string(5, a),
        "Name Count Average Total\nx    1     5 B     5 B\ny    1     5 B     5 B\n"
    );
}

#[test]
fn limit_zero_keeps_header() {
    let a = vec![ChkInfo::new("x".to_string(), 1, 5)];
    assert_eq!(chkout_list_to_string(0, a), "Name Count Average Total\n");
}

#[test]
fn sizes_use_decimal_units() {
    let a = vec![ChkInfo::new("big".to_string(), 2, 3000)];
    assert_eq!(
        chkout_list_to_string(1, a),
        "Name Count Average Total\nbig  2     1.50 KB 3 KB\n"
    );
}

#[test]
fn mixed_groups_descending() {
    let list = vec![
        fd("crate-A", 2),
        fd("crate-A", 4),
        fd("crate-A", 12),
        fd("crate-B", 2),
        fd("crate-B", 8),
        fd("crate-C", 0),
        fd("crate-C", 100),
        fd("crate-D", 1),
    ];
    let text = git_checkouts_stats("/root/git", true, 131, 5, list);
    assert_eq!(
        text,
        "\nSummary of: /root/git (131 B total)\nName    Count Average Total\ncrate-C 2     50 B    100 B\ncrate-A 3     6 B     18 B\ncrate-B 2     5 B     10 B\ncrate-D 1     1 B     1 B\n"
    );
}

#[test]
fn missing_root_gives_empty_report() {
    let list = vec![fd("crate-A", 2)];
    assert_eq!(git_checkouts_stats("/nowhere", false, 2, 5, list), "");
    assert_eq!(git_checkouts_stats("/nowhere", false, 0, 0, Vec::new()), "");
}

#[test]
fn descriptors_from_paths() {
    let paths = vec![
        "/c/alacritty-de74975f496aa2c0/f4fc9eb".to_string(),
        "/c/cargo-cache-16826c8e13331adc/0f9966c".to_string(),
    ];
    let d = file_desc_from_path(&paths, &vec![10, 20]).unwrap();
    assert_eq!(d.len(), 2);
    assert_eq!(d[0].name, "alacritty");
    assert_eq!(d[0].size, 10);
    assert_eq!(d[1].name, "cargo-cache");
    assert_eq!(d[1].path, paths[1]);
    let bad = vec!["/c/plain/rev".to_string()];
    assert_eq!(file_desc_from_path(&bad, &vec![1]).err(), Some(PathError::MalformedPath));
}

#[test]
fn decimal_text() {
    assert_eq!(to_decimal(0), "0");
    assert_eq!(to_decimal(7), "7");
    assert_eq!(to_decimal(1050), "1050");
    assert_eq!(to_decimal(u64::MAX), "18446744073709551615");
}

#[test]
fn table_layout() {
    let m = vec![
        vec!["ab".to_string(), "c".to_string()],
        vec!["d".to_string(), "efg".to_string()],
    ];
    assert_eq!(format_table(&m), "ab c\nd  efg\n");
    assert_eq!(format_table(&Vec::new()), "");
}

#[test]
fn group_bounds_are_per_run() {
    let fits = vec![fd("a", u64::MAX), fd("b", u64::MAX)];
    assert!(runs_fit(&fits));
    let g = groups(fits);
    assert_eq!(
        g,
        vec![("a".to_string(), 1, u64::MAX), ("b".to_string(), 1, u64::MAX)]
    );
    assert!(!runs_fit(&vec![fd("a", u64::MAX), fd("a", 1)]));
    assert!(runs_fit(&Vec::new()));
    assert!(runs_fit(&vec![fd("a", 3), fd("a", 4), fd("b", 0)]));
}

#[test]
fn dot_segments_do_not_count() {
    assert_eq!(name_from_pb("a-b/."), Err(PathError::MalformedPath));
    assert_eq!(name_from_pb("a/n-s/./r").unwrap(), "n");
    assert_eq!(name_from_pb("ab/x-y/."), Err(PathError::MalformedPath));
    assert_eq!(name_from_pb("./proj-ab/rev").unwrap(), "proj");
    assert_eq!(name_from_pb("/c/proj-ab/./rev/.").unwrap(), "proj");
    assert_eq!(name_from_pb("/c/proj.x-ab/r.").unwrap(), "proj.x");
}
