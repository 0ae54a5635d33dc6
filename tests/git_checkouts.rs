use std::path::PathBuf;

use checkout_stats::{chkout_list_to_string, name_from_pb, stats_from_file_desc_list, ChkInfo, FileDesc};

fn fd(name: &str, size: u64) -> FileDesc {
    FileDesc {
        path: name.to_string(),
        name: name.to_string(),
        size,
    }
}

#[test]
fn name_from_pb_cargo_cache() {
    let path =
        PathBuf::from("/home/matthias/.cargo/git/checkouts/cargo-cache-16826c8e13331adc/0f9966c");
    let name = name_from_pb(path.to_str().unwrap()).unwrap();
    assert_eq!(name, "cargo-cache");
}

#[test]
fn name_from_pb_alacritty() {
    let path =
        PathBuf::from("/home/matthias/.cargo/git/checkouts/alacritty-de74975f496aa2c0/f4fc9eb");
    let name = name_from_pb(path.to_str().unwrap()).unwrap();
    assert_eq!(name, "alacritty");
}

#[test]
fn stats_from_file_desc_none() {
    let list: Vec<FileDesc> = Vec::new();
    let stats = stats_from_file_desc_list(list);
    let is = chkout_list_to_string(4, stats);
    let empty = String::new();
    assert_eq!(is, empty);
}

#[test]
fn stats_from_file_desc_one() {
    let fd = FileDesc {
        path: String::from("crateA"),
        name: "crateA".to_string(),
        size: 1,
    };
    let list_fd: Vec<FileDesc> = vec![fd];
    let list_cb: Vec<ChkInfo> = stats_from_file_desc_list(list_fd);
    let is: String = chkout_list_to_string(1, list_cb);
    let wanted = String::from("Name   Count Average Total\ncrateA 1     1 B     1 B\n");
    assert_eq!(is, wanted);
}

#[test]
fn stats_from_file_desc_two() {
    let list_fd: Vec<FileDesc> = vec![fd("crate-A", 1), fd("crate-B", 2)];
    let list_cb: Vec<ChkInfo> = stats_from_file_desc_list(list_fd);
    let is: String = chkout_list_to_string(3, list_cb);

    let mut wanted = String::new();
    for i in &[
        "Name    Count Average Total\n",
        "crate-B 1     2 B     2 B\n",
        "crate-A 1     1 B     1 B\n",
    ] {
        wanted.push_str(i);
    }
    assert_eq!(is, wanted);
}

#[test]
fn stats_from_file_desc_multiple() {
    let list_fd: Vec<FileDesc> = vec![
        fd("crate-A", 1),
        fd("crate-B", 2),
        fd("crate-C", 10),
        fd("crate-D", 6),
        fd("crate-E", 4),
    ];
    let list_cb: Vec<ChkInfo> = stats_from_file_desc_list(list_fd);
    let is: String = chkout_list_to_string(6, list_cb);

    let mut wanted = String::new();
    for i in &[
        "Name    Count Average Total\n",
        "crate-C 1     10 B    10 B\n",
        "crate-D 1     6 B     6 B\n",
        "crate-E 1     4 B     4 B\n",
        "crate-B 1     2 B     2 B\n",
        "crate-A 1     1 B     1 B\n",
    ] {
        wanted.push_str(i);
    }
    assert_eq!(is, wanted);
}

#[test]
fn stats_from_file_desc_same_name_2_one() {
    let list_fd: Vec<FileDesc> = vec![fd("crate-A", 3), fd("crate-A", 3)];
    let list_cb: Vec<ChkInfo> = stats_from_file_desc_list(list_fd);
    let is: String = chkout_list_to_string(2, list_cb);
    let wanted = String::from("Name    Count Average Total\ncrate-A 2     3 B     6 B\n");
    assert_eq!(is, wanted);
}

#[test]
fn stats_from_file_desc_same_name_3_one() {
    let list_fd: Vec<FileDesc> = vec![fd("crate-A", 3), fd("crate-A", 3), fd("crate-A", 3)];
    let list_cb: Vec<ChkInfo> = stats_from_file_desc_list(list_fd);
    let is: String = chkout_list_to_string(3, list_cb);
    let wanted = String::from("Name    Count Average Total\ncrate-A 3     3 B     9 B\n");
    assert_eq!(is, wanted);
}

#[test]
fn stats_from_file_desc_same_name_3_one_2() {
    let list_fd: Vec<FileDesc> = vec![fd("crate-A", 2), fd("crate-A", 4), fd("crate-A", 12)];
    let list_cb: Vec<ChkInfo> = stats_from_file_desc_list(list_fd);
    let is: String = chkout_list_to_string(3, list_cb);
    let wanted = String::from("Name    Count Average Total\ncrate-A 3     6 B     18 B\n");
    assert_eq!(is, wanted);
}

#[test]
fn stats_from_file_desc_multi() {
    let list_fd: Vec<FileDesc> = vec![
        fd("crate-A", 2),
        fd("crate-A", 4),
        fd("crate-A", 12),
        fd("crate-B", 2),
        fd("crate-B", 8),
        fd("crate-C", 0),
        fd("crate-C", 100),
        fd("crate-D", 1),
    ];
    let list_cb: Vec<ChkInfo> = stats_from_file_desc_list(list_fd);
    let is: String = chkout_list_to_string(5, list_cb);

    let mut wanted = String::new();
    for i in &[
        "Name    Count Average Total\n",
        "crate-C 2     50 B    100 B\n",
        "crate-A 3     6 B     18 B\n",
        "crate-B 2     5 B     10 B\n",
        "crate-D 1     1 B     1 B\n",
    ] {
        wanted.push_str(i);
    }
    assert_eq!(is, wanted);
}
