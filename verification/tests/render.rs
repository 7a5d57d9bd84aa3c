use btrfs_subvolume_tree::node::Node;
use btrfs_subvolume_tree::render::{pad, LABEL_WIDTH};

const BYTES: [u8; 16] = [
    0xa1, 0xa2, 0xa3, 0xa4, 0xb1, 0xb2, 0xc1, 0xc2, 0xd1, 0xd2, 0xd3, 0xd4, 0xd5, 0xd6, 0xd7, 0x08,
];

fn node(id: u64, path: Option<&str>, mountpoint: Option<&str>) -> Node {
    Node {
        id,
        unique_id: BYTES,
        relative_path: path.map(str::to_owned),
        mountpoint: mountpoint.map(str::to_owned),
        children: Vec::new(),
    }
}

#[test]
fn label_width() {
    assert_eq!(LABEL_WIDTH, 25);
}

#[test]
fn pad_fills_up_with_spaces() {
    assert_eq!(pad("ab", 5), "ab   ");
    assert_eq!(pad("", 3), "   ");
    assert_eq!(pad("abc", 3), "abc");
    assert_eq!(pad("abcd", 3), "abcd");
    assert_eq!(pad("x", 0), "x");
}

#[test]
fn pad_counts_characters() {
    assert_eq!(pad("é", 3), "é  ");
    assert_eq!(pad("é", 3), format!("{: <3}", "é"));
}

#[test]
fn label_is_the_relative_path() {
    assert_eq!(node(256, Some("home"), None).label(), "home");
    assert_eq!(node(5, Some("named"), None).label(), "named");
    assert_eq!(node(256, Some(""), None).label(), "");
}

#[test]
fn label_of_the_root_without_path() {
    assert_eq!(node(5, None, None).label(), "ROOT");
}

#[test]
fn label_of_an_unresolved_subvolume() {
    assert_eq!(node(20, None, None).label(), "<unknown>");
}

#[test]
fn line_without_mountpoint() {
    assert_eq!(
        node(256, Some("home"), None).line(),
        "home                     \t\t[a1a2a3a4-b1b2-c1c2-d1d2-d3d4d5d6d708]"
    );
}

#[test]
fn line_with_mountpoint() {
    assert_eq!(
        node(256, Some("home"), Some("/home")).line(),
        "home                     \t\t[a1a2a3a4-b1b2-c1c2-d1d2-d3d4d5d6d708]\t\t/home"
    );
}

#[test]
fn line_of_the_root() {
    assert_eq!(
        node(5, None, Some("/")).line(),
        "ROOT                     \t\t[a1a2a3a4-b1b2-c1c2-d1d2-d3d4d5d6d708]\t\t/"
    );
}

#[test]
fn line_of_a_long_label_is_not_cut() {
    let path = "a/very/long/relative/path/of/a/subvolume";
    assert_eq!(
        node(300, Some(path), None).line(),
        format!("{path}\t\t[a1a2a3a4-b1b2-c1c2-d1d2-d3d4d5d6d708]")
    );
}

#[test]
fn line_agrees_with_the_formatter() {
    let uuid = uuid::Uuid::from_slice(&BYTES).unwrap();
    for (path, mountpoint) in [(Some("x"), Some("/mnt")), (None, None), (Some(""), Some(""))] {
        let node = node(20, path, mountpoint);
        let label = path.unwrap_or("<unknown>");
        let expected = match mountpoint {
            Some(mountpoint) => format!("{: <25}\t\t[{}]\t\t{}", label, uuid, mountpoint),
            None => format!("{: <25}\t\t[{}]", label, uuid),
        };
        assert_eq!(node.line(), expected);
    }
}

#[test]
fn line_writes_every_byte_of_the_uuid() {
    let mut subject = node(20, Some(""), None);
    subject.unique_id =
        [0x00, 0x01, 0x09, 0x0a, 0x0f, 0x10, 0x7f, 0x80, 0x9a, 0xaf, 0xf0, 0xff, 0x12, 0x34, 0xcd, 0xef];
    let line = subject.line();
    assert_eq!(&line[LABEL_WIDTH..], "\t\t[0001090a-0f10-7f80-9aaf-f0ff1234cdef]");
}
