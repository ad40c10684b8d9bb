use rgit::base::{
    get_tree, get_working_tree, is_ignored, name_is_valid, read_tree, tree_entries, write_tree,
};
use rgit::data::{get_object, hash_object, ObjectKind, Repository};
use rgit::error::Error;
use rgit::strmap::StrMap;
use rgit::tree::{parse_tree_text, render_tree, sort_entries, TreeEntry};
use rgit::worktree::Node;

const HELLO: &str = "5b211494ba9e0f5c98ca51e8732bda579d8487ef";
const WORLD: &str = "7186b66b6ad5dc034b76436018f1056527106104";
const EMPTY_TREE: &str = "d28c5ff92df044a522508a29cf3fad0b812f672f";
const TREE_A: &str = "accfa819f512c99706884dcd3063986e6d24b27b";

fn file(name: &str, content: &[u8]) -> Node {
    Node::File { name: name.to_string(), content: content.to_vec() }
}

fn dir(name: &str, children: Vec<Node>) -> Node {
    Node::Dir { name: name.to_string(), children }
}

fn entry(kind: &str, oid: &str, name: &str) -> TreeEntry {
    TreeEntry { name: name.to_string(), oid: oid.to_string(), kind: kind.to_string() }
}

fn pairs(map: &StrMap<String>) -> Vec<(String, String)> {
    let mut out = Vec::new();
    for i in 0..map.len() {
        out.push((map.key_at(i).clone(), map.value_at(i).clone()));
    }
    out
}

fn files(map: &StrMap<Vec<u8>>) -> Vec<(String, Vec<u8>)> {
    let mut out = Vec::new();
    for i in 0..map.len() {
        out.push((map.key_at(i).clone(), map.value_at(i).clone()));
    }
    out
}

fn tree_with(repo: &mut Repository, text: &str) -> String {
    hash_object(repo, &text.as_bytes().to_vec(), ObjectKind::Tree)
}

#[test]
fn write_tree_of_one_file_has_the_expected_id_and_content() {
    let mut repo = Repository::new();
    let oid = write_tree(&mut repo, &vec![file("a.txt", b"hello")]);
    assert_eq!(oid, TREE_A);
    assert_eq!(
        get_object(&repo, oid, Some(ObjectKind::Tree)),
        Ok((ObjectKind::Tree, format!("blob {} a.txt\n", HELLO).into_bytes()))
    );
    assert_eq!(get_object(&repo, HELLO.to_string(), None), Ok((ObjectKind::Blob, b"hello".to_vec())));
    assert_eq!(repo.objects.len(), 2);
}

#[test]
fn write_tree_of_an_empty_directory_is_the_empty_tree() {
    let mut repo = Repository::new();
    assert_eq!(write_tree(&mut repo, &Vec::new()), EMPTY_TREE);
    assert_eq!(get_object(&repo, EMPTY_TREE.to_string(), None), Ok((ObjectKind::Tree, Vec::new())));
}

#[test]
fn write_tree_sorts_its_entries_by_name() {
    let mut repo = Repository::new();
    let oid = write_tree(
        &mut repo,
        &vec![file("b", b"world"), dir("a.d", vec![]), file("a", b"hello"), file("B", b"hello")],
    );
    let text = String::from_utf8(get_object(&repo, oid, None).unwrap().1).unwrap();
    assert_eq!(
        text,
        format!(
            "blob {} B\nblob {} a\ntree {} a.d\nblob {} b\n",
            HELLO, HELLO, EMPTY_TREE, WORLD
        )
    );
}

#[test]
fn write_tree_gives_the_same_id_whatever_the_order_and_the_store() {
    let mut one = Repository::new();
    let mut two = Repository::new();
    hash_object(&mut two, &b"unrelated".to_vec(), ObjectKind::Blob);
    let first = write_tree(
        &mut one,
        &vec![file("x", b"1"), dir("d", vec![file("y", b"2"), file("z", b"3")])],
    );
    let second = write_tree(
        &mut two,
        &vec![dir("d", vec![file("z", b"3"), file("y", b"2")]), file("x", b"1")],
    );
    assert_eq!(first, second);
    let again = write_tree(
        &mut one,
        &vec![file("x", b"1"), dir("d", vec![file("y", b"2"), file("z", b"3")])],
    );
    assert_eq!(first, again);
    assert_eq!(one.objects.len(), 5);
}

#[test]
fn write_tree_leaves_out_the_storage_root() {
    let mut repo = Repository::new();
    let with = write_tree(
        &mut repo,
        &vec![
            file("a.txt", b"hello"),
            dir(".rgit", vec![file("HEAD", b"ref: refs/heads/master")]),
        ],
    );
    assert_eq!(with, TREE_A);
    assert_eq!(repo.objects.len(), 2);
}

#[test]
fn write_tree_keeps_names_that_only_hold_the_storage_roots_name() {
    let mut repo = Repository::new();
    let directory = vec![
        file("a.rgit.txt", &[255]),
        file(".rgit.bak", b"hello"),
        dir("x.rgit", vec![file("inside", b"world")]),
        dir(".rgit", vec![file("HEAD", b"ref: refs/heads/master")]),
    ];
    let oid = write_tree(&mut repo, &directory);
    let text = String::from_utf8(get_object(&repo, oid.clone(), None).unwrap().1).unwrap();
    assert_eq!(text.lines().count(), 3);
    assert!(text.contains(" .rgit.bak\n"));
    assert!(text.contains(" a.rgit.txt\n"));
    assert!(text.contains(" x.rgit\n"));
    let tree = get_tree(&repo, oid.clone(), String::new()).unwrap();
    assert_eq!(tree.len(), 3);
    assert_eq!(tree.get(".rgit.bak"), Some(&HELLO.to_string()));
    assert_eq!(tree.get("x.rgit/inside"), Some(&WORLD.to_string()));
    assert!(tree.contains_key("a.rgit.txt"));
    let read = read_tree(&repo, oid).unwrap();
    assert_eq!(
        files(&read),
        vec![
            (".rgit.bak".to_string(), b"hello".to_vec()),
            ("a.rgit.txt".to_string(), vec![255u8]),
            ("x.rgit/inside".to_string(), b"world".to_vec()),
        ]
    );
    let live = get_working_tree(&directory);
    assert_eq!(live.len(), 3);
    assert_eq!(live.get("x.rgit/inside"), Some(&WORLD.to_string()));
}

#[test]
fn a_storage_root_below_the_top_is_left_out_too() {
    let mut repo = Repository::new();
    let oid = write_tree(
        &mut repo,
        &vec![dir("sub", vec![dir(".rgit", vec![file("HEAD", b"x")]), file("a.txt", b"hello")])],
    );
    let tree = get_tree(&repo, oid, String::new()).unwrap();
    assert_eq!(pairs(&tree), vec![("sub/a.txt".to_string(), HELLO.to_string())]);
}

#[test]
fn is_ignored_holds_of_the_storage_root_and_what_is_under_it() {
    assert!(is_ignored(&".rgit".to_string()));
    assert!(is_ignored(&"./.rgit".to_string()));
    assert!(is_ignored(&"./.rgit/objects/ab".to_string()));
    assert!(is_ignored(&"sub/.rgit/HEAD".to_string()));
    assert!(is_ignored(&".rgit/".to_string()));
    assert!(!is_ignored(&"./a.rgit.txt".to_string()));
    assert!(!is_ignored(&"dir/x.rgit".to_string()));
    assert!(!is_ignored(&"notes.rgit.bak".to_string()));
    assert!(!is_ignored(&".rgit.bak/x".to_string()));
    assert!(!is_ignored(&"rgit".to_string()));
    assert!(!is_ignored(&".rgi".to_string()));
    assert!(!is_ignored(&".rg/it".to_string()));
    assert!(!is_ignored(&"./".to_string()));
    assert!(!is_ignored(&String::new()));
}

#[test]
fn get_tree_flattens_nested_trees() {
    let mut repo = Repository::new();
    let oid = write_tree(
        &mut repo,
        &vec![
            file("top", b"hello"),
            dir("d", vec![file("in", b"world"), dir("e", vec![file("deep", b"hello")])]),
            dir("empty", vec![]),
        ],
    );
    let tree = get_tree(&repo, oid.clone(), String::new()).unwrap();
    assert_eq!(
        pairs(&tree),
        vec![
            ("d/e/deep".to_string(), HELLO.to_string()),
            ("d/in".to_string(), WORLD.to_string()),
            ("top".to_string(), HELLO.to_string()),
        ]
    );
    let below = get_tree(&repo, oid, "./".to_string()).unwrap();
    assert_eq!(below.get("./d/in"), Some(&WORLD.to_string()));
    assert_eq!(below.len(), 3);
}

#[test]
fn get_tree_of_the_empty_id_is_empty() {
    let repo = Repository::new();
    assert_eq!(get_tree(&repo, String::new(), String::new()).unwrap().len(), 0);
    assert_eq!(tree_entries(&repo, String::new()), Ok(vec![]));
}

#[test]
fn get_tree_of_an_absent_or_other_object_fails() {
    let mut repo = Repository::new();
    assert!(matches!(get_tree(&repo, TREE_A.to_string(), String::new()), Err(Error::NotFound)));
    let blob = hash_object(&mut repo, &b"hello".to_vec(), ObjectKind::Blob);
    assert!(matches!(get_tree(&repo, blob, String::new()), Err(Error::TypeMismatch)));
}

#[test]
fn get_tree_rejects_invalid_names() {
    let mut repo = Repository::new();
    for name in ["a/b", ".", "..", "/"] {
        let oid = tree_with(&mut repo, &format!("blob {} {}\n", HELLO, name));
        assert!(matches!(get_tree(&repo, oid, String::new()), Err(Error::InvalidName)));
    }
    let fine = tree_with(&mut repo, &format!("blob {} ...\nblob {} a b\n", HELLO, WORLD));
    let tree = get_tree(&repo, fine, String::new()).unwrap();
    assert_eq!(tree.get("..."), Some(&HELLO.to_string()));
    assert_eq!(tree.get("a b"), Some(&WORLD.to_string()));
}

#[test]
fn get_tree_rejects_malformed_trees() {
    let mut repo = Repository::new();
    let short = tree_with(&mut repo, &format!("blob {}\n", HELLO));
    assert!(matches!(get_tree(&repo, short, String::new()), Err(Error::Malformed)));
    let odd = tree_with(&mut repo, &format!("link {} a\n", HELLO));
    assert!(matches!(get_tree(&repo, odd, String::new()), Err(Error::Malformed)));
    let bytes = hash_object(&mut repo, &vec![0xff, 0xfe], ObjectKind::Tree);
    assert!(matches!(get_tree(&repo, bytes, String::new()), Err(Error::Malformed)));
}

#[test]
fn get_tree_of_a_tree_that_holds_itself_fails() {
    let mut repo = Repository::new();
    repo.objects.insert("loop".to_string(), b"tree\0tree loop again\n".to_vec());
    assert!(matches!(get_tree(&repo, "loop".to_string(), String::new()), Err(Error::Malformed)));
}

#[test]
fn a_later_entry_of_the_same_path_wins() {
    let mut repo = Repository::new();
    let oid = tree_with(&mut repo, &format!("blob {} a\nblob {} a\n", HELLO, WORLD));
    let tree = get_tree(&repo, oid, String::new()).unwrap();
    assert_eq!(pairs(&tree), vec![("a".to_string(), WORLD.to_string())]);
}

#[test]
fn read_tree_gives_back_the_files_that_were_written() {
    let mut repo = Repository::new();
    let directory = vec![
        file("a.txt", b"hello"),
        dir("src", vec![file("main.rs", b"fn main() {}\n"), dir("bin", vec![file("x", &[0, 1, 2])])]),
        dir("none", vec![]),
        dir(".rgit", vec![file("HEAD", b"x")]),
    ];
    let oid = write_tree(&mut repo, &directory);
    let read = read_tree(&repo, oid).unwrap();
    assert_eq!(
        files(&read),
        vec![
            ("a.txt".to_string(), b"hello".to_vec()),
            ("src/bin/x".to_string(), vec![0u8, 1, 2]),
            ("src/main.rs".to_string(), b"fn main() {}\n".to_vec()),
        ]
    );
}

#[test]
fn read_tree_fails_where_a_blob_is_missing() {
    let mut repo = Repository::new();
    let oid = tree_with(&mut repo, &format!("blob {} a\n", HELLO));
    assert!(matches!(read_tree(&repo, oid), Err(Error::NotFound)));
}

#[test]
fn get_working_tree_hashes_without_storing() {
    let directory = vec![
        file("a.txt", b"hello"),
        dir(".rgit", vec![file("HEAD", b"x")]),
        dir("d", vec![file("w", b"world")]),
    ];
    let tree = get_working_tree(&directory);
    assert_eq!(
        pairs(&tree),
        vec![("a.txt".to_string(), HELLO.to_string()), ("d/w".to_string(), WORLD.to_string())]
    );
}

#[test]
fn the_working_tree_of_what_was_written_is_the_tree_that_was_written() {
    let mut repo = Repository::new();
    let directory = vec![dir("d", vec![file("w", b"world")]), file("a.txt", b"hello")];
    let oid = write_tree(&mut repo, &directory);
    let stored = get_tree(&repo, oid, String::new()).unwrap();
    let live = get_working_tree(&directory);
    assert_eq!(stored.len(), live.len());
    for i in 0..live.len() {
        assert_eq!(stored.get(live.key_at(i)), Some(live.value_at(i)));
    }
}

#[test]
fn tree_text_is_parsed_back() {
    let entries = vec![
        entry("blob", HELLO, "a b c"),
        entry("tree", EMPTY_TREE, "d"),
        entry("blob", WORLD, ""),
    ];
    let text = render_tree(&entries);
    assert_eq!(text, format!("blob {} a b c\ntree {} d\nblob {} \n", HELLO, EMPTY_TREE, WORLD));
    assert_eq!(parse_tree_text(&text), Some(entries));
    assert_eq!(parse_tree_text(""), Some(vec![]));
    assert_eq!(parse_tree_text("blob x"), None);
    assert_eq!(parse_tree_text("blob x y\nz\n"), None);
}

#[test]
fn entries_are_sorted_by_name_then_id_then_kind() {
    let sorted = sort_entries(vec![
        entry("tree", "2", "b"),
        entry("blob", "2", "b"),
        entry("blob", "1", "b"),
        entry("blob", "9", "a"),
        entry("blob", "0", "ab"),
        entry("blob", "0", "Z"),
        entry("blob", "0", "\u{e9}"),
    ]);
    let names: Vec<(String, String, String)> =
        sorted.into_iter().map(|e| (e.name, e.oid, e.kind)).collect();
    let expected: Vec<(String, String, String)> = [
        ("Z", "0", "blob"),
        ("a", "9", "blob"),
        ("ab", "0", "blob"),
        ("b", "1", "blob"),
        ("b", "2", "blob"),
        ("b", "2", "tree"),
        ("\u{e9}", "0", "blob"),
    ]
    .iter()
    .map(|t| (t.0.to_string(), t.1.to_string(), t.2.to_string()))
    .collect();
    assert_eq!(names, expected);
}

#[test]
fn names_with_a_separator_or_of_dots_are_invalid() {
    assert!(name_is_valid("a"));
    assert!(name_is_valid("..."));
    assert!(name_is_valid(".a"));
    assert!(name_is_valid(""));
    assert!(!name_is_valid("."));
    assert!(!name_is_valid(".."));
    assert!(!name_is_valid("a/b"));
    assert!(!name_is_valid("/"));
}
