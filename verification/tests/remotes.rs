use rgit::base::{commit, get_commit, read_tree};
use rgit::data::{get_object, object_exists, update_ref, RefValue, Repository};
use rgit::error::Error;
use rgit::remote::{
    copy_objects_in_commits_and_parents, fetch, get_remote_refs, is_ancestor_of,
    iter_objects_in_commits, push, trim_start,
};
use rgit::worktree::Node;
use std::collections::VecDeque;

const HELLO: &str = "5b211494ba9e0f5c98ca51e8732bda579d8487ef";
const TREE_A: &str = "accfa819f512c99706884dcd3063986e6d24b27b";

fn file(name: &str, content: &[u8]) -> Node {
    Node::File { name: name.to_string(), content: content.to_vec() }
}

fn dir(name: &str, children: Vec<Node>) -> Node {
    Node::Dir { name: name.to_string(), children }
}

fn fresh() -> Repository {
    rgit::base::init(false).unwrap()
}

fn queue(oids: &[&str]) -> VecDeque<String> {
    oids.iter().map(|oid| oid.to_string()).collect()
}

#[test]
fn get_remote_refs_lists_names_with_the_values_they_lead_to() {
    let mut remote = fresh();
    let c1 = commit(&mut remote, &vec![file("a.txt", b"hello")], "init").unwrap();
    update_ref(
        &mut remote,
        "refs/heads/alias".to_string(),
        RefValue { value: "refs/heads/master".to_string(), symbolic: true },
        false,
    )
    .unwrap();
    update_ref(
        &mut remote,
        "refs/tags/v1".to_string(),
        RefValue { value: c1.clone(), symbolic: false },
        true,
    )
    .unwrap();
    let refs = get_remote_refs(&remote, "refs/heads/").unwrap();
    assert_eq!(refs.len(), 2);
    assert_eq!(refs.get("refs/heads/master"), Some(&c1));
    assert_eq!(refs.get("refs/heads/alias"), Some(&c1));
    let all = get_remote_refs(&remote, "").unwrap();
    assert_eq!(all.len(), 4);
    assert_eq!(all.key_at(0), "HEAD");
}

#[test]
fn the_objects_of_a_history_are_its_commits_with_their_trees() {
    let mut repo = fresh();
    let c1 = commit(&mut repo, &vec![file("a.txt", b"hello")], "init").unwrap();
    let c2 = commit(
        &mut repo,
        &vec![file("a.txt", b"hello"), dir("d", vec![file("b", b"hello")])],
        "more",
    )
    .unwrap();
    let tree2 = get_commit(&repo, c2.clone()).unwrap().tree;
    let objects = iter_objects_in_commits(&repo, queue(&[&c2])).unwrap();
    assert_eq!(objects.len(), 8);
    assert_eq!(objects[0], c2);
    assert_eq!(objects[1], tree2);
    assert_eq!(objects[2], HELLO);
    assert_eq!(objects[4], HELLO);
    assert_eq!(objects[5], c1);
    assert_eq!(objects[6], TREE_A);
    assert_eq!(objects[7], HELLO);
    assert_eq!(iter_objects_in_commits(&repo, queue(&[])), Ok(vec![]));
    assert_eq!(iter_objects_in_commits(&repo, queue(&["missing"])), Err(Error::NotFound));
}

#[test]
fn fetch_copies_the_history_and_mirrors_the_branches() {
    let mut remote = fresh();
    let c1 = commit(&mut remote, &vec![file("a.txt", b"hello")], "init").unwrap();
    let c2 = commit(&mut remote, &vec![file("a.txt", b"world")], "update").unwrap();
    let mut local = fresh();
    assert_eq!(fetch(&mut local, &remote), Ok(()));
    assert_eq!(local.refs.get("refs/remote/master"), Some(&c2));
    assert_eq!(local.refs.get("HEAD"), Some(&"ref: refs/heads/master".to_string()));
    assert!(!local.refs.contains_key("refs/heads/master"));
    assert_eq!(local.objects.len(), remote.objects.len());
    assert!(object_exists(&local, c1));
    let files = read_tree(&local, get_commit(&local, c2).unwrap().tree).unwrap();
    assert_eq!(files.get("a.txt"), Some(&b"world".to_vec()));
    assert_eq!(fetch(&mut local, &remote), Ok(()));
    assert_eq!(local.objects.len(), remote.objects.len());
}

#[test]
fn fetch_fails_without_a_change_where_an_object_is_missing() {
    let mut remote = fresh();
    commit(&mut remote, &vec![file("a.txt", b"hello")], "init").unwrap();
    remote.objects.remove(HELLO);
    let mut local = fresh();
    assert_eq!(fetch(&mut local, &remote), Err(Error::NotFound));
    assert_eq!(local.objects.len(), 0);
    assert_eq!(local.refs.len(), 1);
    remote.objects.remove(TREE_A);
    assert_eq!(fetch(&mut local, &remote), Err(Error::NotFound));
    assert_eq!(local.objects.len(), 0);
}

#[test]
fn push_copies_the_history_and_sets_the_branch() {
    let mut local = fresh();
    let c1 = commit(&mut local, &vec![file("a.txt", b"hello")], "init").unwrap();
    let mut remote = fresh();
    assert_eq!(push(&local, &mut remote, "refs/heads/master".to_string()), Ok(()));
    assert_eq!(remote.refs.get("refs/heads/master"), Some(&c1));
    assert_eq!(remote.objects.len(), 3);
    let c2 = commit(&mut local, &vec![file("a.txt", b"world")], "update").unwrap();
    assert_eq!(push(&local, &mut remote, "refs/heads/master".to_string()), Ok(()));
    assert_eq!(remote.refs.get("refs/heads/master"), Some(&c2));
    assert_eq!(remote.objects.len(), local.objects.len());
    assert_eq!(
        get_object(&remote, HELLO.to_string(), None),
        get_object(&local, HELLO.to_string(), None)
    );
}

#[test]
fn push_is_rejected_where_it_would_drop_commits() {
    let mut local = fresh();
    commit(&mut local, &vec![file("a.txt", b"hello")], "init").unwrap();
    let mut remote = fresh();
    push(&local, &mut remote, "refs/heads/master".to_string()).unwrap();
    let theirs = commit(&mut remote, &vec![file("a.txt", b"theirs")], "theirs").unwrap();
    commit(&mut local, &vec![file("a.txt", b"ours")], "ours").unwrap();
    let objects_before = remote.objects.len();
    assert_eq!(push(&local, &mut remote, "refs/heads/master".to_string()), Err(Error::Rejected));
    assert_eq!(remote.refs.get("refs/heads/master"), Some(&theirs));
    assert_eq!(remote.objects.len(), objects_before);
}

#[test]
fn push_of_a_branch_without_a_commit_is_not_found() {
    let local = fresh();
    let mut remote = fresh();
    assert_eq!(push(&local, &mut remote, "refs/heads/master".to_string()), Err(Error::NotFound));
    assert_eq!(remote.refs.len(), 1);
}

#[test]
fn is_ancestor_of_holds_of_what_the_walk_reaches() {
    let mut repo = fresh();
    let c1 = commit(&mut repo, &vec![file("a.txt", b"hello")], "init").unwrap();
    let c2 = commit(&mut repo, &vec![file("a.txt", b"world")], "update").unwrap();
    assert_eq!(is_ancestor_of(&repo, c2.clone(), c1.clone()), Ok(true));
    assert_eq!(is_ancestor_of(&repo, c2.clone(), c2.clone()), Ok(true));
    assert_eq!(is_ancestor_of(&repo, c1.clone(), c2), Ok(false));
    assert_eq!(is_ancestor_of(&repo, "missing".to_string(), c1), Err(Error::NotFound));
}

#[test]
fn copying_a_history_copies_only_what_is_missing() {
    let mut from = fresh();
    let c1 = commit(&mut from, &vec![file("a.txt", b"hello")], "init").unwrap();
    let mut to = Repository::new();
    to.objects.insert(HELLO.to_string(), b"blob\0kept".to_vec());
    assert_eq!(copy_objects_in_commits_and_parents(&from, &mut to, queue(&[&c1])), Ok(()));
    assert_eq!(to.objects.len(), 3);
    assert_eq!(to.objects.get(HELLO), Some(&b"blob\0kept".to_vec()));
    assert_eq!(to.objects.get(TREE_A), from.objects.get(TREE_A));
}

#[test]
fn trim_start_removes_every_leading_prefix() {
    assert_eq!(trim_start("refs/heads/master", "refs/heads/"), "master");
    assert_eq!(trim_start("refs/heads/refs/heads/x", "refs/heads/"), "x");
    assert_eq!(trim_start("refs/tags/v1", "refs/heads/"), "refs/tags/v1");
    assert_eq!(trim_start("aaa", "a"), "");
    assert_eq!(trim_start("abc", ""), "abc");
}
