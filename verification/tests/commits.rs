use rgit::base::{
    checkout, commit, create_branch, get_commit, get_merge_base, get_oid, iter_commits_and_parents,
};
use rgit::commits::{parse_commit_text, render_commit, Commit};
use rgit::data::{get_object, get_ref, hash_object, update_ref, ObjectKind, RefValue, Repository};
use rgit::error::Error;
use rgit::worktree::Node;
use std::collections::VecDeque;

const TREE_A: &str = "accfa819f512c99706884dcd3063986e6d24b27b";
const COMMIT_INIT: &str = "634869f3a95dddfdb1a0e82324d620f1cc60993f";

fn file(name: &str, content: &[u8]) -> Node {
    Node::File { name: name.to_string(), content: content.to_vec() }
}

fn fresh() -> Repository {
    rgit::base::init(false).unwrap()
}

fn walk_from(repo: &Repository, oids: &[&str]) -> Result<Vec<String>, Error> {
    let mut queue = VecDeque::new();
    for oid in oids {
        queue.push_back(oid.to_string());
    }
    iter_commits_and_parents(repo, queue)
}

fn raw_commit(repo: &mut Repository, tree: &str, parents: &[&str], message: &str) -> String {
    let c = Commit {
        tree: tree.to_string(),
        parents: parents.iter().map(|p| p.to_string()).collect(),
        message: message.to_string(),
    };
    hash_object(repo, &render_commit(&c).into_bytes(), ObjectKind::Commit)
}

#[test]
fn the_first_commit_has_the_expected_id_and_text() {
    let mut repo = fresh();
    let c1 = commit(&mut repo, &vec![file("a.txt", b"hello")], "init").unwrap();
    assert_eq!(c1, COMMIT_INIT);
    assert_eq!(
        get_object(&repo, c1.clone(), Some(ObjectKind::Commit)),
        Ok((ObjectKind::Commit, format!("tree {}\n\ninit\n", TREE_A).into_bytes()))
    );
    assert_eq!(repo.refs.get("refs/heads/master"), Some(&c1));
    assert_eq!(repo.refs.get("HEAD"), Some(&"ref: refs/heads/master".to_string()));
}

#[test]
fn a_second_commit_has_the_first_as_its_parent() {
    let mut repo = fresh();
    let c1 = commit(&mut repo, &vec![file("a.txt", b"hello")], "init").unwrap();
    let c2 = commit(&mut repo, &vec![file("a.txt", b"world")], "update").unwrap();
    assert_ne!(c1, c2);
    let second = get_commit(&repo, c2.clone()).unwrap();
    assert_eq!(second.parents, vec![c1.clone()]);
    assert_eq!(second.message, "update");
    let first = get_commit(&repo, c1.clone()).unwrap();
    assert_eq!(first.parents, Vec::<String>::new());
    assert_eq!(first.tree, TREE_A);
    assert_eq!(walk_from(&repo, &[&c2]), Ok(vec![c2.clone(), c1.clone()]));
    assert_eq!(get_ref(&repo, "HEAD".to_string(), true).unwrap().value, c2);
}

#[test]
fn a_commit_on_a_branch_moves_the_branch() {
    let mut repo = fresh();
    let c1 = commit(&mut repo, &vec![file("a.txt", b"hello")], "init").unwrap();
    create_branch(&mut repo, "feature".to_string(), c1.clone()).unwrap();
    let files = checkout(&mut repo, "feature".to_string()).unwrap();
    assert_eq!(files.get("a.txt"), Some(&b"hello".to_vec()));
    assert_eq!(files.len(), 1);
    let c3 = commit(&mut repo, &vec![file("a.txt", b"feature")], "feature work").unwrap();
    assert_eq!(repo.refs.get("refs/heads/feature"), Some(&c3));
    assert_eq!(repo.refs.get("refs/heads/master"), Some(&c1));
    assert_eq!(
        get_ref(&repo, "HEAD".to_string(), false),
        Ok(RefValue { value: "refs/heads/feature".to_string(), symbolic: true })
    );
    assert_eq!(get_commit(&repo, c3).unwrap().parents, vec![c1]);
}

#[test]
fn checkout_of_a_commit_detaches_head() {
    let mut repo = fresh();
    let c1 = commit(&mut repo, &vec![file("a.txt", b"hello")], "init").unwrap();
    let c2 = commit(&mut repo, &vec![file("a.txt", b"world")], "update").unwrap();
    let files = checkout(&mut repo, c1.clone()).unwrap();
    assert_eq!(files.get("a.txt"), Some(&b"hello".to_vec()));
    assert_eq!(
        get_ref(&repo, "HEAD".to_string(), false),
        Ok(RefValue { value: c1.clone(), symbolic: false })
    );
    assert_eq!(repo.refs.get("refs/heads/master"), Some(&c2));
    let c3 = commit(&mut repo, &vec![file("a.txt", b"aside")], "aside").unwrap();
    assert_eq!(repo.refs.get("HEAD"), Some(&c3));
    assert_eq!(repo.refs.get("refs/heads/master"), Some(&c2));
}

#[test]
fn checkout_of_an_unknown_name_changes_nothing() {
    let mut repo = fresh();
    commit(&mut repo, &vec![file("a.txt", b"hello")], "init").unwrap();
    assert!(matches!(checkout(&mut repo, "nowhere".to_string()), Err(Error::UnknownRef)));
    assert_eq!(repo.refs.get("HEAD"), Some(&"ref: refs/heads/master".to_string()));
    let blob = get_oid(&repo, "5b211494ba9e0f5c98ca51e8732bda579d8487ef".to_string()).unwrap();
    assert!(matches!(checkout(&mut repo, blob), Err(Error::TypeMismatch)));
    assert!(matches!(
        checkout(&mut repo, "0000000000000000000000000000000000000000".to_string()),
        Err(Error::NotFound)
    ));
    assert_eq!(repo.refs.get("HEAD"), Some(&"ref: refs/heads/master".to_string()));
}

#[test]
fn commit_text_is_parsed_back() {
    for parents in [vec![], vec!["one"], vec!["one", "two"]] {
        for message in ["", "one line", "two\nlines", "ends with a line feed\n", "\n\nblank first"] {
            let c = Commit {
                tree: "t".to_string(),
                parents: parents.iter().map(|p| p.to_string()).collect(),
                message: message.to_string(),
            };
            assert_eq!(parse_commit_text(&render_commit(&c)), Some(c));
        }
    }
}

#[test]
fn commit_text_has_its_lines_in_order() {
    let c = Commit {
        tree: "t".to_string(),
        parents: vec!["a".to_string(), "b".to_string()],
        message: "m\nn".to_string(),
    };
    assert_eq!(render_commit(&c), "tree t\nparent a\nparent b\n\nm\nn\n");
}

#[test]
fn text_that_is_no_commit_is_not_parsed() {
    assert_eq!(parse_commit_text(""), None);
    assert_eq!(parse_commit_text("tree t"), None);
    assert_eq!(parse_commit_text("tree t\n"), None);
    assert_eq!(parse_commit_text("tree t\nmessage\n"), None);
    assert_eq!(parse_commit_text("tre t\n\nm\n"), None);
    assert_eq!(parse_commit_text("tree t\nparent a\nparent b\nparent c\n\nm\n"), None);
    assert_eq!(
        parse_commit_text("tree t\n\n"),
        Some(Commit { tree: "t".to_string(), parents: vec![], message: String::new() })
    );
    assert_eq!(
        parse_commit_text("tree t\n\nparent a\n"),
        Some(Commit { tree: "t".to_string(), parents: vec![], message: "parent a".to_string() })
    );
}

#[test]
fn get_commit_fails_on_what_is_no_commit() {
    let mut repo = Repository::new();
    assert!(matches!(get_commit(&repo, "x".to_string()), Err(Error::NotFound)));
    let blob = hash_object(&mut repo, &b"tree t\n\nm\n".to_vec(), ObjectKind::Blob);
    assert!(matches!(get_commit(&repo, blob), Err(Error::TypeMismatch)));
    let bad = hash_object(&mut repo, &b"no tree".to_vec(), ObjectKind::Commit);
    assert!(matches!(get_commit(&repo, bad), Err(Error::Malformed)));
    let bytes = hash_object(&mut repo, &vec![b't', 0xc3, 0x28], ObjectKind::Commit);
    assert!(matches!(get_commit(&repo, bytes), Err(Error::Malformed)));
}

#[test]
fn the_walk_visits_first_parents_before_second_parents() {
    let mut repo = Repository::new();
    let root = raw_commit(&mut repo, "t", &[], "root");
    let left = raw_commit(&mut repo, "t", &[&root], "left");
    let right1 = raw_commit(&mut repo, "t", &[&root], "right1");
    let right2 = raw_commit(&mut repo, "t", &[&right1], "right2");
    let merged = raw_commit(&mut repo, "t", &[&left, &right2], "merged");
    assert_eq!(
        walk_from(&repo, &[&merged]),
        Ok(vec![merged.clone(), left.clone(), root.clone(), right2.clone(), right1.clone()])
    );
    assert_eq!(
        walk_from(&repo, &[&left, &right2, &left, ""]),
        Ok(vec![left, root, right2, right1])
    );
    assert_eq!(walk_from(&repo, &[]), Ok(vec![]));
    assert_eq!(walk_from(&repo, &[""]), Ok(vec![]));
}

#[test]
fn the_walk_fails_on_what_is_no_commit() {
    let mut repo = Repository::new();
    assert_eq!(walk_from(&repo, &["missing"]), Err(Error::NotFound));
    let orphan = raw_commit(&mut repo, "t", &["missing"], "m");
    assert_eq!(walk_from(&repo, &[&orphan]), Err(Error::NotFound));
    let blob = hash_object(&mut repo, &b"x".to_vec(), ObjectKind::Blob);
    assert_eq!(walk_from(&repo, &[&blob]), Err(Error::TypeMismatch));
}

#[test]
fn the_walk_ends_on_a_history_that_comes_back_to_itself() {
    let mut repo = Repository::new();
    repo.objects.insert("a".to_string(), b"commit\0tree t\nparent b\n\nm\n".to_vec());
    repo.objects.insert("b".to_string(), b"commit\0tree t\nparent a\n\nm\n".to_vec());
    assert_eq!(walk_from(&repo, &["a"]), Ok(vec!["a".to_string(), "b".to_string()]));
}

#[test]
fn the_merge_base_of_a_commit_with_itself_is_the_commit() {
    let mut repo = Repository::new();
    let root = raw_commit(&mut repo, "t", &[], "root");
    let next = raw_commit(&mut repo, "t", &[&root], "next");
    assert_eq!(get_merge_base(&repo, next.clone(), next.clone()), Ok(next));
    assert_eq!(get_merge_base(&repo, root.clone(), root.clone()), Ok(root));
}

#[test]
fn the_merge_base_of_disjoint_histories_is_empty() {
    let mut repo = Repository::new();
    let one = raw_commit(&mut repo, "t", &[], "one");
    let one_next = raw_commit(&mut repo, "t", &[&one], "one next");
    let two = raw_commit(&mut repo, "t", &[], "two");
    assert_eq!(get_merge_base(&repo, one_next, two), Ok(String::new()));
}

#[test]
fn the_merge_base_is_the_nearest_common_ancestor() {
    let mut repo = Repository::new();
    let root = raw_commit(&mut repo, "t", &[], "root");
    let fork = raw_commit(&mut repo, "t", &[&root], "fork");
    let left = raw_commit(&mut repo, "t", &[&fork], "left");
    let right = raw_commit(&mut repo, "t", &[&fork], "right");
    let right2 = raw_commit(&mut repo, "t", &[&right], "right2");
    assert_eq!(get_merge_base(&repo, left.clone(), right2.clone()), Ok(fork.clone()));
    assert_eq!(get_merge_base(&repo, right2.clone(), left.clone()), Ok(fork.clone()));
    assert_eq!(get_merge_base(&repo, right2.clone(), fork.clone()), Ok(fork.clone()));
    assert_eq!(get_merge_base(&repo, fork.clone(), right2), Ok(fork));
    assert_eq!(get_merge_base(&repo, left, "missing".to_string()), Err(Error::NotFound));
}

#[test]
fn commit_fails_without_a_change_where_head_cannot_be_resolved() {
    let mut repo = Repository::new();
    repo.refs.insert("HEAD".to_string(), "ref: HEAD".to_string());
    assert_eq!(commit(&mut repo, &vec![file("a", b"x")], "m"), Err(Error::Unresolvable));
    assert_eq!(repo.objects.len(), 0);
    assert_eq!(repo.refs.len(), 1);
    let mut repo = fresh();
    update_ref(
        &mut repo,
        "MERGE_HEAD".to_string(),
        RefValue { value: "MERGE_HEAD".to_string(), symbolic: true },
        false,
    )
    .unwrap();
    assert_eq!(commit(&mut repo, &vec![file("a", b"x")], "m"), Err(Error::Unresolvable));
    assert_eq!(repo.objects.len(), 0);
}
