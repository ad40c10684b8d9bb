use rgit::base::{
    checkout, commit, create_branch, get_commit, get_oid, get_tree, iter_commits_and_parents, merge,
    read_tree, read_tree_merged, MergeOutcome,
};
use rgit::data::{get_ref, hash_object, ObjectKind, RefValue, Repository};
use rgit::diff::{changed_files, compare_trees, diff_trees, merge_trees};
use rgit::error::Error;
use rgit::strmap::StrMap;
use rgit::worktree::Node;
use std::collections::VecDeque;

fn file(name: &str, content: &[u8]) -> Node {
    Node::File { name: name.to_string(), content: content.to_vec() }
}

fn fresh() -> Repository {
    rgit::base::init(false).unwrap()
}

fn merge3(base: &Vec<u8>, ours: &Vec<u8>, theirs: &Vec<u8>) -> Vec<u8> {
    if ours == theirs || theirs == base {
        ours.clone()
    } else if ours == base {
        theirs.clone()
    } else {
        let mut out = b"<<<<<<< HEAD\n".to_vec();
        out.extend_from_slice(ours);
        out.extend_from_slice(b"=======\n");
        out.extend_from_slice(theirs);
        out.extend_from_slice(b">>>>>>> MERGE_HEAD\n");
        out
    }
}

fn diff(from: &Vec<u8>, to: &Vec<u8>, path: &String) -> String {
    format!(
        "--- {}\n-{}\n+{}\n",
        path,
        String::from_utf8_lossy(from),
        String::from_utf8_lossy(to)
    )
}

fn tree_of(pairs: &[(&str, &str)]) -> StrMap<String> {
    let mut tree = StrMap::new();
    for (path, oid) in pairs {
        tree.insert(path.to_string(), oid.to_string());
    }
    tree
}

fn contains(haystack: &[u8], needle: &[u8]) -> bool {
    haystack.windows(needle.len()).any(|w| w == needle)
}

fn ancestors_of(repo: &Repository, oid: &str) -> Vec<String> {
    let mut queue = VecDeque::new();
    queue.push_back(oid.to_string());
    iter_commits_and_parents(repo, queue).unwrap()
}

#[test]
fn merging_a_descendant_is_a_fast_forward() {
    let mut repo = fresh();
    let c1 = commit(&mut repo, &vec![file("a.txt", b"hello")], "init").unwrap();
    create_branch(&mut repo, "feature".to_string(), c1.clone()).unwrap();
    checkout(&mut repo, "feature".to_string()).unwrap();
    let c2 = commit(&mut repo, &vec![file("a.txt", b"world"), file("b", b"new")], "next").unwrap();
    checkout(&mut repo, "master".to_string()).unwrap();
    let objects_before = repo.objects.len();
    let done = merge(&mut repo, c2.clone(), &merge3).unwrap();
    assert_eq!(done.outcome, MergeOutcome::FastForward);
    assert_eq!(repo.objects.len(), objects_before);
    assert_eq!(done.files.len(), 2);
    assert_eq!(done.files.get("a.txt"), Some(&b"world".to_vec()));
    assert_eq!(done.files.get("b"), Some(&b"new".to_vec()));
    let theirs = read_tree(&repo, get_commit(&repo, c2.clone()).unwrap().tree).unwrap();
    for i in 0..theirs.len() {
        assert_eq!(done.files.get(theirs.key_at(i)), Some(theirs.value_at(i)));
    }
    assert_eq!(get_ref(&repo, "HEAD".to_string(), true).unwrap().value, c2);
    assert_eq!(repo.refs.get("refs/heads/master"), Some(&c2));
    assert!(!repo.refs.contains_key("MERGE_HEAD"));
}

#[test]
fn merging_the_commit_that_is_checked_out_is_a_fast_forward() {
    let mut repo = fresh();
    let c1 = commit(&mut repo, &vec![file("a.txt", b"hello")], "init").unwrap();
    let done = merge(&mut repo, c1.clone(), &merge3).unwrap();
    assert_eq!(done.outcome, MergeOutcome::FastForward);
    assert_eq!(done.files.get("a.txt"), Some(&b"hello".to_vec()));
    assert_eq!(get_oid(&repo, "@".to_string()), Ok(c1));
}

#[test]
fn merging_edits_of_different_files_keeps_both() {
    let mut repo = fresh();
    let c1 = commit(&mut repo, &vec![file("a.txt", b"a0\n"), file("b.txt", b"b0\n")], "init").unwrap();
    create_branch(&mut repo, "feature".to_string(), c1.clone()).unwrap();
    let c2 = commit(&mut repo, &vec![file("a.txt", b"a1\n"), file("b.txt", b"b0\n")], "ours").unwrap();
    checkout(&mut repo, "feature".to_string()).unwrap();
    let c3 = commit(&mut repo, &vec![file("a.txt", b"a0\n"), file("b.txt", b"b1\n")], "theirs").unwrap();
    checkout(&mut repo, "master".to_string()).unwrap();
    let objects_before = repo.objects.len();
    let done = merge(&mut repo, c3.clone(), &merge3).unwrap();
    assert_eq!(done.outcome, MergeOutcome::MergedPendingCommit);
    assert_eq!(done.files.len(), 2);
    assert_eq!(done.files.get("a.txt"), Some(&b"a1\n".to_vec()));
    assert_eq!(done.files.get("b.txt"), Some(&b"b1\n".to_vec()));
    for i in 0..done.files.len() {
        assert!(!contains(done.files.value_at(i), b"<<<<<<<"));
        assert!(!contains(done.files.value_at(i), b"======="));
        assert!(!contains(done.files.value_at(i), b">>>>>>>"));
    }
    assert_eq!(repo.objects.len(), objects_before);
    assert_eq!(repo.refs.get("MERGE_HEAD"), Some(&c3));
    assert_eq!(repo.refs.get("refs/heads/master"), Some(&c2));
    let merged = vec![file("a.txt", b"a1\n"), file("b.txt", b"b1\n")];
    let c4 = commit(&mut repo, &merged, "merge").unwrap();
    assert_eq!(get_commit(&repo, c4.clone()).unwrap().parents, vec![c2.clone(), c3.clone()]);
    assert!(!repo.refs.contains_key("MERGE_HEAD"));
    assert_eq!(repo.refs.get("refs/heads/master"), Some(&c4));
    assert_eq!(ancestors_of(&repo, &c4), vec![c4, c2, c1, c3]);
}

#[test]
fn merging_edits_of_the_same_line_marks_the_conflict() {
    let mut repo = fresh();
    let c1 = commit(&mut repo, &vec![file("a.txt", b"line\n")], "init").unwrap();
    create_branch(&mut repo, "feature".to_string(), c1).unwrap();
    commit(&mut repo, &vec![file("a.txt", b"ours\n")], "ours").unwrap();
    checkout(&mut repo, "feature".to_string()).unwrap();
    let c3 = commit(&mut repo, &vec![file("a.txt", b"theirs\n")], "theirs").unwrap();
    checkout(&mut repo, "master".to_string()).unwrap();
    let done = merge(&mut repo, c3, &merge3).unwrap();
    assert_eq!(done.outcome, MergeOutcome::MergedPendingCommit);
    let merged = done.files.get("a.txt").unwrap();
    assert!(contains(merged, b"<<<<<<<"));
    assert!(contains(merged, b"======="));
    assert!(contains(merged, b">>>>>>>"));
    assert_eq!(
        merged,
        &b"<<<<<<< HEAD\nours\n=======\ntheirs\n>>>>>>> MERGE_HEAD\n".to_vec()
    );
}

#[test]
fn a_file_deleted_on_one_side_is_merged_as_empty() {
    let mut repo = fresh();
    let c1 = commit(&mut repo, &vec![file("a", b"a0"), file("gone", b"g0")], "init").unwrap();
    create_branch(&mut repo, "feature".to_string(), c1).unwrap();
    commit(&mut repo, &vec![file("a", b"a1")], "ours deletes").unwrap();
    checkout(&mut repo, "feature".to_string()).unwrap();
    let c3 = commit(&mut repo, &vec![file("a", b"a0"), file("gone", b"g1"), file("new", b"n")], "theirs").unwrap();
    checkout(&mut repo, "master".to_string()).unwrap();
    let done = merge(&mut repo, c3, &merge3).unwrap();
    assert_eq!(done.files.len(), 3);
    assert_eq!(done.files.get("a"), Some(&b"a1".to_vec()));
    assert_eq!(done.files.get("new"), Some(&b"n".to_vec()));
    assert_eq!(
        done.files.get("gone"),
        Some(&b"<<<<<<< HEAD\n=======\ng1>>>>>>> MERGE_HEAD\n".to_vec())
    );
}

#[test]
fn merge_fails_without_a_change() {
    let mut repo = fresh();
    assert!(matches!(merge(&mut repo, "x".to_string(), &merge3), Err(Error::Unresolvable)));
    let c1 = commit(&mut repo, &vec![file("a", b"a0")], "init").unwrap();
    assert!(matches!(merge(&mut repo, "missing".to_string(), &merge3), Err(Error::NotFound)));
    let mut other = Repository::new();
    let stranger = commit(&mut other, &vec![file("z", b"z")], "unrelated").unwrap();
    for i in 0..other.objects.len() {
        repo.objects.insert(other.objects.key_at(i).clone(), other.objects.value_at(i).clone());
    }
    assert!(matches!(merge(&mut repo, stranger, &merge3), Err(Error::NotFound)));
    assert!(!repo.refs.contains_key("MERGE_HEAD"));
    assert_eq!(repo.refs.get("refs/heads/master"), Some(&c1));
}

#[test]
fn compare_trees_has_a_row_for_each_path_in_order_of_first_occurrence() {
    let trees = vec![
        tree_of(&[("b", "1"), ("a", "2")]),
        tree_of(&[("c", "3"), ("a", "4")]),
        tree_of(&[]),
    ];
    let rows = compare_trees(&trees);
    let expect = |p: &str, o: [&str; 3]| (p.to_string(), o.iter().map(|s| s.to_string()).collect::<Vec<_>>());
    assert_eq!(
        rows,
        vec![expect("b", ["1", "", ""]), expect("a", ["2", "4", ""]), expect("c", ["", "3", ""])]
    );
    assert_eq!(compare_trees(&Vec::new()), vec![]);
}

#[test]
fn changed_files_names_what_happened_to_each_path() {
    let from = tree_of(&[("same", "1"), ("edited", "2"), ("removed", "3")]);
    let to = tree_of(&[("edited", "9"), ("same", "1"), ("added", "4")]);
    assert_eq!(
        changed_files(from, to),
        vec![
            ("edited".to_string(), "modified".to_string()),
            ("removed".to_string(), "deleted".to_string()),
            ("added".to_string(), "new file".to_string()),
        ]
    );
    assert_eq!(changed_files(tree_of(&[]), tree_of(&[])), vec![]);
}

#[test]
fn diff_trees_joins_the_fragments_of_the_changed_paths() {
    let mut repo = Repository::new();
    let one = hash_object(&mut repo, &b"one".to_vec(), ObjectKind::Blob);
    let two = hash_object(&mut repo, &b"two".to_vec(), ObjectKind::Blob);
    let from = tree_of(&[("same", &one), ("edited", &one), ("removed", &two)]);
    let to = tree_of(&[("same", &one), ("edited", &two), ("added", &one)]);
    assert_eq!(
        diff_trees(&repo, from, to, &diff),
        Ok("--- edited\n-one\n+two\n--- removed\n-two\n+\n--- added\n-\n+one\n".to_string())
    );
    assert_eq!(diff_trees(&repo, tree_of(&[("a", &one)]), tree_of(&[("a", &one)]), &diff), Ok(String::new()));
}

#[test]
fn diff_trees_fails_where_a_blob_cannot_be_read() {
    let mut repo = Repository::new();
    let one = hash_object(&mut repo, &b"one".to_vec(), ObjectKind::Blob);
    let tree = hash_object(&mut repo, &Vec::new(), ObjectKind::Tree);
    assert_eq!(
        diff_trees(&repo, tree_of(&[("a", &one)]), tree_of(&[("a", "missing")]), &diff),
        Err(Error::NotFound)
    );
    assert_eq!(
        diff_trees(&repo, tree_of(&[("a", &tree)]), tree_of(&[("a", &one)]), &diff),
        Err(Error::TypeMismatch)
    );
    assert_eq!(
        diff_trees(&repo, tree_of(&[("a", "missing")]), tree_of(&[("a", "missing")]), &diff),
        Ok(String::new())
    );
}

#[test]
fn merge_trees_merges_every_path_of_the_three_trees() {
    let mut repo = Repository::new();
    let x0 = hash_object(&mut repo, &b"x0".to_vec(), ObjectKind::Blob);
    let x1 = hash_object(&mut repo, &b"x1".to_vec(), ObjectKind::Blob);
    let x2 = hash_object(&mut repo, &b"x2".to_vec(), ObjectKind::Blob);
    let merged = merge_trees(
        &repo,
        tree_of(&[("both", &x0), ("ours", &x0), ("theirs", &x0)]),
        tree_of(&[("both", &x1), ("ours", &x1), ("theirs", &x0)]),
        tree_of(&[("both", &x2), ("ours", &x0), ("theirs", &x2), ("added", &x1)]),
        &merge3,
    )
    .unwrap();
    assert_eq!(merged.len(), 4);
    assert_eq!(merged.get("ours"), Some(&b"x1".to_vec()));
    assert_eq!(merged.get("theirs"), Some(&b"x2".to_vec()));
    assert_eq!(merged.get("added"), Some(&b"x1".to_vec()));
    assert_eq!(
        merged.get("both"),
        Some(&b"<<<<<<< HEAD\nx1=======\nx2>>>>>>> MERGE_HEAD\n".to_vec())
    );
    assert!(matches!(
        merge_trees(&repo, tree_of(&[]), tree_of(&[("a", "missing")]), tree_of(&[]), &merge3),
        Err(Error::NotFound)
    ));
}

#[test]
fn read_tree_merged_merges_three_stored_trees() {
    let mut repo = fresh();
    let c1 = commit(&mut repo, &vec![file("a", b"0")], "base").unwrap();
    let c2 = commit(&mut repo, &vec![file("a", b"1")], "ours").unwrap();
    let base = get_commit(&repo, c1).unwrap().tree;
    let ours = get_commit(&repo, c2).unwrap().tree;
    let files = read_tree_merged(&repo, base.clone(), ours.clone(), base.clone(), &merge3).unwrap();
    assert_eq!(files.len(), 1);
    assert_eq!(files.get("a"), Some(&b"1".to_vec()));
    let flat = get_tree(&repo, ours, String::new()).unwrap();
    assert_eq!(flat.len(), 1);
    assert!(matches!(
        read_tree_merged(&repo, base, "missing".to_string(), String::new(), &merge3),
        Err(Error::NotFound)
    ));
    assert_eq!(
        get_ref(&repo, "MERGE_HEAD".to_string(), true),
        Ok(RefValue { value: String::new(), symbolic: false })
    );
}
