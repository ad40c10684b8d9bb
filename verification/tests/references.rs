use rgit::base::{
    create_branch, create_tag, get_branch_name, get_oid, is_branch, iter_branch_names, reset,
};
use rgit::data::{
    delete_ref, get_ref, get_ref_internal, iter_refs, update_ref, RefValue, Repository,
};
use rgit::error::Error;

const A: &str = "aaaaaaaaaaaaaaaaaaaaaaaaaaaaaaaaaaaaaaaa";
const B: &str = "bbbbbbbbbbbbbbbbbbbbbbbbbbbbbbbbbbbbbbbb";
const C: &str = "cccccccccccccccccccccccccccccccccccccccc";

fn direct(oid: &str) -> RefValue {
    RefValue { value: oid.to_string(), symbolic: false }
}

fn symbolic(name: &str) -> RefValue {
    RefValue { value: name.to_string(), symbolic: true }
}

fn fresh() -> Repository {
    rgit::base::init(false).unwrap()
}

#[test]
fn init_points_head_at_the_branch_master() {
    let repo = fresh();
    assert_eq!(repo.objects.len(), 0);
    assert_eq!(repo.refs.len(), 1);
    assert_eq!(repo.refs.get("HEAD"), Some(&"ref: refs/heads/master".to_string()));
    assert_eq!(
        get_ref(&repo, "HEAD".to_string(), false),
        Ok(symbolic("refs/heads/master"))
    );
    assert_eq!(get_ref(&repo, "HEAD".to_string(), true), Ok(direct("")));
}

#[test]
fn init_fails_on_an_existing_root() {
    assert!(matches!(rgit::base::init(true), Err(Error::AlreadyExists)));
}

#[test]
fn a_missing_reference_has_the_empty_value() {
    let repo = Repository::new();
    assert_eq!(get_ref(&repo, "refs/heads/none".to_string(), true), Ok(direct("")));
    assert_eq!(
        get_ref_internal(&repo, "refs/heads/none".to_string(), false),
        Ok(("refs/heads/none".to_string(), direct("")))
    );
}

#[test]
fn update_ref_through_head_writes_the_branch() {
    let mut repo = fresh();
    assert_eq!(update_ref(&mut repo, "HEAD".to_string(), direct(A), true), Ok(()));
    assert_eq!(repo.refs.get("refs/heads/master"), Some(&A.to_string()));
    assert_eq!(repo.refs.get("HEAD"), Some(&"ref: refs/heads/master".to_string()));
    assert_eq!(get_ref(&repo, "HEAD".to_string(), true), Ok(direct(A)));
    assert_eq!(
        get_ref_internal(&repo, "HEAD".to_string(), true),
        Ok(("refs/heads/master".to_string(), direct(A)))
    );
}

#[test]
fn update_ref_without_deref_writes_the_reference_itself() {
    let mut repo = fresh();
    assert_eq!(update_ref(&mut repo, "HEAD".to_string(), direct(A), false), Ok(()));
    assert_eq!(repo.refs.get("HEAD"), Some(&A.to_string()));
    assert!(!repo.refs.contains_key("refs/heads/master"));
}

#[test]
fn update_ref_stores_a_symbolic_value_with_its_marker() {
    let mut repo = Repository::new();
    assert_eq!(update_ref(&mut repo, "X".to_string(), symbolic("refs/tags/t"), true), Ok(()));
    assert_eq!(repo.refs.get("X"), Some(&"ref: refs/tags/t".to_string()));
}

#[test]
fn update_ref_refuses_the_empty_value() {
    let mut repo = fresh();
    assert_eq!(update_ref(&mut repo, "HEAD".to_string(), direct(""), true), Err(Error::EmptyValue));
    assert_eq!(
        update_ref(&mut repo, "HEAD".to_string(), symbolic(""), false),
        Err(Error::EmptyValue)
    );
    assert_eq!(repo.refs.len(), 1);
    assert_eq!(repo.refs.get("HEAD"), Some(&"ref: refs/heads/master".to_string()));
}

#[test]
fn a_chain_of_symbolic_references_is_followed_to_its_end() {
    let mut repo = Repository::new();
    repo.refs.insert("one".to_string(), "ref: two".to_string());
    repo.refs.insert("two".to_string(), "ref: three".to_string());
    repo.refs.insert("three".to_string(), A.to_string());
    assert_eq!(get_ref(&repo, "one".to_string(), true), Ok(direct(A)));
    assert_eq!(get_ref(&repo, "one".to_string(), false), Ok(symbolic("two")));
    assert_eq!(
        get_ref_internal(&repo, "one".to_string(), true),
        Ok(("three".to_string(), direct(A)))
    );
}

#[test]
fn a_chain_that_comes_back_to_itself_is_unresolvable() {
    let mut repo = Repository::new();
    repo.refs.insert("one".to_string(), "ref: two".to_string());
    repo.refs.insert("two".to_string(), "ref: one".to_string());
    assert_eq!(get_ref(&repo, "one".to_string(), true), Err(Error::Unresolvable));
    assert_eq!(get_ref(&repo, "one".to_string(), false), Ok(symbolic("two")));
    assert_eq!(
        update_ref(&mut repo, "two".to_string(), direct(A), true),
        Err(Error::Unresolvable)
    );
    assert_eq!(delete_ref(&mut repo, "one".to_string(), true), Err(Error::Unresolvable));
    assert_eq!(iter_refs(&repo, "", true), Ok(vec![]));
    repo.refs.insert("refs/self".to_string(), "ref: refs/self".to_string());
    assert_eq!(get_ref(&repo, "refs/self".to_string(), true), Err(Error::Unresolvable));
    assert_eq!(iter_refs(&repo, "", true), Err(Error::Unresolvable));
    assert_eq!(
        iter_refs(&repo, "", false),
        Ok(vec![("refs/self".to_string(), symbolic("refs/self"))])
    );
}

#[test]
fn only_the_marker_with_its_blank_makes_a_reference_symbolic() {
    let mut repo = Repository::new();
    repo.refs.insert("x".to_string(), "ref:y".to_string());
    assert_eq!(get_ref(&repo, "x".to_string(), true), Ok(direct("ref:y")));
    repo.refs.insert("z".to_string(), "ref: ".to_string());
    assert_eq!(get_ref(&repo, "z".to_string(), false), Ok(symbolic("")));
    assert_eq!(get_ref(&repo, "z".to_string(), true), Ok(direct("")));
}

#[test]
fn delete_ref_removes_the_reference_that_the_name_leads_to() {
    let mut repo = fresh();
    update_ref(&mut repo, "HEAD".to_string(), direct(A), true).unwrap();
    assert_eq!(delete_ref(&mut repo, "HEAD".to_string(), true), Ok(()));
    assert!(!repo.refs.contains_key("refs/heads/master"));
    assert!(repo.refs.contains_key("HEAD"));
    assert_eq!(delete_ref(&mut repo, "HEAD".to_string(), false), Ok(()));
    assert_eq!(repo.refs.len(), 0);
}

#[test]
fn delete_ref_of_a_missing_reference_is_not_found() {
    let mut repo = fresh();
    assert_eq!(delete_ref(&mut repo, "MERGE_HEAD".to_string(), false), Err(Error::NotFound));
    assert_eq!(delete_ref(&mut repo, "HEAD".to_string(), true), Err(Error::NotFound));
    assert_eq!(repo.refs.len(), 1);
}

#[test]
fn iter_refs_lists_the_heads_first_then_the_references_in_order() {
    let mut repo = fresh();
    update_ref(&mut repo, "HEAD".to_string(), direct(A), true).unwrap();
    create_tag(&mut repo, "v1".to_string(), B.to_string()).unwrap();
    create_branch(&mut repo, "feature".to_string(), C.to_string()).unwrap();
    update_ref(&mut repo, "MERGE_HEAD".to_string(), direct(B), true).unwrap();
    repo.refs.insert("config".to_string(), "value".to_string());
    let listed = iter_refs(&repo, "", true).unwrap();
    assert_eq!(
        listed,
        vec![
            ("HEAD".to_string(), direct(A)),
            ("MERGE_HEAD".to_string(), direct(B)),
            ("refs/heads/master".to_string(), direct(A)),
            ("refs/tags/v1".to_string(), direct(B)),
            ("refs/heads/feature".to_string(), direct(C)),
        ]
    );
    let not_followed = iter_refs(&repo, "", false).unwrap();
    assert_eq!(not_followed[0], ("HEAD".to_string(), symbolic("refs/heads/master")));
}

#[test]
fn iter_refs_filters_by_prefix_and_leaves_out_empty_values() {
    let mut repo = fresh();
    create_tag(&mut repo, "v1".to_string(), B.to_string()).unwrap();
    create_branch(&mut repo, "feature".to_string(), C.to_string()).unwrap();
    repo.refs.insert("refs/heads/empty".to_string(), String::new());
    assert_eq!(
        iter_refs(&repo, "refs/heads/", true),
        Ok(vec![("refs/heads/feature".to_string(), direct(C))])
    );
    assert_eq!(iter_refs(&repo, "refs/tags/", true), Ok(vec![("refs/tags/v1".to_string(), direct(B))]));
    assert_eq!(iter_refs(&repo, "HEAD", true), Ok(vec![]));
    assert_eq!(iter_refs(&repo, "nothing", true), Ok(vec![]));
}

#[test]
fn get_oid_tries_the_name_in_its_four_forms() {
    let mut repo = fresh();
    update_ref(&mut repo, "HEAD".to_string(), direct(A), true).unwrap();
    create_tag(&mut repo, "v1".to_string(), B.to_string()).unwrap();
    create_branch(&mut repo, "feature".to_string(), C.to_string()).unwrap();
    assert_eq!(get_oid(&repo, "@".to_string()), Ok(A.to_string()));
    assert_eq!(get_oid(&repo, "HEAD".to_string()), Ok(A.to_string()));
    assert_eq!(get_oid(&repo, "refs/tags/v1".to_string()), Ok(B.to_string()));
    assert_eq!(get_oid(&repo, "tags/v1".to_string()), Ok(B.to_string()));
    assert_eq!(get_oid(&repo, "v1".to_string()), Ok(B.to_string()));
    assert_eq!(get_oid(&repo, "feature".to_string()), Ok(C.to_string()));
    assert_eq!(get_oid(&repo, "master".to_string()), Ok(A.to_string()));
}

#[test]
fn get_oid_prefers_a_tag_to_a_branch_of_the_same_name() {
    let mut repo = fresh();
    create_branch(&mut repo, "same".to_string(), C.to_string()).unwrap();
    create_tag(&mut repo, "same".to_string(), B.to_string()).unwrap();
    assert_eq!(get_oid(&repo, "same".to_string()), Ok(B.to_string()));
}

#[test]
fn get_oid_accepts_forty_hexadecimal_digits() {
    let repo = fresh();
    assert_eq!(get_oid(&repo, A.to_string()), Ok(A.to_string()));
    let upper = "0123456789ABCDEFabcdef0123456789ABCDEFab";
    assert_eq!(get_oid(&repo, upper.to_string()), Ok(upper.to_string()));
}

#[test]
fn get_oid_of_an_unknown_name_fails() {
    let repo = fresh();
    assert_eq!(get_oid(&repo, "nothing".to_string()), Err(Error::UnknownRef));
    assert_eq!(get_oid(&repo, "@".to_string()), Err(Error::UnknownRef));
    assert_eq!(get_oid(&repo, A[1..].to_string()), Err(Error::UnknownRef));
    let not_hex = "gaaaaaaaaaaaaaaaaaaaaaaaaaaaaaaaaaaaaaaa";
    assert_eq!(get_oid(&repo, not_hex.to_string()), Err(Error::UnknownRef));
    assert_eq!(get_oid(&repo, String::new()), Err(Error::UnknownRef));
}

#[test]
fn create_branch_and_create_tag_overwrite() {
    let mut repo = fresh();
    create_branch(&mut repo, "b".to_string(), A.to_string()).unwrap();
    create_branch(&mut repo, "b".to_string(), B.to_string()).unwrap();
    assert_eq!(repo.refs.get("refs/heads/b"), Some(&B.to_string()));
    create_tag(&mut repo, "t".to_string(), A.to_string()).unwrap();
    create_tag(&mut repo, "t".to_string(), C.to_string()).unwrap();
    assert_eq!(repo.refs.get("refs/tags/t"), Some(&C.to_string()));
    assert_eq!(create_tag(&mut repo, "t".to_string(), String::new()), Err(Error::EmptyValue));
    assert_eq!(create_branch(&mut repo, "b".to_string(), String::new()), Err(Error::EmptyValue));
}

#[test]
fn is_branch_holds_of_branches_with_a_commit() {
    let mut repo = fresh();
    create_branch(&mut repo, "b".to_string(), A.to_string()).unwrap();
    create_tag(&mut repo, "t".to_string(), A.to_string()).unwrap();
    assert_eq!(is_branch(&repo, "b".to_string()), Ok(true));
    assert_eq!(is_branch(&repo, "t".to_string()), Ok(false));
    assert_eq!(is_branch(&repo, "master".to_string()), Ok(false));
}

#[test]
fn reset_detaches_head() {
    let mut repo = fresh();
    update_ref(&mut repo, "HEAD".to_string(), direct(A), true).unwrap();
    assert_eq!(reset(&mut repo, B.to_string()), Ok(()));
    assert_eq!(repo.refs.get("HEAD"), Some(&B.to_string()));
    assert_eq!(repo.refs.get("refs/heads/master"), Some(&A.to_string()));
    assert_eq!(get_ref(&repo, "HEAD".to_string(), false), Ok(direct(B)));
    assert_eq!(reset(&mut repo, String::new()), Err(Error::EmptyValue));
    assert_eq!(repo.refs.get("HEAD"), Some(&B.to_string()));
}

#[test]
fn get_branch_name_is_what_head_names() {
    let mut repo = fresh();
    assert_eq!(get_branch_name(&repo), Ok("master".to_string()));
    update_ref(&mut repo, "HEAD".to_string(), symbolic("refs/heads/a/b"), false).unwrap();
    assert_eq!(get_branch_name(&repo), Ok("a/b".to_string()));
    reset(&mut repo, A.to_string()).unwrap();
    assert_eq!(get_branch_name(&repo), Ok(String::new()));
    update_ref(&mut repo, "HEAD".to_string(), symbolic("refs/tags/v1"), false).unwrap();
    assert_eq!(get_branch_name(&repo), Err(Error::Malformed));
}

#[test]
fn iter_branch_names_lists_the_branches_with_a_commit() {
    let mut repo = fresh();
    assert_eq!(iter_branch_names(&repo), Ok(vec![]));
    create_branch(&mut repo, "one".to_string(), A.to_string()).unwrap();
    create_tag(&mut repo, "v1".to_string(), B.to_string()).unwrap();
    create_branch(&mut repo, "two/three".to_string(), C.to_string()).unwrap();
    assert_eq!(
        iter_branch_names(&repo),
        Ok(vec!["one".to_string(), "two/three".to_string()])
    );
}
