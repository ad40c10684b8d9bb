use rgit::data::{
    fetch_object_if_missing, get_object, hash_object, object_exists, object_id_of, parse_object,
    push_object, ObjectKind, Repository,
};
use rgit::error::Error;
use rgit::hex::{is_hex_char, to_hex};

const HELLO: &str = "5b211494ba9e0f5c98ca51e8732bda579d8487ef";
const WORLD: &str = "7186b66b6ad5dc034b76436018f1056527106104";
const EMPTY_BLOB: &str = "48ede76ef68a65b7292840b4ad4d1f111359d82a";
const EMPTY_TREE: &str = "d28c5ff92df044a522508a29cf3fad0b812f672f";

#[test]
fn hash_object_gives_the_digest_of_tag_zero_and_content() {
    let mut repo = Repository::new();
    assert_eq!(hash_object(&mut repo, &b"hello".to_vec(), ObjectKind::Blob), HELLO);
    assert_eq!(hash_object(&mut repo, &b"world".to_vec(), ObjectKind::Blob), WORLD);
    assert_eq!(hash_object(&mut repo, &Vec::new(), ObjectKind::Blob), EMPTY_BLOB);
    assert_eq!(hash_object(&mut repo, &Vec::new(), ObjectKind::Tree), EMPTY_TREE);
    assert_eq!(repo.objects.len(), 4);
}

#[test]
fn hash_object_stores_tag_zero_and_content() {
    let mut repo = Repository::new();
    let oid = hash_object(&mut repo, &b"hello".to_vec(), ObjectKind::Blob);
    assert_eq!(repo.objects.get(&oid), Some(&b"blob\0hello".to_vec()));
    let oid = hash_object(&mut repo, &b"x y\n".to_vec(), ObjectKind::Commit);
    assert_eq!(repo.objects.get(&oid), Some(&b"commit\0x y\n".to_vec()));
}

#[test]
fn object_id_of_stores_nothing() {
    assert_eq!(object_id_of(&b"hello".to_vec(), ObjectKind::Blob), HELLO);
    assert_ne!(object_id_of(&b"hello".to_vec(), ObjectKind::Tree), HELLO);
}

#[test]
fn putting_twice_returns_the_same_id_and_writes_once() {
    let mut repo = Repository::new();
    let first = hash_object(&mut repo, &b"hello".to_vec(), ObjectKind::Blob);
    let keys_after_first = repo.objects.len();
    let second = hash_object(&mut repo, &b"hello".to_vec(), ObjectKind::Blob);
    assert_eq!(first, second);
    assert_eq!(repo.objects.len(), keys_after_first);
    assert_eq!(repo.objects.len(), 1);
}

#[test]
fn a_taken_id_is_not_overwritten() {
    let mut repo = Repository::new();
    repo.objects.insert(HELLO.to_string(), b"blob\0other".to_vec());
    let oid = hash_object(&mut repo, &b"hello".to_vec(), ObjectKind::Blob);
    assert_eq!(oid, HELLO);
    assert_eq!(repo.objects.get(HELLO), Some(&b"blob\0other".to_vec()));
}

#[test]
fn different_contents_get_different_ids() {
    let mut repo = Repository::new();
    let a = hash_object(&mut repo, &b"hello".to_vec(), ObjectKind::Blob);
    let b = hash_object(&mut repo, &b"hello ".to_vec(), ObjectKind::Blob);
    let c = hash_object(&mut repo, &b"hello".to_vec(), ObjectKind::Commit);
    assert_ne!(a, b);
    assert_ne!(a, c);
    assert_ne!(b, c);
}

#[test]
fn get_object_returns_kind_and_content() {
    let mut repo = Repository::new();
    let oid = hash_object(&mut repo, &vec![0u8, 255, 0, 10], ObjectKind::Blob);
    assert_eq!(
        get_object(&repo, oid.clone(), None),
        Ok((ObjectKind::Blob, vec![0u8, 255, 0, 10]))
    );
    assert_eq!(
        get_object(&repo, oid, Some(ObjectKind::Blob)),
        Ok((ObjectKind::Blob, vec![0u8, 255, 0, 10]))
    );
}

#[test]
fn get_object_of_an_absent_id_is_not_found() {
    let repo = Repository::new();
    assert_eq!(get_object(&repo, HELLO.to_string(), None), Err(Error::NotFound));
    assert_eq!(get_object(&repo, String::new(), Some(ObjectKind::Tree)), Err(Error::NotFound));
}

#[test]
fn get_object_of_another_kind_is_a_type_mismatch() {
    let mut repo = Repository::new();
    let oid = hash_object(&mut repo, &b"hello".to_vec(), ObjectKind::Blob);
    assert_eq!(get_object(&repo, oid.clone(), Some(ObjectKind::Tree)), Err(Error::TypeMismatch));
    assert_eq!(get_object(&repo, oid, Some(ObjectKind::Commit)), Err(Error::TypeMismatch));
}

#[test]
fn stored_bytes_without_a_zero_byte_are_malformed() {
    assert_eq!(parse_object(&b"blobhello".to_vec(), None), Err(Error::Malformed));
    assert_eq!(parse_object(&Vec::new(), Some(ObjectKind::Blob)), Err(Error::Malformed));
}

#[test]
fn an_unknown_tag_is_malformed_or_a_mismatch() {
    assert_eq!(parse_object(&b"blub\0hello".to_vec(), None), Err(Error::Malformed));
    assert_eq!(
        parse_object(&b"blub\0hello".to_vec(), Some(ObjectKind::Blob)),
        Err(Error::TypeMismatch)
    );
    assert_eq!(parse_object(&b"\0hello".to_vec(), None), Err(Error::Malformed));
}

#[test]
fn content_begins_after_the_first_zero_byte() {
    assert_eq!(
        parse_object(&b"tree\0a\0b".to_vec(), None),
        Ok((ObjectKind::Tree, b"a\0b".to_vec()))
    );
    assert_eq!(parse_object(&b"commit\0".to_vec(), None), Ok((ObjectKind::Commit, Vec::new())));
}

#[test]
fn object_exists_tells_stored_from_absent() {
    let mut repo = Repository::new();
    assert!(!object_exists(&repo, HELLO.to_string()));
    hash_object(&mut repo, &b"hello".to_vec(), ObjectKind::Blob);
    assert!(object_exists(&repo, HELLO.to_string()));
    assert!(!object_exists(&repo, WORLD.to_string()));
}

#[test]
fn data_init_fails_on_an_existing_root() {
    assert!(matches!(rgit::data::init(true), Err(Error::AlreadyExists)));
    let repo = rgit::data::init(false).unwrap();
    assert_eq!(repo.objects.len(), 0);
    assert_eq!(repo.refs.len(), 0);
}

#[test]
fn fetch_object_copies_what_is_missing() {
    let mut remote = Repository::new();
    let oid = hash_object(&mut remote, &b"hello".to_vec(), ObjectKind::Blob);
    let mut local = Repository::new();
    assert_eq!(fetch_object_if_missing(&mut local, &remote, oid.clone()), Ok(()));
    assert_eq!(get_object(&local, oid.clone(), None), Ok((ObjectKind::Blob, b"hello".to_vec())));
    assert_eq!(fetch_object_if_missing(&mut local, &remote, oid), Ok(()));
    assert_eq!(local.objects.len(), 1);
    assert_eq!(
        fetch_object_if_missing(&mut local, &remote, WORLD.to_string()),
        Err(Error::NotFound)
    );
}

#[test]
fn push_object_copies_what_the_remote_lacks() {
    let mut local = Repository::new();
    let oid = hash_object(&mut local, &b"world".to_vec(), ObjectKind::Blob);
    let mut remote = Repository::new();
    assert_eq!(push_object(&local, &mut remote, oid.clone()), Ok(()));
    assert!(object_exists(&remote, oid));
    assert_eq!(push_object(&local, &mut remote, HELLO.to_string()), Err(Error::NotFound));
}

#[test]
fn to_hex_renders_two_lower_case_digits_for_each_byte() {
    assert_eq!(to_hex(&vec![0x00, 0x0f, 0xa0, 0xff, 0x5b]), "000fa0ff5b");
    assert_eq!(to_hex(&Vec::new()), "");
}

#[test]
fn hex_digits_are_the_sixteen_in_both_cases() {
    for c in "0123456789abcdefABCDEF".chars() {
        assert!(is_hex_char(c));
    }
    for c in "gG/:@`{ \n".chars() {
        assert!(!is_hex_char(c));
    }
}
