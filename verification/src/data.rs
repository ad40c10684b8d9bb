//! The object store and the reference store of one storage root.
//!
//! An object is stored under its id as its kind's tag, a zero byte and its
//! content; its id is the hexadecimal SHA-1 digest of exactly those bytes. A
//! reference is stored under its name as what its file holds: an object id,
//! or `ref: ` and the name of another reference.

use crate::error::Error;
use crate::hex::{all_hex, hex_lower, lemma_hex_lower, to_hex};
use crate::outside::{sha1, sha1_digest};
use crate::strmap::{StrMap, Table};
use crate::text::{chars_of, first_index, has_prefix, lemma_first_index_is, starts_with_at, string_of};
use vstd::prelude::*;
use vstd::string::*;

verus! {

/// The three kinds of stored objects.
#[derive(Debug, Clone, Copy, PartialEq, Eq, Structural)]
pub enum ObjectKind {
    Blob,
    Tree,
    Commit,
}

/// What a reference holds: an object id, or the name of another reference
/// where `symbolic` is set.
#[derive(Debug, Clone, PartialEq, Eq)]
pub struct RefValue {
    pub value: String,
    pub symbolic: bool,
}

/// The mathematical value of a `RefValue`.
pub struct RefView {
    pub value: Seq<char>,
    pub symbolic: bool,
}

impl View for RefValue {
    type V = RefView;

    open spec fn view(&self) -> RefView {
        RefView { value: self.value@, symbolic: self.symbolic }
    }
}

/// One storage root: its objects by id and its references by name.
#[derive(Debug)]
pub struct Repository {
    pub objects: StrMap<Vec<u8>>,
    pub refs: StrMap<String>,
}

/// The objects of a storage root, as a map from id to stored bytes.
pub type Objects = Map<Seq<char>, Seq<u8>>;

/// The references of a storage root, as a map from name to stored text.
pub type Refs = Map<Seq<char>, Seq<char>>;

/// The tag that a stored object of `kind` begins with: `blob`, `tree` or
/// `commit` in ASCII.
pub open spec fn kind_tag(kind: ObjectKind) -> Seq<u8> {
    match kind {
        ObjectKind::Blob => seq![98u8, 108u8, 111u8, 98u8],
        ObjectKind::Tree => seq![116u8, 114u8, 101u8, 101u8],
        ObjectKind::Commit => seq![99u8, 111u8, 109u8, 109u8, 105u8, 116u8],
    }
}

/// The bytes stored for an object: tag, zero byte, content.
pub open spec fn frame(kind: ObjectKind, content: Seq<u8>) -> Seq<u8> {
    kind_tag(kind) + seq![0u8] + content
}

/// The id of an object: the hexadecimal digest of its stored bytes.
pub open spec fn object_id(kind: ObjectKind, content: Seq<u8>) -> Seq<char> {
    hex_lower(sha1_digest(frame(kind, content)))
}

/// Whether `oid` has the form of an object id: forty hexadecimal digits.
pub open spec fn is_id(oid: Seq<char>) -> bool {
    oid.len() == 40 && all_hex(oid)
}

/// The store after an object was put: unchanged where its id is taken.
pub open spec fn put_object(objects: Objects, kind: ObjectKind, content: Seq<u8>) -> Objects {
    let oid = object_id(kind, content);
    if objects.contains_key(oid) {
        objects
    } else {
        objects.insert(oid, frame(kind, content))
    }
}

/// The kind that a tag stands for.
pub open spec fn kind_of_tag(tag: Seq<u8>) -> Option<ObjectKind> {
    if tag == kind_tag(ObjectKind::Blob) {
        Some(ObjectKind::Blob)
    } else if tag == kind_tag(ObjectKind::Tree) {
        Some(ObjectKind::Tree)
    } else if tag == kind_tag(ObjectKind::Commit) {
        Some(ObjectKind::Commit)
    } else {
        None
    }
}

/// Kind and content of stored bytes. Bytes without a zero byte are
/// malformed; so is a tag of no kind, where no kind is expected. A tag
/// other than that of the expected kind is a type mismatch.
pub open spec fn unframe(raw: Seq<u8>, expected: Option<ObjectKind>) -> Result<
    (ObjectKind, Seq<u8>),
    Error,
> {
    let i = first_index(raw, 0u8);
    if !(0 <= i < raw.len()) {
        Err(Error::Malformed)
    } else {
        match expected {
            Some(kind) => if raw.take(i) == kind_tag(kind) {
                Ok((kind, raw.skip(i + 1)))
            } else {
                Err(Error::TypeMismatch)
            },
            None => match kind_of_tag(raw.take(i)) {
                Some(kind) => Ok((kind, raw.skip(i + 1))),
                None => Err(Error::Malformed),
            },
        }
    }
}

/// What reading the object `oid` gives.
pub open spec fn read_object(objects: Objects, oid: Seq<char>, expected: Option<ObjectKind>) -> Result<
    (ObjectKind, Seq<u8>),
    Error,
> {
    if !objects.contains_key(oid) {
        Err(Error::NotFound)
    } else {
        unframe(objects[oid], expected)
    }
}

/// The text that marks a symbolic reference.
pub open spec fn marker() -> Seq<char> {
    seq!['r', 'e', 'f', ':', ' ']
}

/// What the file of reference `name` holds; nothing where there is none.
pub open spec fn stored_text(refs: Refs, name: Seq<char>) -> Seq<char> {
    if refs.contains_key(name) {
        refs[name]
    } else {
        Seq::empty()
    }
}

/// The value of reference `name`, symbolic references not followed.
pub open spec fn read_ref(refs: Refs, name: Seq<char>) -> RefView {
    let text = stored_text(refs, name);
    if has_prefix(text, marker()) {
        RefView { value: text.skip(5), symbolic: true }
    } else {
        RefView { value: text, symbolic: false }
    }
}

/// The text stored for a value.
pub open spec fn ref_text(value: RefView) -> Seq<char> {
    if value.symbolic {
        marker() + value.value
    } else {
        value.value
    }
}

/// The reference that `name` leads to, and its value, following at most
/// `hops` symbolic references where `deref` is set. A longer chain is
/// unresolvable.
pub open spec fn resolve(refs: Refs, name: Seq<char>, deref: bool, hops: nat) -> Result<
    (Seq<char>, RefView),
    Error,
>
    decreases hops,
{
    let value = read_ref(refs, name);
    if value.symbolic && deref {
        if hops == 0 {
            Err(Error::Unresolvable)
        } else {
            resolve(refs, value.value, deref, (hops - 1) as nat)
        }
    } else {
        Ok((name, value))
    }
}

/// `resolve` with as many hops as there are references: a chain that does
/// not come back to a reference it has passed needs no more.
pub open spec fn lookup(refs: Refs, name: Seq<char>, deref: bool) -> Result<
    (Seq<char>, RefView),
    Error,
> {
    resolve(refs, name, deref, refs.dom().len())
}

/// The value that `name` leads to.
pub open spec fn ref_value(refs: Refs, name: Seq<char>, deref: bool) -> Result<RefView, Error> {
    match lookup(refs, name, deref) {
        Ok(found) => Ok(found.1),
        Err(e) => Err(e),
    }
}

/// The references after `value` was stored in what `reference` leads to. An
/// empty value is refused.
pub open spec fn updated(refs: Table<Seq<char>>, reference: Seq<char>, value: RefView, deref: bool) -> Result<
    Table<Seq<char>>,
    Error,
> {
    match lookup(refs.map, reference, deref) {
        Err(e) => Err(e),
        Ok(found) => if value.value.len() == 0 {
            Err(Error::EmptyValue)
        } else {
            Ok(refs.insert(found.0, ref_text(value)))
        },
    }
}

/// The references after what `reference` leads to was removed. It must be
/// stored.
pub open spec fn deleted(refs: Table<Seq<char>>, reference: Seq<char>, deref: bool) -> Result<
    Table<Seq<char>>,
    Error,
> {
    match lookup(refs.map, reference, deref) {
        Err(e) => Err(e),
        Ok(found) => if !refs.map.contains_key(found.0) {
            Err(Error::NotFound)
        } else {
            Ok(refs.remove(found.0))
        },
    }
}

/// The `HEAD` reference.
pub open spec fn head() -> Seq<char> {
    seq!['H', 'E', 'A', 'D']
}

/// The `MERGE_HEAD` reference.
pub open spec fn merge_head() -> Seq<char> {
    seq!['M', 'E', 'R', 'G', 'E', '_', 'H', 'E', 'A', 'D']
}

/// The prefix of every reference that is listed besides the two heads.
pub open spec fn refs_dir() -> Seq<char> {
    seq!['r', 'e', 'f', 's', '/']
}

/// `listed` with reference `name` added, where `name` begins with `prefix`
/// and leads to a value that is not empty.
pub open spec fn add_listed(
    refs: Refs,
    listed: Seq<(Seq<char>, RefView)>,
    name: Seq<char>,
    prefix: Seq<char>,
    deref: bool,
) -> Result<Seq<(Seq<char>, RefView)>, Error> {
    match ref_value(refs, name, deref) {
        Err(e) => Err(e),
        Ok(value) => Ok(
            if has_prefix(name, prefix) && value.value.len() > 0 {
                listed.push((name, value))
            } else {
                listed
            },
        ),
    }
}

/// The listing of references: `HEAD`, `MERGE_HEAD`, then those of `keys`
/// under `refs/`, in the order of `keys`; of these, the ones that begin with
/// `prefix` and lead to a value that is not empty. The first reference that
/// cannot be resolved fails the listing.
pub open spec fn list_refs(refs: Refs, keys: Seq<Seq<char>>, prefix: Seq<char>, deref: bool) -> Result<
    Seq<(Seq<char>, RefView)>,
    Error,
>
    decreases keys.len(),
{
    if keys.len() == 0 {
        match add_listed(refs, Seq::empty(), head(), prefix, deref) {
            Err(e) => Err(e),
            Ok(listed) => add_listed(refs, listed, merge_head(), prefix, deref),
        }
    } else {
        match list_refs(refs, keys.drop_last(), prefix, deref) {
            Err(e) => Err(e),
            Ok(listed) => if has_prefix(keys.last(), refs_dir()) {
                add_listed(refs, listed, keys.last(), prefix, deref)
            } else {
                Ok(listed)
            },
        }
    }
}

/// The views of a listing.
pub open spec fn listing(v: Seq<(String, RefValue)>) -> Seq<(Seq<char>, RefView)> {
    Seq::new(v.len(), |i: int| (v[i].0@, v[i].1@))
}

/// A stored object reads back as what was framed.
pub proof fn lemma_unframe_frame(kind: ObjectKind, content: Seq<u8>)
    ensures
        unframe(frame(kind, content), None) == Ok::<_, Error>((kind, content)),
        unframe(frame(kind, content), Some(kind)) == Ok::<_, Error>((kind, content)),
        forall|other: ObjectKind|
            other != kind ==> unframe(frame(kind, content), Some(other)) == Err::<
                (ObjectKind, Seq<u8>),
                _,
            >(Error::TypeMismatch),
{
    let raw = frame(kind, content);
    let n = kind_tag(kind).len() as int;
    assert(raw[n] == 0u8);
    assert forall|j: int| 0 <= j < n implies raw[j] != 0u8 by {
        assert(raw[j] == kind_tag(kind)[j]);
    }
    lemma_first_index_is(raw, 0u8, n);
    assert(raw.take(n) =~= kind_tag(kind));
    assert(raw.skip(n + 1) =~= content);
    lemma_tags_differ();
}

/// No two kinds share a tag.
pub proof fn lemma_tags_differ()
    ensures
        forall|a: ObjectKind, b: ObjectKind| kind_tag(a) == kind_tag(b) ==> a == b,
        forall|a: ObjectKind| kind_of_tag(kind_tag(a)) == Some(a),
{
    assert(kind_tag(ObjectKind::Blob)[0] == 98u8);
    assert(kind_tag(ObjectKind::Tree)[0] == 116u8);
    assert(kind_tag(ObjectKind::Commit)[0] == 99u8);
}

impl ObjectKind {
    /// The tag of this kind.
    pub fn tag(&self) -> (out: Vec<u8>)
        ensures
            out@ == kind_tag(*self),
    {
        let out = match self {
            ObjectKind::Blob => vec![98u8, 108u8, 111u8, 98u8],
            ObjectKind::Tree => vec![116u8, 114u8, 101u8, 101u8],
            ObjectKind::Commit => vec![99u8, 111u8, 109u8, 109u8, 105u8, 116u8],
        };
        assert(out@ =~= kind_tag(*self));
        out
    }
}

impl Repository {
    /// A storage root without objects and without references.
    pub fn new() -> (repo: Repository)
        ensures
            repo.objects@ == Objects::empty(),
            repo.refs@ == Refs::empty(),
            repo.refs.keys() == Seq::<Seq<char>>::empty(),
    {
        Repository { objects: StrMap::new(), refs: StrMap::new() }
    }
}

/// Whether the first `len` bytes of `raw` are `tag`.
fn tag_matches(raw: &Vec<u8>, len: usize, tag: &Vec<u8>) -> (r: bool)
    requires
        len <= raw.len(),
    ensures
        r == (raw@.take(len as int) == tag@),
{
    if tag.len() != len {
        return false;
    }
    let mut i: usize = 0;
    while i < len
        invariant
            i <= len <= raw.len(),
            tag.len() == len,
            forall|j: int| 0 <= j < i ==> raw@[j] == tag@[j],
        decreases len - i,
    {
        if raw[i] != tag[i] {
            assert(raw@.take(len as int)[i as int] != tag@[i as int]);
            return false;
        }
        i += 1;
    }
    assert(raw@.take(len as int) =~= tag@);
    true
}

/// Kind and content of stored bytes.
pub fn parse_object(raw: &Vec<u8>, expected: Option<ObjectKind>) -> (r: Result<
    (ObjectKind, Vec<u8>),
    Error,
>)
    ensures
        match r {
            Ok(found) => unframe(raw@, expected) == Ok::<_, Error>((found.0, found.1@)),
            Err(e) => unframe(raw@, expected) == Err::<(ObjectKind, Seq<u8>), _>(e),
        },
{
    let mut i: usize = 0;
    while i < raw.len() && raw[i] != 0u8
        invariant
            i <= raw.len(),
            forall|j: int| 0 <= j < i ==> raw@[j] != 0u8,
        decreases raw.len() - i,
    {
        i += 1;
    }
    proof {
        lemma_first_index_is(raw@, 0u8, i as int);
    }
    if i == raw.len() {
        return Err(Error::Malformed);
    }
    let kind = match expected {
        Some(kind) => {
            if !tag_matches(raw, i, &kind.tag()) {
                return Err(Error::TypeMismatch);
            }
            kind
        },
        None => {
            if tag_matches(raw, i, &ObjectKind::Blob.tag()) {
                ObjectKind::Blob
            } else if tag_matches(raw, i, &ObjectKind::Tree.tag()) {
                ObjectKind::Tree
            } else if tag_matches(raw, i, &ObjectKind::Commit.tag()) {
                ObjectKind::Commit
            } else {
                return Err(Error::Malformed);
            }
        },
    };
    let mut content: Vec<u8> = Vec::new();
    let mut j: usize = i + 1;
    while j < raw.len()
        invariant
            i + 1 <= j <= raw.len(),
            content@ == raw@.subrange(i + 1, j as int),
        decreases raw.len() - j,
    {
        content.push(raw[j]);
        j += 1;
        assert(raw@.subrange(i + 1, j as int) == raw@.subrange(i + 1, j - 1).push(raw@[j - 1]));
    }
    assert(raw@.subrange(i + 1, raw@.len() as int) == raw@.skip(i + 1));
    Ok((kind, content))
}

/// The bytes to store for an object.
pub fn framed(content: &Vec<u8>, kind: ObjectKind) -> (raw: Vec<u8>)
    ensures
        raw@ == frame(kind, content@),
{
    let mut raw = kind.tag();
    raw.push(0u8);
    let mut i: usize = 0;
    while i < content.len()
        invariant
            i <= content.len(),
            raw@ == kind_tag(kind) + seq![0u8] + content@.take(i as int),
        decreases content.len() - i,
    {
        raw.push(content[i]);
        i += 1;
        assert(content@.take(i as int) == content@.take(i - 1).push(content@[i - 1]));
    }
    assert(content@.take(content@.len() as int) == content@);
    raw
}

/// The id that `content` has as an object of `kind`, whether or not it is
/// stored anywhere.
pub fn object_id_of(content: &Vec<u8>, kind: ObjectKind) -> (oid: String)
    ensures
        oid@ == object_id(kind, content@),
        is_id(oid@),
{
    let raw = framed(content, kind);
    let digest = sha1(raw.as_slice());
    proof {
        lemma_hex_lower(digest@);
    }
    to_hex(&digest)
}

/// Creates the store of a new storage root. Fails with `AlreadyExists`
/// where the root is already there.
pub fn init(root_exists: bool) -> (r: Result<Repository, Error>)
    ensures
        root_exists ==> r == Err::<Repository, _>(Error::AlreadyExists),
        !root_exists ==> r is Ok && r->Ok_0.objects@ == Objects::empty() && r->Ok_0.refs@
            == Refs::empty() && r->Ok_0.refs.keys() == Seq::<Seq<char>>::empty(),
{
    if root_exists {
        Err(Error::AlreadyExists)
    } else {
        Ok(Repository::new())
    }
}

/// Puts an object into the store and returns its id. Where the id is
/// already taken nothing is written.
pub fn hash_object(repo: &mut Repository, content: &Vec<u8>, kind: ObjectKind) -> (oid: String)
    ensures
        oid@ == object_id(kind, content@),
        is_id(oid@),
        final(repo).objects@ == put_object(old(repo).objects@, kind, content@),
        final(repo).refs == old(repo).refs,
{
    let raw = framed(content, kind);
    let digest = sha1(raw.as_slice());
    proof {
        lemma_hex_lower(digest@);
    }
    let oid = to_hex(&digest);
    if !repo.objects.contains_key(oid.as_str()) {
        repo.objects.insert(oid.clone(), raw);
    }
    oid
}

/// Whether an object is stored under `oid`.
pub fn object_exists(repo: &Repository, oid: String) -> (r: bool)
    ensures
        r == repo.objects@.contains_key(oid@),
{
    repo.objects.contains_key(oid.as_str())
}

/// Kind and content of the object stored under `oid`.
pub fn get_object(repo: &Repository, oid: String, expected: Option<ObjectKind>) -> (r: Result<
    (ObjectKind, Vec<u8>),
    Error,
>)
    ensures
        match r {
            Ok(found) => read_object(repo.objects@, oid@, expected) == Ok::<_, Error>(
                (found.0, found.1@),
            ),
            Err(e) => read_object(repo.objects@, oid@, expected) == Err::<
                (ObjectKind, Seq<u8>),
                _,
            >(e),
        },
{
    match repo.objects.get(oid.as_str()) {
        None => Err(Error::NotFound),
        Some(raw) => parse_object(raw, expected),
    }
}

/// The value of reference `name`, symbolic references not followed.
pub fn peek_ref(repo: &Repository, name: &str) -> (value: RefValue)
    ensures
        value@ == read_ref(repo.refs@, name@),
{
    match repo.refs.get(name) {
        None => RefValue { value: String::new(), symbolic: false },
        Some(text) => {
            let chars = chars_of(text.as_str());
            let mark = chars_of("ref: ");
            proof {
                reveal_strlit("ref: ");
                assert(mark@ =~= marker());
                assert(chars@.skip(0) == chars@);
            }
            if starts_with_at(&chars, 0, &mark) {
                let value = string_of(&chars, 5, chars.len());
                assert(chars@.subrange(5, chars@.len() as int) == chars@.skip(5));
                RefValue { value, symbolic: true }
            } else {
                RefValue { value: text.clone(), symbolic: false }
            }
        },
    }
}

/// The reference that `reference` leads to, and its value. Symbolic
/// references are followed where `deref` is set; a chain that comes back to
/// itself is `Unresolvable`.
pub fn get_ref_internal(repo: &Repository, reference: String, deref: bool) -> (r: Result<
    (String, RefValue),
    Error,
>)
    ensures
        match r {
            Ok(found) => lookup(repo.refs@, reference@, deref) == Ok::<_, Error>(
                (found.0@, found.1@),
            ),
            Err(e) => lookup(repo.refs@, reference@, deref) == Err::<(Seq<char>, RefView), _>(e),
        },
        !deref ==> r is Ok,
{
    let mut name = reference;
    let mut hops: usize = repo.refs.len();
    loop
        invariant
            lookup(repo.refs@, reference@, deref) == resolve(repo.refs@, name@, deref, hops as nat),
        decreases hops,
    {
        let value = peek_ref(repo, name.as_str());
        if value.symbolic && deref {
            if hops == 0 {
                return Err(Error::Unresolvable);
            }
            name = value.value;
            hops -= 1;
        } else {
            return Ok((name, value));
        }
    }
}

/// The value that `reference` leads to: empty where no such reference is
/// stored.
pub fn get_ref(repo: &Repository, reference: String, deref: bool) -> (r: Result<RefValue, Error>)
    ensures
        match r {
            Ok(value) => ref_value(repo.refs@, reference@, deref) == Ok::<_, Error>(value@),
            Err(e) => ref_value(repo.refs@, reference@, deref) == Err::<RefView, _>(e),
        },
        !deref ==> r is Ok,
{
    match get_ref_internal(repo, reference, deref) {
        Ok(found) => Ok(found.1),
        Err(e) => Err(e),
    }
}

/// Stores `value` in the reference that `reference` leads to. An empty
/// value is refused with `EmptyValue`. On failure nothing changes.
pub fn update_ref(repo: &mut Repository, reference: String, value: RefValue, deref: bool) -> (r:
    Result<(), Error>)
    ensures
        final(repo).objects == old(repo).objects,
        match updated(old(repo).refs.table(), reference@, value@, deref) {
            Ok(refs) => r is Ok && final(repo).refs.table() == refs,
            Err(e) => r == Err::<(), _>(e) && final(repo).refs == old(repo).refs,
        },
{
    let target = match get_ref_internal(repo, reference, deref) {
        Ok(found) => found.0,
        Err(e) => {
            return Err(e);
        },
    };
    if value.value.as_str().is_empty() {
        return Err(Error::EmptyValue);
    }
    let text = if value.symbolic {
        proof {
            reveal_strlit("ref: ");
            assert("ref: "@ =~= marker());
        }
        let mut text = "ref: ".to_owned();
        text.append(value.value.as_str());
        text
    } else {
        value.value
    };
    repo.refs.insert(target, text);
    Ok(())
}

/// Removes the reference that `reference` leads to. Fails with `NotFound`
/// where that reference is not stored. On failure nothing changes.
pub fn delete_ref(repo: &mut Repository, reference: String, deref: bool) -> (r: Result<(), Error>)
    ensures
        final(repo).objects == old(repo).objects,
        match deleted(old(repo).refs.table(), reference@, deref) {
            Ok(refs) => r is Ok && final(repo).refs.table() == refs,
            Err(e) => r == Err::<(), _>(e) && final(repo).refs == old(repo).refs,
        },
{
    let target = match get_ref_internal(repo, reference, deref) {
        Ok(found) => found.0,
        Err(e) => {
            return Err(e);
        },
    };
    if !repo.refs.contains_key(target.as_str()) {
        return Err(Error::NotFound);
    }
    repo.refs.remove(target.as_str());
    Ok(())
}

/// Adds `name` to `listed` where it begins with `prefix` and leads to a
/// value that is not empty.
fn list_one(
    repo: &Repository,
    listed: &mut Vec<(String, RefValue)>,
    name: String,
    prefix: &Vec<char>,
    deref: bool,
) -> (r: Result<(), Error>)
    ensures
        match r {
            Ok(_) => add_listed(repo.refs@, listing(old(listed)@), name@, prefix@, deref) == Ok::<
                _,
                Error,
            >(listing(final(listed)@)),
            Err(e) => add_listed(repo.refs@, listing(old(listed)@), name@, prefix@, deref) == Err::<
                Seq<(Seq<char>, RefView)>,
                _,
            >(e),
        },
{
    let value = match get_ref(repo, name.clone(), deref) {
        Ok(value) => value,
        Err(e) => {
            return Err(e);
        },
    };
    let chars = chars_of(name.as_str());
    assert(chars@.skip(0) == chars@);
    if starts_with_at(&chars, 0, prefix) && !value.value.as_str().is_empty() {
        let ghost before = listing(listed@);
        let ghost entry = (name@, value@);
        listed.push((name, value));
        assert(listing(listed@) =~= before.push(entry));
    }
    Ok(())
}

/// Lists the references: `HEAD`, `MERGE_HEAD` and every reference under
/// `refs/`, in the order in which they were first stored; of these, the
/// ones whose name begins with `prefix` and that lead to a value that is not
/// empty.
pub fn iter_refs(repo: &Repository, prefix: &str, deref: bool) -> (r: Result<
    Vec<(String, RefValue)>,
    Error,
>)
    ensures
        match r {
            Ok(listed) => list_refs(repo.refs@, repo.refs.keys(), prefix@, deref) == Ok::<
                _,
                Error,
            >(listing(listed@)),
            Err(e) => list_refs(repo.refs@, repo.refs.keys(), prefix@, deref) == Err::<
                Seq<(Seq<char>, RefView)>,
                _,
            >(e),
        },
{
    let prefix_chars = chars_of(prefix);
    let dir = chars_of("refs/");
    proof {
        reveal_strlit("refs/");
        assert(dir@ =~= refs_dir());
    }
    let mut listed: Vec<(String, RefValue)> = Vec::new();
    assert(listing(listed@) =~= Seq::empty());
    let head_name = head_name();
    match list_one(repo, &mut listed, head_name, &prefix_chars, deref) {
        Ok(_) => {},
        Err(e) => {
            assert(repo.refs.keys().take(0).len() == 0);
            proof {
                lemma_list_refs_fails(repo.refs@, repo.refs.keys(), 0, prefix@, deref);
            }
            return Err(e);
        },
    }
    match list_one(repo, &mut listed, merge_head_name(), &prefix_chars, deref) {
        Ok(_) => {},
        Err(e) => {
            proof {
                lemma_list_refs_fails(repo.refs@, repo.refs.keys(), 0, prefix@, deref);
            }
            return Err(e);
        },
    }
    let n = repo.refs.len();
    let mut i: usize = 0;
    while i < n
        invariant
            i <= n == repo.refs.keys().len(),
            dir@ == refs_dir(),
            prefix_chars@ == prefix@,
            list_refs(repo.refs@, repo.refs.keys().take(i as int), prefix@, deref) == Ok::<
                _,
                Error,
            >(listing(listed@)),
        decreases n - i,
    {
        let name = repo.refs.key_at(i);
        let chars = chars_of(name.as_str());
        assert(chars@.skip(0) == chars@);
        proof {
            let keys = repo.refs.keys();
            assert(keys.take(i + 1).drop_last() == keys.take(i as int));
            assert(keys.take(i + 1).last() == keys[i as int]);
        }
        if starts_with_at(&chars, 0, &dir) {
            match list_one(repo, &mut listed, name.clone(), &prefix_chars, deref) {
                Ok(_) => {},
                Err(e) => {
                    proof {
                        lemma_list_refs_fails(
                            repo.refs@,
                            repo.refs.keys(),
                            i + 1,
                            prefix@,
                            deref,
                        );
                    }
                    return Err(e);
                },
            }
        }
        i += 1;
    }
    assert(repo.refs.keys().take(n as int) == repo.refs.keys());
    Ok(listed)
}

/// A listing that fails on the first `n` keys fails on all of them, in the
/// same way.
proof fn lemma_list_refs_fails(refs: Refs, keys: Seq<Seq<char>>, n: int, prefix: Seq<char>, deref: bool)
    requires
        0 <= n <= keys.len(),
        list_refs(refs, keys.take(n), prefix, deref) is Err,
    ensures
        list_refs(refs, keys, prefix, deref) == list_refs(refs, keys.take(n), prefix, deref),
    decreases keys.len() - n,
{
    if n < keys.len() {
        assert(keys.take(n + 1).drop_last() == keys.take(n));
        lemma_list_refs_fails(refs, keys, n + 1, prefix, deref);
    } else {
        assert(keys.take(n) == keys);
    }
}

/// The name `HEAD`.
pub fn head_name() -> (name: String)
    ensures
        name@ == head(),
{
    proof {
        reveal_strlit("HEAD");
        assert("HEAD"@ =~= head());
    }
    "HEAD".to_owned()
}

/// The name `MERGE_HEAD`.
pub fn merge_head_name() -> (name: String)
    ensures
        name@ == merge_head(),
{
    proof {
        reveal_strlit("MERGE_HEAD");
        assert("MERGE_HEAD"@ =~= merge_head());
    }
    "MERGE_HEAD".to_owned()
}

/// Copies the object `oid` from `remote` unless it is stored here. Fails
/// with `NotFound` where it is stored in neither.
pub fn fetch_object_if_missing(repo: &mut Repository, remote: &Repository, oid: String) -> (r:
    Result<(), Error>)
    ensures
        final(repo).refs == old(repo).refs,
        if old(repo).objects@.contains_key(oid@) {
            r is Ok && final(repo).objects == old(repo).objects
        } else if remote.objects@.contains_key(oid@) {
            r is Ok && final(repo).objects@ == old(repo).objects@.insert(
                oid@,
                remote.objects@[oid@],
            )
        } else {
            r == Err::<(), _>(Error::NotFound) && final(repo).objects == old(repo).objects
        },
{
    if repo.objects.contains_key(oid.as_str()) {
        return Ok(());
    }
    match remote.objects.get(oid.as_str()) {
        None => Err(Error::NotFound),
        Some(raw) => {
            repo.objects.insert(oid, raw.clone());
            Ok(())
        },
    }
}

/// Copies the object `oid` to `remote` unless it is stored there. Fails
/// with `NotFound` where it is stored in neither.
pub fn push_object(repo: &Repository, remote: &mut Repository, oid: String) -> (r: Result<
    (),
    Error,
>)
    ensures
        final(remote).refs == old(remote).refs,
        if old(remote).objects@.contains_key(oid@) {
            r is Ok && final(remote).objects == old(remote).objects
        } else if repo.objects@.contains_key(oid@) {
            r is Ok && final(remote).objects@ == old(remote).objects@.insert(
                oid@,
                repo.objects@[oid@],
            )
        } else {
            r == Err::<(), _>(Error::NotFound) && final(remote).objects == old(remote).objects
        },
{
    fetch_object_if_missing(remote, repo, oid)
}

} // verus!
