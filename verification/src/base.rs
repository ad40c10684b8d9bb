//! Trees, commits and the operations on a checked-out repository.

pub use crate::commits::Commit;
use crate::commits::{commit_text, parse_commit, parse_commit_text, render_commit, CommitView};
use crate::data::{
    get_object, get_ref, get_ref_internal, hash_object, head, head_name, is_id, iter_refs,
    list_refs,
    listing, lookup, marker, merge_head, merge_head_name, object_id, object_id_of, put_object,
    read_object, peek_ref, read_ref, ref_text, ref_value, refs_dir, update_ref, updated,
    ObjectKind, Objects, Refs, RefValue, RefView, Repository,
};
use crate::hex::{all_hex, is_hex_char, lemma_hex_lower};
use crate::diff::{compared, merge_inputs, merge_output, merge_trees, Row};
use crate::error::Error;
use crate::outside::string_from_utf8;
use crate::strmap::{StrMap, Table};
use crate::text::{
    chars_of, find_from, has_prefix, lemma_first_index, same_chars, split, split_pieces,
    starts_with_at, string_of, string_views, text_in, views,
};
use crate::tree::{
    blob_word, entry_views, parse_tree, parse_tree_text, render_tree, sort_entries, tree_word,
    EntryView, TreeEntry,
};
use crate::worktree::{
    dir_entries, ignored, lemma_children_view, node_entry, node_views, root_name, snapshot,
    snapshot_into, store_dir, store_node, store_nodes, tree_id, Node, NodeView,
};
use vstd::prelude::*;
use vstd::string::*;
use std::collections::VecDeque;
use vstd::utf8::{decode_utf8, encode_utf8, valid_utf8};

verus! {

/// Whether a tree may hold an entry of this name: no path separator in it,
/// and neither `.` nor `..`.
pub open spec fn valid_name(name: Seq<char>) -> bool {
    !name.contains('/') && name != seq!['.'] && name != seq!['.', '.']
}

/// The text of the object `oid`, which must be of `kind` and hold UTF-8.
pub open spec fn object_text(objects: Objects, oid: Seq<char>, kind: ObjectKind) -> Result<
    Seq<char>,
    Error,
> {
    match read_object(objects, oid, Some(kind)) {
        Err(e) => Err(e),
        Ok(found) => if valid_utf8(found.1) {
            Ok(decode_utf8(found.1))
        } else {
            Err(Error::Malformed)
        },
    }
}

/// The entries of the tree `oid`; none for the empty id.
pub open spec fn stored_entries(objects: Objects, oid: Seq<char>) -> Result<Seq<EntryView>, Error> {
    if oid.len() == 0 {
        Ok(Seq::empty())
    } else {
        match object_text(objects, oid, ObjectKind::Tree) {
            Err(e) => Err(e),
            Ok(text) => match parse_tree(text) {
                None => Err(Error::Malformed),
                Some(es) => Ok(es),
            },
        }
    }
}

/// `acc` with what one entry adds below `base`: a blob its path and id, a
/// tree what its own entries add, to a depth of `depth` trees below it.
pub open spec fn flatten_entry(
    objects: Objects,
    acc: Table<Seq<char>>,
    e: EntryView,
    base: Seq<char>,
    depth: nat,
) -> Result<Table<Seq<char>>, Error>
    decreases depth, 0int, 0int,
{
    if !valid_name(e.0) {
        Err(Error::InvalidName)
    } else if e.2 == blob_word() {
        Ok(acc.insert(base + e.0, e.1))
    } else if e.2 == tree_word() {
        if depth == 0 {
            Err(Error::Malformed)
        } else {
            flatten_into(objects, acc, e.1, base + e.0 + seq!['/'], (depth - 1) as nat)
        }
    } else {
        Err(Error::Malformed)
    }
}

/// `acc` with what the entries `es` add, one after the other.
pub open spec fn flatten_entries(
    objects: Objects,
    acc: Table<Seq<char>>,
    es: Seq<EntryView>,
    base: Seq<char>,
    depth: nat,
) -> Result<Table<Seq<char>>, Error>
    decreases depth, 0int, es.len(),
{
    if es.len() == 0 {
        Ok(acc)
    } else {
        match flatten_entries(objects, acc, es.drop_last(), base, depth) {
            Err(e) => Err(e),
            Ok(before) => flatten_entry(objects, before, es.last(), base, depth),
        }
    }
}

/// `acc` with what the tree `oid` adds below `base`.
pub open spec fn flatten_into(
    objects: Objects,
    acc: Table<Seq<char>>,
    oid: Seq<char>,
    base: Seq<char>,
    depth: nat,
) -> Result<Table<Seq<char>>, Error>
    decreases depth, 1int, 0int,
{
    match stored_entries(objects, oid) {
        Err(e) => Err(e),
        Ok(es) => flatten_entries(objects, acc, es, base, depth),
    }
}

/// The blobs of the tree `oid` by their path below `base`. Trees nested
/// deeper than there are objects are malformed: some tree then holds itself.
pub open spec fn flatten(objects: Objects, oid: Seq<char>, base: Seq<char>) -> Result<
    Table<Seq<char>>,
    Error,
> {
    flatten_into(objects, Table::empty(), oid, base, objects.dom().len())
}

/// The content of each of `paths`, read from the blob that `tree` gives it.
pub open spec fn file_contents(objects: Objects, tree: Map<Seq<char>, Seq<char>>, paths: Seq<Seq<char>>) -> Result<
    Table<Seq<u8>>,
    Error,
>
    decreases paths.len(),
{
    if paths.len() == 0 {
        Ok(Table::empty())
    } else {
        match file_contents(objects, tree, paths.drop_last()) {
            Err(e) => Err(e),
            Ok(files) => match read_object(objects, tree[paths.last()], None) {
                Err(e) => Err(e),
                Ok(found) => Ok(files.insert(paths.last(), found.1)),
            },
        }
    }
}

/// The files that the tree `oid` stands for, by path.
pub open spec fn materialize(objects: Objects, oid: Seq<char>) -> Result<Table<Seq<u8>>, Error> {
    match flatten(objects, oid, Seq::empty()) {
        Err(e) => Err(e),
        Ok(tree) => file_contents(objects, tree.map, tree.keys),
    }
}

/// Entries that fail to flatten fail with every entry after them.
pub proof fn lemma_flatten_entries_fails(
    objects: Objects,
    acc: Table<Seq<char>>,
    es: Seq<EntryView>,
    n: int,
    base: Seq<char>,
    depth: nat,
)
    requires
        0 <= n <= es.len(),
        flatten_entries(objects, acc, es.take(n), base, depth) is Err,
    ensures
        flatten_entries(objects, acc, es, base, depth) == flatten_entries(
            objects,
            acc,
            es.take(n),
            base,
            depth,
        ),
    decreases es.len() - n,
{
    if n < es.len() {
        assert(es.take(n + 1).drop_last() == es.take(n));
        lemma_flatten_entries_fails(objects, acc, es, n + 1, base, depth);
    } else {
        assert(es.take(n) == es);
    }
}

/// Paths whose content cannot be read fail with every path after them.
pub proof fn lemma_file_contents_fails(
    objects: Objects,
    tree: Map<Seq<char>, Seq<char>>,
    paths: Seq<Seq<char>>,
    n: int,
)
    requires
        0 <= n <= paths.len(),
        file_contents(objects, tree, paths.take(n)) is Err,
    ensures
        file_contents(objects, tree, paths) == file_contents(objects, tree, paths.take(n)),
    decreases paths.len() - n,
{
    if n < paths.len() {
        assert(paths.take(n + 1).drop_last() == paths.take(n));
        lemma_file_contents_fails(objects, tree, paths, n + 1);
    } else {
        assert(paths.take(n) == paths);
    }
}

/// Whether `path` is left out of snapshots: it is the storage root or lies
/// under it.
pub fn is_ignored(path: &String) -> (r: bool)
    ensures
        r == ignored(path@),
{
    let chars = chars_of(path.as_str());
    let parts = split_pieces(&chars, '/');
    let root = chars_of(".rgit");
    proof {
        reveal_strlit(".rgit");
        assert(root@ =~= root_name());
    }
    let mut i: usize = 0;
    while i < parts.len()
        invariant
            i <= parts.len(),
            root@ == root_name(),
            views(parts@) == split(path@, '/'),
            forall|j: int| 0 <= j < i ==> views(parts@)[j] != root_name(),
        decreases parts.len() - i,
    {
        if same_chars(&parts[i], &root) {
            assert(views(parts@)[i as int] == root_name());
            return true;
        }
        i += 1;
    }
    false
}

fn blob_kind() -> (s: String)
    ensures
        s@ == blob_word(),
{
    proof {
        reveal_strlit("blob");
        assert("blob"@ =~= blob_word());
    }
    "blob".to_owned()
}

fn tree_kind() -> (s: String)
    ensures
        s@ == tree_word(),
{
    proof {
        reveal_strlit("tree");
        assert("tree"@ =~= tree_word());
    }
    "tree".to_owned()
}

/// Stores a directory: a blob for each file, a tree for each directory in
/// it, and its own tree, whose id is returned. The storage root is left out.
pub fn write_tree(repo: &mut Repository, directory: &Vec<Node>) -> (oid: String)
    ensures
        oid@ == tree_id(node_views(directory@)),
        is_id(oid@),
        final(repo).objects@ == store_dir(old(repo).objects@, node_views(directory@)),
        final(repo).refs == old(repo).refs,
    decreases directory,
{
    let ghost nodes = node_views(directory@);
    let mut entries: Vec<TreeEntry> = Vec::new();
    let mut i: usize = 0;
    assert(nodes.take(0) =~= Seq::empty());
    assert(entry_views(entries@) =~= Seq::empty());
    while i < directory.len()
        invariant
            i <= directory.len(),
            nodes == node_views(directory@),
            entry_views(entries@) == dir_entries(nodes.take(i as int)),
            repo.objects@ == store_nodes(old(repo).objects@, nodes.take(i as int)),
            repo.refs == old(repo).refs,
        decreases directory.len() - i,
    {
        let node = &directory[i];
        proof {
            assert(nodes.take(i + 1).drop_last() == nodes.take(i as int));
            assert(nodes.take(i + 1).last() == node@);
        }
        if !is_ignored(node.name()) {
            let ghost before = entry_views(entries@);
            let ghost stored = repo.objects@;
            match node {
                Node::File { name, content } => {
                    assert(node@ == NodeView::File { name: name@, content: content@ });
                    let oid = hash_object(repo, content, ObjectKind::Blob);
                    entries.push(TreeEntry { name: name.clone(), oid, kind: blob_kind() });
                },
                Node::Dir { name, children } => {
                    proof {
                        lemma_children_view(*name, *children);
                    }
                    assert(node@ == NodeView::Dir {
                        name: name@,
                        children: node_views(children@),
                    });
                    let oid = write_tree(repo, children);
                    entries.push(TreeEntry { name: name.clone(), oid, kind: tree_kind() });
                },
            }
            assert(entries@.last()@ == node_entry(node@));
            assert(repo.objects@ == store_node(stored, node@));
            assert(entry_views(entries@) =~= before.push(entries@.last()@));
        }
        i += 1;
    }
    assert(nodes.take(directory@.len() as int) == nodes);
    let sorted = sort_entries(entries);
    let text = render_tree(&sorted);
    let bytes = text.as_str().as_bytes_vec();
    hash_object(repo, &bytes, ObjectKind::Tree)
}

/// The text of the object `oid`, which must be of `kind` and hold UTF-8.
pub fn read_text(repo: &Repository, oid: String, kind: ObjectKind) -> (r: Result<String, Error>)
    ensures
        match r {
            Ok(text) => object_text(repo.objects@, oid@, kind) == Ok::<_, Error>(text@),
            Err(e) => object_text(repo.objects@, oid@, kind) == Err::<Seq<char>, _>(e),
        },
{
    match get_object(repo, oid, Some(kind)) {
        Err(e) => Err(e),
        Ok(found) => match string_from_utf8(found.1) {
            None => Err(Error::Malformed),
            Some(text) => Ok(text),
        },
    }
}

/// The entries of the tree `oid`, in the order in which the tree lists
/// them; none for the empty id.
pub fn tree_entries(repo: &Repository, oid: String) -> (r: Result<Vec<TreeEntry>, Error>)
    ensures
        match r {
            Ok(es) => stored_entries(repo.objects@, oid@) == Ok::<_, Error>(entry_views(es@)),
            Err(e) => stored_entries(repo.objects@, oid@) == Err::<Seq<EntryView>, _>(e),
        },
{
    if oid.as_str().is_empty() {
        let es: Vec<TreeEntry> = Vec::new();
        assert(entry_views(es@) =~= Seq::empty());
        return Ok(es);
    }
    let text = match read_text(repo, oid, ObjectKind::Tree) {
        Ok(text) => text,
        Err(e) => {
            return Err(e);
        },
    };
    match parse_tree_text(text.as_str()) {
        None => Err(Error::Malformed),
        Some(es) => Ok(es),
    }
}

/// Whether a tree may hold an entry of this name.
pub fn name_is_valid(name: &str) -> (r: bool)
    ensures
        r == valid_name(name@),
{
    let chars = chars_of(name);
    assert(chars@.skip(0) == chars@);
    let slash = find_from(&chars, 0, '/');
    proof {
        lemma_first_index(chars@, '/');
        reveal_strlit(".");
        reveal_strlit("..");
        assert("."@ =~= seq!['.']);
        assert(".."@ =~= seq!['.', '.']);
    }
    slash == chars.len() && !name.eq(".") && !name.eq("..")
}

fn flatten_rec(
    repo: &Repository,
    acc: &mut StrMap<String>,
    oid: String,
    base: &String,
    depth: usize,
) -> (r: Result<(), Error>)
    ensures
        match r {
            Ok(_) => flatten_into(repo.objects@, old(acc).table(), oid@, base@, depth as nat)
                == Ok::<_, Error>(final(acc).table()),
            Err(e) => flatten_into(repo.objects@, old(acc).table(), oid@, base@, depth as nat)
                == Err::<Table<Seq<char>>, _>(e),
        },
    decreases depth,
{
    let entries = match tree_entries(repo, oid) {
        Ok(entries) => entries,
        Err(e) => {
            return Err(e);
        },
    };
    let ghost es = entry_views(entries@);
    let ghost start = acc.table();
    let mut i: usize = 0;
    assert(es.take(0) =~= Seq::empty());
    while i < entries.len()
        invariant
            i <= entries.len(),
            es == entry_views(entries@),
            start == old(acc).table(),
            stored_entries(repo.objects@, oid@) == Ok::<_, Error>(es),
            flatten_entries(repo.objects@, start, es.take(i as int), base@, depth as nat) == Ok::<
                _,
                Error,
            >(acc.table()),
        decreases entries.len() - i,
    {
        let e = &entries[i];
        proof {
            assert(es.take(i + 1).drop_last() == es.take(i as int));
            assert(es.take(i + 1).last() == e@);
        }
        let ghost before = acc.table();
        let step: Result<(), Error> = if !name_is_valid(e.name.as_str()) {
            Err(Error::InvalidName)
        } else {
            let mut path = base.clone();
            path.append(e.name.as_str());
            if e.kind.as_str().eq(blob_kind().as_str()) {
                acc.insert(path, e.oid.clone());
                Ok(())
            } else if e.kind.as_str().eq(tree_kind().as_str()) {
                if depth == 0 {
                    Err(Error::Malformed)
                } else {
                    path.push('/');
                    assert(path@ =~= base@ + e@.0 + seq!['/']);
                    flatten_rec(repo, acc, e.oid.clone(), &path, depth - 1)
                }
            } else {
                Err(Error::Malformed)
            }
        };
        assert(match step {
            Ok(_) => flatten_entry(repo.objects@, before, e@, base@, depth as nat) == Ok::<
                _,
                Error,
            >(acc.table()),
            Err(err) => flatten_entry(repo.objects@, before, e@, base@, depth as nat) == Err::<
                Table<Seq<char>>,
                _,
            >(err),
        });
        match step {
            Ok(_) => {},
            Err(err) => {
                proof {
                    lemma_flatten_entries_fails(
                        repo.objects@,
                        start,
                        es,
                        i + 1,
                        base@,
                        depth as nat,
                    );
                }
                return Err(err);
            },
        }
        i += 1;
    }
    assert(es.take(entries@.len() as int) == es);
    Ok(())
}

/// The blobs of the tree `oid`, by their path below `base_path`, in the
/// order in which the trees list them. An entry's name must be valid, and a
/// tree must not hold itself.
pub fn get_tree(repo: &Repository, oid: String, base_path: String) -> (r: Result<
    StrMap<String>,
    Error,
>)
    ensures
        match r {
            Ok(tree) => flatten(repo.objects@, oid@, base_path@) == Ok::<_, Error>(tree.table()),
            Err(e) => flatten(repo.objects@, oid@, base_path@) == Err::<Table<Seq<char>>, _>(e),
        },
{
    let mut tree: StrMap<String> = StrMap::new();
    let depth = repo.objects.len();
    match flatten_rec(repo, &mut tree, oid, &base_path, depth) {
        Ok(_) => Ok(tree),
        Err(e) => Err(e),
    }
}

/// The files that the tree `oid` stands for, by path: what the working
/// directory holds once the tree is checked out.
pub fn read_tree(repo: &Repository, oid: String) -> (r: Result<StrMap<Vec<u8>>, Error>)
    ensures
        match r {
            Ok(files) => materialize(repo.objects@, oid@) == Ok::<_, Error>(files.table()),
            Err(e) => materialize(repo.objects@, oid@) == Err::<Table<Seq<u8>>, _>(e),
        },
{
    let tree = match get_tree(repo, oid, String::new()) {
        Ok(tree) => tree,
        Err(e) => {
            return Err(e);
        },
    };
    let mut files: StrMap<Vec<u8>> = StrMap::new();
    let n = tree.len();
    let mut i: usize = 0;
    assert(tree.keys().take(0) =~= Seq::empty());
    while i < n
        invariant
            i <= n == tree.keys().len(),
            flatten(repo.objects@, oid@, Seq::empty()) == Ok::<_, Error>(tree.table()),
            file_contents(repo.objects@, tree@, tree.keys().take(i as int)) == Ok::<_, Error>(
                files.table(),
            ),
        decreases n - i,
    {
        let path = tree.key_at(i);
        let blob = tree.value_at(i);
        proof {
            let paths = tree.keys();
            assert(paths.take(i + 1).drop_last() == paths.take(i as int));
            assert(paths.take(i + 1).last() == path@);
        }
        assert(tree@[path@] == blob@);
        match get_object(repo, blob.clone(), None) {
            Err(e) => {
                proof {
                    assert(file_contents(repo.objects@, tree@, tree.keys().take(i + 1)) == Err::<
                        Table<Seq<u8>>,
                        _,
                    >(e));
                    lemma_file_contents_fails(repo.objects@, tree@, tree.keys(), i + 1);
                }
                return Err(e);
            },
            Ok(found) => {
                files.insert(path.clone(), found.1);
            },
        }
        i += 1;
    }
    assert(tree.keys().take(n as int) == tree.keys());
    Ok(files)
}

fn snapshot_rec(acc: &mut StrMap<String>, directory: &Vec<Node>, base: &String)
    ensures
        final(acc).table() == snapshot_into(old(acc).table(), node_views(directory@), base@),
    decreases directory,
{
    let ghost nodes = node_views(directory@);
    let ghost start = acc.table();
    let mut i: usize = 0;
    assert(nodes.take(0) =~= Seq::empty());
    while i < directory.len()
        invariant
            i <= directory.len(),
            nodes == node_views(directory@),
            acc.table() == snapshot_into(start, nodes.take(i as int), base@),
        decreases directory.len() - i,
    {
        let node = &directory[i];
        proof {
            assert(nodes.take(i + 1).drop_last() == nodes.take(i as int));
            assert(nodes.take(i + 1).last() == node@);
        }
        if !is_ignored(node.name()) {
            match node {
                Node::File { name, content } => {
                    assert(node@ == NodeView::File { name: name@, content: content@ });
                    let mut path = base.clone();
                    path.append(name.as_str());
                    acc.insert(path, object_id_of(content, ObjectKind::Blob));
                },
                Node::Dir { name, children } => {
                    proof {
                        lemma_children_view(*name, *children);
                    }
                    assert(node@ == NodeView::Dir {
                        name: name@,
                        children: node_views(children@),
                    });
                    let mut path = base.clone();
                    path.append(name.as_str());
                    path.push('/');
                    assert(path@ =~= base@ + name@ + seq!['/']);
                    snapshot_rec(acc, children, &path);
                },
            }
        }
        i += 1;
    }
    assert(nodes.take(directory@.len() as int) == nodes);
}

/// The files of a working directory by their path, each with the id that
/// its content has as a blob. Nothing is stored.
pub fn get_working_tree(directory: &Vec<Node>) -> (tree: StrMap<String>)
    ensures
        tree.table() == snapshot(node_views(directory@)),
{
    let mut tree: StrMap<String> = StrMap::new();
    snapshot_rec(&mut tree, directory, &String::new());
    tree
}

/// The commit stored under `oid`.
pub open spec fn read_commit(objects: Objects, oid: Seq<char>) -> Result<CommitView, Error> {
    match object_text(objects, oid, ObjectKind::Commit) {
        Err(e) => Err(e),
        Ok(text) => match parse_commit(text) {
            None => Err(Error::Malformed),
            Some(c) => Ok(c),
        },
    }
}

/// The commit stored under `oid`.
pub fn get_commit(repo: &Repository, oid: String) -> (r: Result<Commit, Error>)
    ensures
        match r {
            Ok(c) => read_commit(repo.objects@, oid@) == Ok::<_, Error>(c@),
            Err(e) => read_commit(repo.objects@, oid@) == Err::<CommitView, _>(e),
        },
{
    let text = match read_text(repo, oid, ObjectKind::Commit) {
        Ok(text) => text,
        Err(e) => {
            return Err(e);
        },
    };
    match parse_commit_text(text.as_str()) {
        None => Err(Error::Malformed),
        Some(c) => Ok(c),
    }
}

/// The queue after a commit was visited: its first parent in front, its
/// second parent at the back.
pub open spec fn next_queue(rest: Seq<Seq<char>>, parents: Seq<Seq<char>>) -> Seq<Seq<char>> {
    let first = if parents.len() > 0 {
        seq![parents[0]] + rest
    } else {
        rest
    };
    if parents.len() > 1 {
        first.push(parents[1])
    } else {
        first
    }
}

/// The commits in the order in which the walk visits them: `seen`, then
/// what is reached from `queue`. An empty id and an id already seen are
/// passed over. No more than `budget` commits are visited; with a budget of
/// as many as there are objects, a commit beyond it is not stored.
pub open spec fn walk(objects: Objects, queue: Seq<Seq<char>>, seen: Seq<Seq<char>>, budget: nat) -> Result<
    Seq<Seq<char>>,
    Error,
>
    decreases budget, queue.len(),
{
    if queue.len() == 0 {
        Ok(seen)
    } else {
        let oid = queue[0];
        let rest = queue.drop_first();
        if oid.len() == 0 || seen.contains(oid) {
            walk(objects, rest, seen, budget)
        } else if budget == 0 {
            Err(Error::NotFound)
        } else {
            match read_commit(objects, oid) {
                Err(e) => Err(e),
                Ok(c) => walk(
                    objects,
                    next_queue(rest, c.parents),
                    seen.push(oid),
                    (budget - 1) as nat,
                ),
            }
        }
    }
}

/// The commits reached from `oids`, each once, in the order of the walk.
pub open spec fn ancestors(objects: Objects, oids: Seq<Seq<char>>) -> Result<Seq<Seq<char>>, Error> {
    walk(objects, oids, Seq::empty(), objects.dom().len())
}

/// The commits reached from `oids` through parents, each once: a commit,
/// then what its first parent reaches, and what second parents reach after
/// all that was queued before them.
pub fn iter_commits_and_parents(repo: &Repository, oids: VecDeque<String>) -> (r: Result<
    Vec<String>,
    Error,
>)
    ensures
        match r {
            Ok(seen) => ancestors(repo.objects@, string_views(oids@)) == Ok::<_, Error>(
                string_views(seen@),
            ),
            Err(e) => ancestors(repo.objects@, string_views(oids@)) == Err::<Seq<Seq<char>>, _>(e),
        },
{
    let ghost start = string_views(oids@);
    let mut queue = oids;
    let mut seen: Vec<String> = Vec::new();
    let mut budget: usize = repo.objects.len();
    assert(string_views(seen@) =~= Seq::empty());
    loop
        invariant
            start == string_views(oids@),
            ancestors(repo.objects@, start) == walk(
                repo.objects@,
                string_views(queue@),
                string_views(seen@),
                budget as nat,
            ),
        decreases budget, queue@.len(),
    {
        let ghost before = string_views(queue@);
        let oid = match queue.pop_front() {
            None => {
                return Ok(seen);
            },
            Some(oid) => oid,
        };
        assert(string_views(queue@) =~= before.drop_first());
        assert(before[0] == oid@);
        if oid.as_str().is_empty() || text_in(&seen, oid.as_str()) {
            continue ;
        }
        if budget == 0 {
            return Err(Error::NotFound);
        }
        let commit = match get_commit(repo, oid.clone()) {
            Ok(commit) => commit,
            Err(e) => {
                return Err(e);
            },
        };
        let ghost seen_before = string_views(seen@);
        let ghost rest = string_views(queue@);
        seen.push(oid);
        assert(string_views(seen@) =~= seen_before.push(before[0]));
        if commit.parents.len() > 0 {
            queue.push_front(commit.parents[0].clone());
        }
        if commit.parents.len() > 1 {
            queue.push_back(commit.parents[1].clone());
        }
        assert(string_views(queue@) =~= next_queue(rest, commit@.parents));
        budget -= 1;
    }
}

/// The first of `theirs` that is one of `ours`; empty where there is none.
pub open spec fn first_common(ours: Seq<Seq<char>>, theirs: Seq<Seq<char>>) -> Seq<char>
    decreases theirs.len(),
{
    if theirs.len() == 0 {
        Seq::empty()
    } else if ours.contains(theirs[0]) {
        theirs[0]
    } else {
        first_common(ours, theirs.drop_first())
    }
}

/// The first commit in the walk from `commit2` that the walk from `commit1`
/// reaches too; empty where the two share none.
pub open spec fn merge_base(objects: Objects, commit1: Seq<char>, commit2: Seq<char>) -> Result<
    Seq<char>,
    Error,
> {
    match ancestors(objects, seq![commit1]) {
        Err(e) => Err(e),
        Ok(ours) => match ancestors(objects, seq![commit2]) {
            Err(e) => Err(e),
            Ok(theirs) => Ok(first_common(ours, theirs)),
        },
    }
}

/// The nearest commit that `commit1` and `commit2` both descend from, or
/// are; empty where their histories share nothing.
pub fn get_merge_base(repo: &Repository, commit1: String, commit2: String) -> (r: Result<
    String,
    Error,
>)
    ensures
        match r {
            Ok(base) => merge_base(repo.objects@, commit1@, commit2@) == Ok::<_, Error>(base@),
            Err(e) => merge_base(repo.objects@, commit1@, commit2@) == Err::<Seq<char>, _>(e),
        },
{
    let mut first: VecDeque<String> = VecDeque::new();
    first.push_back(commit1);
    assert(string_views(first@) =~= seq![commit1@]);
    let ours = match iter_commits_and_parents(repo, first) {
        Ok(ours) => ours,
        Err(e) => {
            return Err(e);
        },
    };
    let mut second: VecDeque<String> = VecDeque::new();
    second.push_back(commit2);
    assert(string_views(second@) =~= seq![commit2@]);
    let theirs = match iter_commits_and_parents(repo, second) {
        Ok(theirs) => theirs,
        Err(e) => {
            return Err(e);
        },
    };
    let mut i: usize = 0;
    assert(string_views(theirs@).skip(0) =~= string_views(theirs@));
    while i < theirs.len()
        invariant
            i <= theirs.len(),
            ancestors(repo.objects@, seq![commit1@]) == Ok::<_, Error>(string_views(ours@)),
            ancestors(repo.objects@, seq![commit2@]) == Ok::<_, Error>(string_views(theirs@)),
            first_common(string_views(ours@), string_views(theirs@)) == first_common(
                string_views(ours@),
                string_views(theirs@).skip(i as int),
            ),
        decreases theirs.len() - i,
    {
        assert(string_views(theirs@).skip(i as int)[0] == theirs@[i as int]@);
        if text_in(&ours, theirs[i].as_str()) {
            return Ok(theirs[i].clone());
        }
        assert(string_views(theirs@).skip(i as int).drop_first() =~= string_views(theirs@).skip(
            i + 1,
        ));
        i += 1;
    }
    Ok(String::new())
}

/// The prefix of a branch's reference.
pub open spec fn heads_dir() -> Seq<char> {
    seq!['r', 'e', 'f', 's', '/', 'h', 'e', 'a', 'd', 's', '/']
}

/// The prefix of a tag's reference.
pub open spec fn tags_dir() -> Seq<char> {
    seq!['r', 'e', 'f', 's', '/', 't', 'a', 'g', 's', '/']
}

/// The value that reference `name` leads to, or `otherwise` where it leads
/// to none.
pub open spec fn value_or(refs: Refs, name: Seq<char>, otherwise: Result<Seq<char>, Error>) -> Result<
    Seq<char>,
    Error,
> {
    match ref_value(refs, name, true) {
        Err(e) => Err(e),
        Ok(value) => if value.value.len() > 0 {
            Ok(value.value)
        } else {
            otherwise
        },
    }
}

/// A name that is no reference: an object id if it is forty hexadecimal
/// digits.
pub open spec fn literal_id(name: Seq<char>) -> Result<Seq<char>, Error> {
    if is_id(name) {
        Ok(name)
    } else {
        Err(Error::UnknownRef)
    }
}

/// The object id that `name` stands for: `@` is `HEAD`; then the value of
/// the first of `name`, `refs/name`, `refs/tags/name`, `refs/heads/name`
/// that leads to one; else `name` itself where it is an object id.
pub open spec fn resolve_name(refs: Refs, name: Seq<char>) -> Result<Seq<char>, Error> {
    let name = if name == seq!['@'] {
        head()
    } else {
        name
    };
    value_or(
        refs,
        name,
        value_or(
            refs,
            refs_dir() + name,
            value_or(refs, tags_dir() + name, value_or(refs, heads_dir() + name, literal_id(name))),
        ),
    )
}

/// A name is never resolved to the empty id.
pub proof fn lemma_resolve_name_nonempty(refs: Refs, name: Seq<char>)
    ensures
        resolve_name(refs, name) matches Ok(oid) ==> oid.len() > 0,
{
}

/// `prefix` followed by `name`.
fn prefixed(prefix: &str, name: &str) -> (out: String)
    ensures
        out@ == prefix@ + name@,
{
    let mut out = prefix.to_owned();
    out.append(name);
    out
}

/// The value that `name` leads to, where it is not empty.
fn try_ref(repo: &Repository, name: String) -> (r: Result<Option<String>, Error>)
    ensures
        match r {
            Ok(Some(value)) => ref_value(repo.refs@, name@, true) matches Ok(v) && v.value
                == value@ && value@.len() > 0,
            Ok(None) => ref_value(repo.refs@, name@, true) matches Ok(v) && v.value.len() == 0,
            Err(e) => ref_value(repo.refs@, name@, true) == Err::<RefView, _>(e),
        },
{
    match get_ref(repo, name, true) {
        Err(e) => Err(e),
        Ok(found) => if found.value.as_str().is_empty() {
            Ok(None)
        } else {
            Ok(Some(found.value))
        },
    }
}

/// Whether `name` is forty hexadecimal digits.
fn is_object_id(name: &str) -> (r: bool)
    ensures
        r == is_id(name@),
{
    let chars = chars_of(name);
    if chars.len() != 40 {
        return false;
    }
    let mut i: usize = 0;
    while i < chars.len()
        invariant
            i <= chars.len(),
            chars@ == name@,
            forall|j: int| 0 <= j < i ==> crate::hex::is_hex_digit(#[trigger] chars@[j]),
        decreases chars.len() - i,
    {
        if !is_hex_char(chars[i]) {
            assert(!crate::hex::is_hex_digit(name@[i as int]));
            return false;
        }
        i += 1;
    }
    true
}

/// The object id that `name` stands for. Fails with `UnknownRef` where
/// `name` is neither a reference with a value, in any of its forms, nor an
/// object id.
pub fn get_oid(repo: &Repository, name: String) -> (r: Result<String, Error>)
    ensures
        match r {
            Ok(oid) => resolve_name(repo.refs@, name@) == Ok::<_, Error>(oid@),
            Err(e) => resolve_name(repo.refs@, name@) == Err::<Seq<char>, _>(e),
        },
{
    proof {
        reveal_strlit("@");
        reveal_strlit("refs/");
        reveal_strlit("refs/tags/");
        reveal_strlit("refs/heads/");
        assert("@"@ =~= seq!['@']);
        assert("refs/"@ =~= refs_dir());
        assert("refs/tags/"@ =~= tags_dir());
        assert("refs/heads/"@ =~= heads_dir());
    }
    let name = if name.as_str().eq("@") {
        head_name()
    } else {
        name
    };
    match try_ref(repo, name.clone()) {
        Err(e) => {
            return Err(e);
        },
        Ok(Some(value)) => {
            return Ok(value);
        },
        Ok(None) => {},
    }
    match try_ref(repo, prefixed("refs/", name.as_str())) {
        Err(e) => {
            return Err(e);
        },
        Ok(Some(value)) => {
            return Ok(value);
        },
        Ok(None) => {},
    }
    match try_ref(repo, prefixed("refs/tags/", name.as_str())) {
        Err(e) => {
            return Err(e);
        },
        Ok(Some(value)) => {
            return Ok(value);
        },
        Ok(None) => {},
    }
    match try_ref(repo, prefixed("refs/heads/", name.as_str())) {
        Err(e) => {
            return Err(e);
        },
        Ok(Some(value)) => {
            return Ok(value);
        },
        Ok(None) => {},
    }
    if is_object_id(name.as_str()) {
        Ok(name)
    } else {
        Err(Error::UnknownRef)
    }
}

/// The reference of branch `name`.
pub fn branch_ref(name: &str) -> (out: String)
    ensures
        out@ == heads_dir() + name@,
{
    proof {
        reveal_strlit("refs/heads/");
        assert("refs/heads/"@ =~= heads_dir());
    }
    prefixed("refs/heads/", name)
}

/// Whether a branch `name` leads to a commit.
pub fn is_branch(repo: &Repository, name: String) -> (r: Result<bool, Error>)
    ensures
        match ref_value(repo.refs@, heads_dir() + name@, true) {
            Ok(value) => r == Ok::<_, Error>(value.value.len() > 0),
            Err(e) => r == Err::<bool, _>(e),
        },
{
    match get_ref(repo, branch_ref(name.as_str()), true) {
        Err(e) => Err(e),
        Ok(value) => Ok(!value.value.as_str().is_empty()),
    }
}

/// Makes the tag `name` name `oid`, whether or not the tag exists.
pub fn create_tag(repo: &mut Repository, name: String, oid: String) -> (r: Result<(), Error>)
    ensures
        final(repo).objects == old(repo).objects,
        match updated(
            old(repo).refs.table(),
            tags_dir() + name@,
            RefView { value: oid@, symbolic: false },
            true,
        ) {
            Ok(refs) => r is Ok && final(repo).refs.table() == refs,
            Err(e) => r == Err::<(), _>(e) && final(repo).refs == old(repo).refs,
        },
{
    proof {
        reveal_strlit("refs/tags/");
        assert("refs/tags/"@ =~= tags_dir());
    }
    update_ref(
        repo,
        prefixed("refs/tags/", name.as_str()),
        RefValue { value: oid, symbolic: false },
        true,
    )
}

/// Makes the branch `name` point at `oid`, whether or not the branch
/// exists.
pub fn create_branch(repo: &mut Repository, name: String, oid: String) -> (r: Result<(), Error>)
    ensures
        final(repo).objects == old(repo).objects,
        match updated(
            old(repo).refs.table(),
            heads_dir() + name@,
            RefView { value: oid@, symbolic: false },
            true,
        ) {
            Ok(refs) => r is Ok && final(repo).refs.table() == refs,
            Err(e) => r == Err::<(), _>(e) && final(repo).refs == old(repo).refs,
        },
{
    update_ref(repo, branch_ref(name.as_str()), RefValue { value: oid, symbolic: false }, true)
}

/// Points `HEAD` itself at `oid`, whatever branch it named before. Fails
/// with `EmptyValue` for the empty id.
pub fn reset(repo: &mut Repository, oid: String) -> (r: Result<(), Error>)
    ensures
        final(repo).objects == old(repo).objects,
        if oid@.len() == 0 {
            r == Err::<(), _>(Error::EmptyValue) && final(repo).refs == old(repo).refs
        } else {
            r is Ok && final(repo).refs.table() == old(repo).refs.table().insert(head(), oid@)
        },
{
    update_ref(repo, head_name(), RefValue { value: oid, symbolic: false }, false)
}

/// The name of the first branch.
pub open spec fn first_branch() -> Seq<char> {
    seq!['m', 'a', 's', 't', 'e', 'r']
}

/// Creates a repository: no objects, and `HEAD` naming the branch `master`,
/// which does not exist yet. Fails with `AlreadyExists` where the storage
/// root is already there.
pub fn init(root_exists: bool) -> (r: Result<Repository, Error>)
    ensures
        root_exists ==> r == Err::<Repository, _>(Error::AlreadyExists),
        !root_exists ==> r is Ok && r->Ok_0.objects@ == Objects::empty()
            && r->Ok_0.refs.table() == Table::<Seq<char>>::empty().insert(
            head(),
            marker() + (heads_dir() + first_branch()),
        ),
{
    let mut repo = match crate::data::init(root_exists) {
        Ok(repo) => repo,
        Err(e) => {
            return Err(e);
        },
    };
    proof {
        reveal_strlit("master");
        assert("master"@ =~= first_branch());
    }
    let branch = branch_ref("master");
    match update_ref(&mut repo, head_name(), RefValue { value: branch, symbolic: true }, true) {
        Ok(_) => Ok(repo),
        Err(e) => Err(e),
    }
}

/// The branch that `HEAD` names: empty where `HEAD` holds an object id.
/// A symbolic `HEAD` that names no branch is malformed.
pub open spec fn current_branch(refs: Refs) -> Result<Seq<char>, Error> {
    let value = read_ref(refs, head());
    if !value.symbolic {
        Ok(Seq::empty())
    } else if has_prefix(value.value, heads_dir()) {
        Ok(value.value.skip(11))
    } else {
        Err(Error::Malformed)
    }
}

/// The name of the branch that is checked out; empty where none is.
pub fn get_branch_name(repo: &Repository) -> (r: Result<String, Error>)
    ensures
        match r {
            Ok(name) => current_branch(repo.refs@) == Ok::<_, Error>(name@),
            Err(e) => current_branch(repo.refs@) == Err::<Seq<char>, _>(e),
        },
{
    let value = peek_ref(repo, head_name().as_str());
    if !value.symbolic {
        return Ok(String::new());
    }
    let chars = chars_of(value.value.as_str());
    let dir = chars_of("refs/heads/");
    proof {
        reveal_strlit("refs/heads/");
        assert(dir@ =~= heads_dir());
        assert(chars@.skip(0) == chars@);
    }
    if !starts_with_at(&chars, 0, &dir) {
        return Err(Error::Malformed);
    }
    assert(chars@.subrange(11, chars@.len() as int) == chars@.skip(11));
    Ok(string_of(&chars, 11, chars.len()))
}

/// The names of a listing of branches, without the prefix of their
/// references.
pub open spec fn branch_names(listed: Seq<(Seq<char>, RefView)>) -> Seq<Seq<char>> {
    Seq::new(listed.len(), |i: int| listed[i].0.skip(11))
}

/// The names of the branches that lead to a commit, in the order in which
/// their references were first stored.
pub fn iter_branch_names(repo: &Repository) -> (r: Result<Vec<String>, Error>)
    ensures
        match list_refs(repo.refs@, repo.refs.keys(), heads_dir(), true) {
            Ok(listed) => r matches Ok(names) && string_views(names@) == branch_names(listed),
            Err(e) => r == Err::<Vec<String>, _>(e),
        },
{
    proof {
        reveal_strlit("refs/heads/");
        assert("refs/heads/"@ =~= heads_dir());
    }
    let listed = match iter_refs(repo, "refs/heads/", true) {
        Ok(listed) => listed,
        Err(e) => {
            return Err(e);
        },
    };
    proof {
        let all = list_refs(repo.refs@, repo.refs.keys(), heads_dir(), true);
        assert(all == Ok::<_, Error>(listing(listed@)));
        lemma_listed_have_prefix(repo.refs@, repo.refs.keys(), heads_dir(), true);
        assert forall|j: int| 0 <= j < listing(listed@).len() implies has_prefix(
            (#[trigger] listing(listed@)[j]).0,
            heads_dir(),
        ) by {
            assert(all->Ok_0[j] == listing(listed@)[j]);
        }
    }
    let mut names: Vec<String> = Vec::new();
    let mut i: usize = 0;
    while i < listed.len()
        invariant
            i <= listed.len(),
            names@.len() == i,
            forall|j: int| 0 <= j < listing(listed@).len() ==> has_prefix(
                (#[trigger] listing(listed@)[j]).0,
                heads_dir(),
            ),
            forall|j: int| 0 <= j < i ==> (#[trigger] names@[j])@ == listing(listed@)[j].0.skip(11),
        decreases listed.len() - i,
    {
        let chars = chars_of(listed[i].0.as_str());
        assert(listing(listed@)[i as int].0 == chars@);
        assert(chars@.subrange(11, chars@.len() as int) == chars@.skip(11));
        names.push(string_of(&chars, 11, chars.len()));
        i += 1;
    }
    assert(string_views(names@) =~= branch_names(listing(listed@)));
    Ok(names)
}

/// Every name of a listing begins with the prefix that was asked for.
pub proof fn lemma_listed_have_prefix(refs: Refs, keys: Seq<Seq<char>>, prefix: Seq<char>, deref: bool)
    requires
        list_refs(refs, keys, prefix, deref) is Ok,
    ensures
        forall|j: int|
            0 <= j < list_refs(refs, keys, prefix, deref)->Ok_0.len() ==> has_prefix(
                (#[trigger] list_refs(refs, keys, prefix, deref)->Ok_0[j]).0,
                prefix,
            ),
    decreases keys.len(),
{
    if keys.len() > 0 {
        lemma_listed_have_prefix(refs, keys.drop_last(), prefix, deref);
    }
}

/// The parents of the next commit: what `HEAD` leads to, if anything, then
/// what `MERGE_HEAD` leads to, if anything.
pub open spec fn commit_parents(refs: Refs) -> Result<Seq<Seq<char>>, Error> {
    match ref_value(refs, head(), true) {
        Err(e) => Err(e),
        Ok(ours) => match ref_value(refs, merge_head(), true) {
            Err(e) => Err(e),
            Ok(theirs) => Ok(
                (if ours.value.len() > 0 {
                    seq![ours.value]
                } else {
                    Seq::empty()
                }) + (if theirs.value.len() > 0 {
                    seq![theirs.value]
                } else {
                    Seq::empty()
                }),
            ),
        },
    }
}

/// The commit that records the directory `nodes`.
pub open spec fn new_commit(nodes: Seq<NodeView>, parents: Seq<Seq<char>>, message: Seq<char>) -> CommitView {
    CommitView { tree: tree_id(nodes), parents, message }
}

/// The content of the object of a commit.
pub open spec fn commit_content(c: CommitView) -> Seq<u8> {
    encode_utf8(commit_text(c))
}

/// The references after a commit `oid` was made: `MERGE_HEAD` is gone where
/// it led to a commit, and what `HEAD` led to holds `oid`.
pub open spec fn commit_refs(refs: Table<Seq<char>>, oid: Seq<char>) -> Table<Seq<char>> {
    let target = match lookup(refs.map, head(), true) {
        Ok(found) => found.0,
        Err(_) => head(),
    };
    let merging = match ref_value(refs.map, merge_head(), true) {
        Ok(theirs) => theirs.value.len() > 0,
        Err(_) => false,
    };
    if merging {
        refs.remove(merge_head()).insert(target, oid)
    } else {
        refs.insert(target, oid)
    }
}

/// Records the working directory as a commit on top of what `HEAD` leads
/// to, and makes the branch that `HEAD` names, or `HEAD` itself, point at
/// it. A merge in progress gives the commit its second parent and is over
/// with it. Fails, with nothing changed, where `HEAD` or `MERGE_HEAD` cannot
/// be resolved.
pub fn commit(repo: &mut Repository, directory: &Vec<Node>, message: &str) -> (r: Result<
    String,
    Error,
>)
    ensures
        match commit_parents(old(repo).refs@) {
            Err(e) => r == Err::<String, _>(e) && final(repo).objects == old(repo).objects
                && final(repo).refs == old(repo).refs,
            Ok(parents) => {
                let c = new_commit(node_views(directory@), parents, message@);
                &&& r matches Ok(oid) && oid@ == object_id(ObjectKind::Commit, commit_content(c))
                    && is_id(oid@)
                &&& final(repo).objects@ == put_object(
                    store_dir(old(repo).objects@, node_views(directory@)),
                    ObjectKind::Commit,
                    commit_content(c),
                )
                &&& final(repo).refs.table() == commit_refs(
                    old(repo).refs.table(),
                    object_id(ObjectKind::Commit, commit_content(c)),
                )
            },
        },
{
    let target = match get_ref_internal(repo, head_name(), true) {
        Ok(found) => found,
        Err(e) => {
            return Err(e);
        },
    };
    let theirs = match get_ref(repo, merge_head_name(), true) {
        Ok(theirs) => theirs,
        Err(e) => {
            return Err(e);
        },
    };
    let mut parents: Vec<String> = Vec::new();
    if !target.1.value.as_str().is_empty() {
        parents.push(target.1.value);
    }
    let merging = !theirs.value.as_str().is_empty();
    if merging {
        parents.push(theirs.value);
    }
    assert(commit_parents(repo.refs@) == Ok::<_, Error>(string_views(parents@))) by {
        assert(string_views(parents@) =~= commit_parents(repo.refs@)->Ok_0);
    }
    let tree = write_tree(repo, directory);
    let c = Commit { tree, parents, message: message.to_owned() };
    let text = render_commit(&c);
    let oid = hash_object(repo, &text.as_str().as_bytes_vec(), ObjectKind::Commit);
    if merging {
        repo.refs.remove(merge_head_name().as_str());
    }
    repo.refs.insert(target.0, oid.clone());
    Ok(oid)
}

/// What checking out `name` gives: the files of its commit's tree, and the
/// value of `HEAD` after it: the branch `name` where that leads to a commit,
/// else the commit itself.
pub open spec fn checked_out(objects: Objects, refs: Refs, name: Seq<char>) -> Result<
    (Table<Seq<u8>>, RefView),
    Error,
> {
    match resolve_name(refs, name) {
        Err(e) => Err(e),
        Ok(oid) => match read_commit(objects, oid) {
            Err(e) => Err(e),
            Ok(c) => match materialize(objects, c.tree) {
                Err(e) => Err(e),
                Ok(files) => match ref_value(refs, heads_dir() + name, true) {
                    Err(e) => Err(e),
                    Ok(branch) => Ok(
                        (
                            files,
                            if branch.value.len() > 0 {
                                RefView { value: heads_dir() + name, symbolic: true }
                            } else {
                                RefView { value: oid, symbolic: false }
                            },
                        ),
                    ),
                },
            },
        },
    }
}

/// Checks out the commit that `name` stands for: returns the files that the
/// working directory is to hold, and sets `HEAD` to the branch `name`, or to
/// the commit where `name` is no branch. On failure nothing changes.
pub fn checkout(repo: &mut Repository, name: String) -> (r: Result<StrMap<Vec<u8>>, Error>)
    ensures
        final(repo).objects == old(repo).objects,
        match checked_out(old(repo).objects@, old(repo).refs@, name@) {
            Err(e) => r == Err::<StrMap<Vec<u8>>, _>(e) && final(repo).refs == old(repo).refs,
            Ok(plan) => {
                &&& r matches Ok(files) && files.table() == plan.0
                &&& final(repo).refs.table() == old(repo).refs.table().insert(
                    head(),
                    ref_text(plan.1),
                )
            },
        },
{
    let oid = match get_oid(repo, name.clone()) {
        Ok(oid) => oid,
        Err(e) => {
            return Err(e);
        },
    };
    let commit = match get_commit(repo, oid.clone()) {
        Ok(commit) => commit,
        Err(e) => {
            return Err(e);
        },
    };
    let files = match read_tree(repo, commit.tree) {
        Ok(files) => files,
        Err(e) => {
            return Err(e);
        },
    };
    let on_branch = match is_branch(repo, name.clone()) {
        Ok(on_branch) => on_branch,
        Err(e) => {
            return Err(e);
        },
    };
    let value = if on_branch {
        RefValue { value: branch_ref(name.as_str()), symbolic: true }
    } else {
        RefValue { value: oid, symbolic: false }
    };
    proof {
        lemma_resolve_name_nonempty(repo.refs@, name@);
    }
    match update_ref(repo, head_name(), value, false) {
        Ok(_) => Ok(files),
        Err(e) => Err(e),
    }
}

/// The rows of the three trees of a merge, side by side: base, ours,
/// theirs.
pub open spec fn merge_rows(
    objects: Objects,
    base_tree: Seq<char>,
    head_tree: Seq<char>,
    other_tree: Seq<char>,
) -> Result<Seq<Row>, Error> {
    match flatten(objects, base_tree, Seq::empty()) {
        Err(e) => Err(e),
        Ok(base) => match flatten(objects, head_tree, Seq::empty()) {
            Err(e) => Err(e),
            Ok(ours) => match flatten(objects, other_tree, Seq::empty()) {
                Err(e) => Err(e),
                Ok(theirs) => Ok(compared(seq![base, ours, theirs])),
            },
        },
    }
}

/// The files of the three-way merge of three trees: what the working
/// directory is to hold after the merge.
pub fn read_tree_merged<F: Fn(&Vec<u8>, &Vec<u8>, &Vec<u8>) -> Vec<u8>>(
    repo: &Repository,
    base_tree: String,
    head_tree: String,
    commit_tree: String,
    merge3: &F,
) -> (r: Result<StrMap<Vec<u8>>, Error>)
    requires
        forall|base: &Vec<u8>, ours: &Vec<u8>, theirs: &Vec<u8>| #[trigger] merge3.requires((base, ours, theirs)),
    ensures
        match merge_rows(repo.objects@, base_tree@, head_tree@, commit_tree@) {
            Err(e) => r == Err::<StrMap<Vec<u8>>, _>(e),
            Ok(rows) => match merge_inputs(repo.objects@, rows) {
                Err(e) => r == Err::<StrMap<Vec<u8>>, _>(e),
                Ok(_) => r matches Ok(files) && merge_output(
                    repo.objects@,
                    rows,
                    *merge3,
                    files.table(),
                ),
            },
        },
{
    let base = match get_tree(repo, base_tree, String::new()) {
        Ok(tree) => tree,
        Err(e) => {
            return Err(e);
        },
    };
    let ours = match get_tree(repo, head_tree, String::new()) {
        Ok(tree) => tree,
        Err(e) => {
            return Err(e);
        },
    };
    let theirs = match get_tree(repo, commit_tree, String::new()) {
        Ok(tree) => tree,
        Err(e) => {
            return Err(e);
        },
    };
    merge_trees(repo, base, ours, theirs, merge3)
}

/// How a merge ended.
#[derive(Debug, Clone, Copy, PartialEq, Eq, Structural)]
pub enum MergeOutcome {
    /// `HEAD` was an ancestor of the other commit and now leads to it; no
    /// commit was made and none is needed.
    FastForward,
    /// The working directory holds the merge of both sides, and
    /// `MERGE_HEAD` names the other commit until the next commit is made.
    MergedPendingCommit,
}

/// What a merge returns: how it ended, and the files that the working
/// directory is to hold.
#[derive(Debug)]
pub struct Merged {
    pub outcome: MergeOutcome,
    pub files: StrMap<Vec<u8>>,
}

/// What a merge is to do.
pub enum MergePlan {
    /// Check out the other commit: these are its files.
    FastForward { files: Table<Seq<u8>> },
    /// Merge these rows of base, ours and theirs.
    ThreeWay { rows: Seq<Row> },
}

/// What merging the commit `oid` into what `HEAD` leads to is to do. `HEAD`
/// must lead to a commit. Where the merge base of the two is that commit,
/// the merge is a fast-forward; else the trees of the base, of ours and of
/// theirs are merged, and every blob in them must be readable.
pub open spec fn merge_plan(objects: Objects, refs: Refs, oid: Seq<char>) -> Result<MergePlan, Error> {
    match ref_value(refs, head(), true) {
        Err(e) => Err(e),
        Ok(ours) => if ours.value.len() == 0 {
            Err(Error::Unresolvable)
        } else {
            match merge_base(objects, oid, ours.value) {
                Err(e) => Err(e),
                Ok(base) => match read_commit(objects, oid) {
                    Err(e) => Err(e),
                    Ok(theirs) => if base == ours.value {
                        match materialize(objects, theirs.tree) {
                            Err(e) => Err(e),
                            Ok(files) => Ok(MergePlan::FastForward { files }),
                        }
                    } else {
                        match read_commit(objects, base) {
                            Err(e) => Err(e),
                            Ok(common) => match read_commit(objects, ours.value) {
                                Err(e) => Err(e),
                                Ok(mine) => match merge_rows(
                                    objects,
                                    common.tree,
                                    mine.tree,
                                    theirs.tree,
                                ) {
                                    Err(e) => Err(e),
                                    Ok(rows) => match merge_inputs(objects, rows) {
                                        Err(e) => Err(e),
                                        Ok(_) => Ok(MergePlan::ThreeWay { rows }),
                                    },
                                },
                            },
                        }
                    },
                },
            }
        },
    }
}

/// Merges the commit `oid` into what `HEAD` leads to.
///
/// Where `HEAD`'s commit is an ancestor of `oid`, the merge is a
/// fast-forward: the files are those of `oid`, and what `HEAD` leads to is
/// set to `oid`. Else the files are the three-way merge, by `merge3`, of
/// the trees of the merge base, of `HEAD`'s commit and of `oid`, and
/// `MERGE_HEAD` is set to `oid`, for the next commit to record. No object
/// is stored either way, and on failure nothing changes.
pub fn merge<F: Fn(&Vec<u8>, &Vec<u8>, &Vec<u8>) -> Vec<u8>>(
    repo: &mut Repository,
    oid: String,
    merge3: &F,
) -> (r: Result<Merged, Error>)
    requires
        forall|base: &Vec<u8>, ours: &Vec<u8>, theirs: &Vec<u8>| #[trigger] merge3.requires((base, ours, theirs)),
    ensures
        final(repo).objects == old(repo).objects,
        r is Err ==> final(repo).refs == old(repo).refs,
        match merge_plan(old(repo).objects@, old(repo).refs@, oid@) {
            Err(e) => r == Err::<Merged, _>(e),
            Ok(MergePlan::FastForward { files }) => match updated(
                old(repo).refs.table(),
                head(),
                RefView { value: oid@, symbolic: false },
                true,
            ) {
                Err(e) => r == Err::<Merged, _>(e),
                Ok(refs) => {
                    &&& r matches Ok(done) && done.outcome == MergeOutcome::FastForward
                        && done.files.table() == files
                    &&& final(repo).refs.table() == refs
                },
            },
            Ok(MergePlan::ThreeWay { rows }) => match updated(
                old(repo).refs.table(),
                merge_head(),
                RefView { value: oid@, symbolic: false },
                true,
            ) {
                Err(e) => r == Err::<Merged, _>(e),
                Ok(refs) => {
                    &&& r matches Ok(done) && done.outcome == MergeOutcome::MergedPendingCommit
                        && merge_output(old(repo).objects@, rows, *merge3, done.files.table())
                    &&& final(repo).refs.table() == refs
                },
            },
        },
{
    let ours = match get_ref(repo, head_name(), true) {
        Ok(ours) => ours,
        Err(e) => {
            return Err(e);
        },
    };
    if ours.value.as_str().is_empty() {
        return Err(Error::Unresolvable);
    }
    let base = match get_merge_base(repo, oid.clone(), ours.value.clone()) {
        Ok(base) => base,
        Err(e) => {
            return Err(e);
        },
    };
    let theirs = match get_commit(repo, oid.clone()) {
        Ok(theirs) => theirs,
        Err(e) => {
            return Err(e);
        },
    };
    if base.as_str().eq(ours.value.as_str()) {
        let files = match read_tree(repo, theirs.tree) {
            Ok(files) => files,
            Err(e) => {
                return Err(e);
            },
        };
        match update_ref(repo, head_name(), RefValue { value: oid, symbolic: false }, true) {
            Ok(_) => Ok(Merged { outcome: MergeOutcome::FastForward, files }),
            Err(e) => Err(e),
        }
    } else {
        let common = match get_commit(repo, base) {
            Ok(common) => common,
            Err(e) => {
                return Err(e);
            },
        };
        let mine = match get_commit(repo, ours.value) {
            Ok(mine) => mine,
            Err(e) => {
                return Err(e);
            },
        };
        let files = match read_tree_merged(repo, common.tree, mine.tree, theirs.tree, merge3) {
            Ok(files) => files,
            Err(e) => {
                return Err(e);
            },
        };
        match update_ref(repo, merge_head_name(), RefValue { value: oid, symbolic: false }, true) {
            Ok(_) => Ok(Merged { outcome: MergeOutcome::MergedPendingCommit, files }),
            Err(e) => Err(e),
        }
    }
}

} // verus!
