//! A directory that was written reads back as it was: the proof, from the
//! text of a tree up to the files of a checkout.

use crate::base::{
    file_contents, flatten, flatten_entries, flatten_entry, flatten_into, materialize,
    stored_entries, valid_name,
};
use crate::data::read_object;
use crate::laws::lemma_frame_injective;
use crate::strmap::keys_with;
use crate::strmap::Table;
use crate::text::has_prefix;
use crate::data::{frame, lemma_unframe_frame, object_id, put_object, ObjectKind, Objects};
use crate::error::Error;
use crate::hex::lemma_hex_lower;
use crate::order::{lemma_triple_order_total, sorted_triples, triple_order};
use crate::outside::sha1_digest;
use crate::commits::{
    commit_text, leading_parents, parent_header, parent_lines, parse_commit, tree_header,
    CommitView,
};
use crate::text::{
    first_index, join, lemma_first_index, lemma_first_index_is, lemma_split_nonempty, lines, split,
};
use crate::tree::{
    blob_word, parse_entries, parse_entry, parse_tree, tree_text, tree_word, EntryView,
};
use crate::worktree::{
    dir_entries, ignored, lemma_ignored_name, node_entry, root_name, store_dir, store_node,
    store_nodes, tree_content, tree_id, NodeView,
};
use vstd::prelude::*;
use vstd::utf8::{encode_utf8_decode_utf8, encode_utf8_valid_utf8};

verus! {

/// Text without the separator, added at the end, extends the last piece.
pub proof fn lemma_split_extend(s: Seq<char>, u: Seq<char>, sep: char)
    requires
        !u.contains(sep),
    ensures
        split(s + u, sep) == split(s, sep).drop_last().push(split(s, sep).last() + u),
    decreases s.len(),
{
    lemma_first_index(s, sep);
    lemma_split_nonempty(s, sep);
    let i = first_index(s, sep);
    let t = s + u;
    if i < s.len() {
        assert(t[i] == sep);
        assert forall|j: int| 0 <= j < i implies t[j] != sep by {
            assert(t[j] == s[j]);
        }
        lemma_first_index_is(t, sep, i);
        assert(t.take(i) =~= s.take(i));
        assert(t.skip(i + 1) =~= s.skip(i + 1) + u);
        lemma_split_extend(s.skip(i + 1), u, sep);
        lemma_split_nonempty(s.skip(i + 1), sep);
        let rest = split(s.skip(i + 1), sep);
        assert(split(s, sep) == seq![s.take(i)] + rest);
        assert(split(t, sep) == seq![s.take(i)] + rest.drop_last().push(rest.last() + u));
        assert((seq![s.take(i)] + rest).drop_last() =~= seq![s.take(i)] + rest.drop_last());
        assert((seq![s.take(i)] + rest).last() == rest.last());
        assert(seq![s.take(i)] + rest.drop_last().push(rest.last() + u) =~= (seq![s.take(i)]
            + rest.drop_last()).push(rest.last() + u));
    } else {
        assert forall|j: int| 0 <= j < t.len() implies t[j] != sep by {
            if j < s.len() {
                assert(t[j] == s[j]);
            } else {
                assert(t[j] == u[j - s.len()]);
            }
        }
        lemma_first_index_is(t, sep, t.len() as int);
        assert(split(s, sep) == seq![s]);
        assert(split(t, sep) == seq![t]);
        assert(seq![s].drop_last().push(seq![s].last() + u) =~= seq![t]);
    }
}

/// A separator added at the end adds an empty piece.
pub proof fn lemma_split_separator(s: Seq<char>, sep: char)
    ensures
        split(s + seq![sep], sep) == split(s, sep).push(Seq::empty()),
    decreases s.len(),
{
    lemma_first_index(s, sep);
    let i = first_index(s, sep);
    let t = s + seq![sep];
    assert(t[i] == sep);
    assert forall|j: int| 0 <= j < i implies t[j] != sep by {
        assert(t[j] == s[j]);
    }
    lemma_first_index_is(t, sep, i);
    assert(t.take(i) =~= s.take(i));
    if i < s.len() {
        assert(t.skip(i + 1) =~= s.skip(i + 1) + seq![sep]);
        lemma_split_separator(s.skip(i + 1), sep);
        let rest = split(s.skip(i + 1), sep);
        assert(seq![s.take(i)] + rest.push(Seq::empty()) =~= (seq![s.take(i)] + rest).push(
            Seq::empty(),
        ));
    } else {
        assert(s.take(i) =~= s);
        assert(t.skip(i + 1) =~= Seq::<char>::empty());
        assert(split(Seq::<char>::empty(), sep) == seq![Seq::<char>::empty()]);
        assert(split(s, sep) == seq![s]);
        assert(seq![s] + seq![Seq::<char>::empty()] =~= seq![s].push(Seq::empty()));
    }
}

/// What the line of an entry holds before its line feed.
pub open spec fn entry_body(e: EntryView) -> Seq<char> {
    e.2 + seq![' '] + e.1 + seq![' '] + e.0
}

/// Whether the line of an entry reads back as the entry: kind and id
/// without a blank, and no line feed anywhere.
pub open spec fn clean_entry(e: EntryView) -> bool {
    &&& !e.2.contains(' ')
    &&& !e.2.contains('\n')
    &&& !e.1.contains(' ')
    &&& !e.1.contains('\n')
    &&& !e.0.contains('\n')
}

/// Whether each of the entries is clean.
pub open spec fn clean_entries(es: Seq<EntryView>) -> bool {
    forall|i: int| 0 <= i < es.len() ==> clean_entry(#[trigger] es[i])
}

/// The bodies of the lines of a tree.
pub open spec fn entry_bodies(es: Seq<EntryView>) -> Seq<Seq<char>> {
    Seq::new(es.len(), |i: int| entry_body(es[i]))
}

proof fn lemma_body_has_no_line_feed(e: EntryView)
    requires
        clean_entry(e),
    ensures
        !entry_body(e).contains('\n'),
{
    let body = entry_body(e);
    if body.contains('\n') {
        let j = choose|j: int| 0 <= j < body.len() && body[j] == '\n';
        let a = e.2.len() as int;
        let b = a + 1 + e.1.len();
        if j < a {
            assert(body[j] == e.2[j]);
        } else if j == a {
        } else if j < b {
            assert(body[j] == e.1[j - a - 1]);
        } else if j == b {
        } else {
            assert(body[j] == e.0[j - b - 1]);
        }
    }
}

/// The pieces of a tree's text are the bodies of its lines, and an empty
/// piece after the last line feed.
pub proof fn lemma_tree_text_pieces(es: Seq<EntryView>)
    requires
        clean_entries(es),
    ensures
        split(tree_text(es), '\n') == entry_bodies(es).push(Seq::empty()),
        lines(tree_text(es)) == entry_bodies(es),
    decreases es.len(),
{
    if es.len() == 0 {
        assert(tree_text(es) =~= Seq::<char>::empty());
        assert(split(Seq::<char>::empty(), '\n') == seq![Seq::<char>::empty()]);
        assert(entry_bodies(es).push(Seq::empty()) =~= seq![Seq::<char>::empty()]);
    } else {
        let before = es.drop_last();
        let e = es.last();
        assert(clean_entries(before)) by {
            assert forall|i: int| 0 <= i < before.len() implies clean_entry(
                #[trigger] before[i],
            ) by {
                assert(before[i] == es[i]);
            }
        }
        lemma_tree_text_pieces(before);
        lemma_body_has_no_line_feed(e);
        let t = tree_text(before);
        let body = entry_body(e);
        lemma_split_extend(t, body, '\n');
        lemma_split_separator(t + body, '\n');
        assert(tree_text(es) =~= t + body + seq!['\n']);
        let pieces = split(t, '\n');
        assert(pieces.drop_last() =~= entry_bodies(before));
        assert(pieces.last() + body =~= body);
        assert(entry_bodies(before).push(body) =~= entry_bodies(es));
    }
    assert(entry_bodies(es).push(Seq::<char>::empty()).drop_last() =~= entry_bodies(es));
}

/// The body of a clean entry is parsed as the entry.
pub proof fn lemma_parse_entry_body(e: EntryView)
    requires
        clean_entry(e),
    ensures
        parse_entry(entry_body(e)) == Some(e),
{
    let body = entry_body(e);
    let a = e.2.len() as int;
    assert(body[a] == ' ');
    assert forall|j: int| 0 <= j < a implies body[j] != ' ' by {
        assert(body[j] == e.2[j]);
    }
    lemma_first_index_is(body, ' ', a);
    let rest = body.skip(a + 1);
    assert(rest =~= e.1 + seq![' '] + e.0);
    let b = e.1.len() as int;
    assert(rest[b] == ' ');
    assert forall|j: int| 0 <= j < b implies rest[j] != ' ' by {
        assert(rest[j] == e.1[j]);
    }
    lemma_first_index_is(rest, ' ', b);
    assert(rest.skip(b + 1) =~= e.0);
    assert(rest.take(b) =~= e.1);
    assert(body.take(a) =~= e.2);
}

/// The text of a tree with clean entries is parsed as those entries.
pub proof fn lemma_parse_tree_text(es: Seq<EntryView>)
    requires
        clean_entries(es),
    ensures
        parse_tree(tree_text(es)) == Some(es),
{
    lemma_tree_text_pieces(es);
    lemma_parse_bodies(es, es.len() as int);
    assert(entry_bodies(es).take(es.len() as int) == entry_bodies(es));
    assert(es.take(es.len() as int) == es);
}

proof fn lemma_parse_bodies(es: Seq<EntryView>, n: int)
    requires
        clean_entries(es),
        0 <= n <= es.len(),
    ensures
        parse_entries(entry_bodies(es).take(n)) == Some(es.take(n)),
    decreases n,
{
    let ls = entry_bodies(es).take(n);
    if n == 0 {
        assert(es.take(0) =~= Seq::<EntryView>::empty());
    } else {
        lemma_parse_bodies(es, n - 1);
        assert(ls.drop_last() == entry_bodies(es).take(n - 1));
        assert(ls.last() == entry_body(es[n - 1]));
        lemma_parse_entry_body(es[n - 1]);
        assert(es.take(n - 1).push(es[n - 1]) =~= es.take(n));
    }
}

/// Whether a name can stand in a tree and be read back: a valid name
/// without a line feed.
pub open spec fn clean_name(name: Seq<char>) -> bool {
    valid_name(name) && !name.contains('\n')
}

/// Whether a node is the storage root, or has a clean name and, being a
/// directory, is well formed inside.
pub open spec fn well_formed_node(n: NodeView) -> bool
    decreases n,
{
    n.name() == root_name() || (clean_name(n.name()) && match n {
        NodeView::File { .. } => true,
        NodeView::Dir { children, .. } => well_formed(children),
    })
}

/// Whether a directory is as a file system has it: the names in it are
/// clean and differ from each other, and so in every directory below it.
/// The storage root is not looked into.
pub open spec fn well_formed(nodes: Seq<NodeView>) -> bool
    decreases nodes,
{
    &&& forall|i: int| 0 <= i < nodes.len() ==> well_formed_node(#[trigger] nodes[i])
    &&& forall|i: int, j: int|
        0 <= i < j < nodes.len() && !ignored(nodes[i].name()) && !ignored(nodes[j].name())
            ==> (#[trigger] nodes[i]).name() != (#[trigger] nodes[j]).name()
}

/// In a well-formed directory the storage root is the one node that is
/// left out, and every other node has a clean name.
pub proof fn lemma_only_the_root_is_left_out(n: NodeView)
    requires
        well_formed_node(n),
    ensures
        ignored(n.name()) <==> n.name() == root_name(),
        !ignored(n.name()) ==> clean_name(n.name()),
        !ignored(n.name()) ==> (n matches NodeView::Dir { children, .. } ==> well_formed(children)),
{
    assert(!root_name().contains('/'));
    lemma_ignored_name(root_name());
    if n.name() != root_name() {
        lemma_ignored_name(n.name());
    }
}

/// Whether the store holds an object under its id, as it was put, and the
/// id is not empty.
pub open spec fn held(objects: Objects, kind: ObjectKind, content: Seq<u8>) -> bool {
    let oid = object_id(kind, content);
    oid.len() > 0 && objects.contains_key(oid) && objects[oid] == frame(kind, content)
}

/// Whether the store holds what a node was written as.
pub open spec fn holds_node(objects: Objects, n: NodeView) -> bool
    decreases n,
{
    ignored(n.name()) || match n {
        NodeView::File { content, .. } => held(objects, ObjectKind::Blob, content),
        NodeView::Dir { children, .. } => holds_dir(objects, children),
    }
}

/// Whether the store holds all that a directory was written as: its tree,
/// and what each node in it was written as. It does unless some id was
/// taken by another object when the directory was written.
pub open spec fn holds_dir(objects: Objects, nodes: Seq<NodeView>) -> bool
    decreases nodes,
{
    &&& held(objects, ObjectKind::Tree, tree_content(nodes))
    &&& forall|i: int| 0 <= i < nodes.len() ==> holds_node(objects, #[trigger] nodes[i])
}

/// Whether a node holds a file at `path`, below `base`, with this content.
pub open spec fn file_in_node(n: NodeView, base: Seq<char>, path: Seq<char>, content: Seq<u8>) -> bool
    decreases n,
{
    !ignored(n.name()) && match n {
        NodeView::File { name, content: c } => path == base + name && content == c,
        NodeView::Dir { name, children } => file_in(children, base + name + seq!['/'], path, content),
    }
}

/// Whether a directory holds a file at `path`, below `base`, with this
/// content; the storage root is not looked into.
pub open spec fn file_in(nodes: Seq<NodeView>, base: Seq<char>, path: Seq<char>, content: Seq<u8>) -> bool
    decreases nodes,
{
    exists|i: int| 0 <= i < nodes.len() && file_in_node(#[trigger] nodes[i], base, path, content)
}

/// Every node that is not left out has its entry among the entries of the
/// directory.
pub proof fn lemma_entry_of_node(nodes: Seq<NodeView>, i: int)
    requires
        0 <= i < nodes.len(),
        !ignored(nodes[i].name()),
    ensures
        dir_entries(nodes).contains(node_entry(nodes[i])),
    decreases nodes.len(),
{
    let before = dir_entries(nodes.drop_last());
    if i == nodes.len() - 1 {
        assert(dir_entries(nodes) == before.push(node_entry(nodes[i])));
        assert(dir_entries(nodes)[before.len() as int] == node_entry(nodes[i]));
    } else {
        lemma_entry_of_node(nodes.drop_last(), i);
        assert(nodes.drop_last()[i] == nodes[i]);
        let k = choose|k: int| 0 <= k < before.len() && before[k] == node_entry(nodes[i]);
        assert(dir_entries(nodes)[k] == before[k]);
    }
}

/// Every entry of a directory is the entry of a node in it that is not
/// left out.
pub proof fn lemma_node_of_entry(nodes: Seq<NodeView>, e: EntryView) -> (i: int)
    requires
        dir_entries(nodes).contains(e),
    ensures
        0 <= i < nodes.len(),
        !ignored(nodes[i].name()),
        node_entry(nodes[i]) == e,
    decreases nodes.len(),
{
    let all = dir_entries(nodes);
    let k = choose|k: int| 0 <= k < all.len() && all[k] == e;
    if nodes.len() == 0 {
        0
    } else {
        let before = dir_entries(nodes.drop_last());
        if !ignored(nodes.last().name()) && k == before.len() {
            nodes.len() - 1
        } else {
            assert(before[k] == e);
            let i = lemma_node_of_entry(nodes.drop_last(), e);
            assert(nodes.drop_last()[i] == nodes[i]);
            i
        }
    }
}

/// The entries of a well-formed directory are clean.
pub proof fn lemma_entries_clean(nodes: Seq<NodeView>)
    requires
        well_formed(nodes),
    ensures
        clean_entries(dir_entries(nodes)),
        clean_entries(sorted_triples(dir_entries(nodes))),
{
    let es = dir_entries(nodes);
    assert forall|k: int| 0 <= k < es.len() implies clean_entry(#[trigger] es[k]) by {
        assert(es.contains(es[k]));
        let i = lemma_node_of_entry(nodes, es[k]);
        lemma_node_entry_clean(nodes[i]);
    }
    let sorted = sorted_triples(es);
    lemma_triple_order_total();
    es.lemma_sort_by_ensures(triple_order());
    assert forall|k: int| 0 <= k < sorted.len() implies clean_entry(#[trigger] sorted[k]) by {
        assert(sorted.contains(sorted[k]));
        if !es.contains(sorted[k]) {
            assert(!sorted.contains(sorted[k]));
        }
        let j = choose|j: int| 0 <= j < es.len() && es[j] == sorted[k];
        assert(clean_entry(es[j]));
    }
}

proof fn lemma_node_entry_clean(n: NodeView)
    requires
        well_formed_node(n),
        !ignored(n.name()),
    ensures
        clean_entry(node_entry(n)),
{
    let e = node_entry(n);
    match n {
        NodeView::File { name, content } => {
            lemma_hex_lower(sha1_digest(frame(ObjectKind::Blob, content)));
            assert(e.2 == blob_word());
        },
        NodeView::Dir { name, children } => {
            lemma_hex_lower(sha1_digest(frame(ObjectKind::Tree, tree_content(children))));
            assert(e.2 == tree_word());
        },
    }
    assert(!blob_word().contains(' ') && !blob_word().contains('\n'));
    assert(!tree_word().contains(' ') && !tree_word().contains('\n'));
}

/// The sorted entries of a directory are the entries of its nodes.
pub proof fn lemma_sorted_members(nodes: Seq<NodeView>)
    ensures
        forall|e: EntryView|
            sorted_triples(dir_entries(nodes)).contains(e) <==> dir_entries(nodes).contains(e),
        sorted_triples(dir_entries(nodes)).len() == dir_entries(nodes).len(),
{
    let es = dir_entries(nodes);
    let sorted = sorted_triples(es);
    lemma_triple_order_total();
    es.lemma_sort_by_ensures(triple_order());
    assert forall|e: EntryView| sorted.contains(e) <==> es.contains(e) by {
        vstd::seq_lib::to_multiset_contains(es, e);
        vstd::seq_lib::to_multiset_contains(sorted, e);
    }
    vstd::seq_lib::to_multiset_len(es);
    vstd::seq_lib::to_multiset_len(sorted);
}

/// The tree of a well-formed directory that the store holds reads back as
/// the directory's entries, sorted.
pub proof fn lemma_stored_entries(objects: Objects, nodes: Seq<NodeView>)
    requires
        well_formed(nodes),
        held(objects, ObjectKind::Tree, tree_content(nodes)),
    ensures
        stored_entries(objects, tree_id(nodes)) == Ok::<_, Error>(
            sorted_triples(dir_entries(nodes)),
        ),
{
    let sorted = sorted_triples(dir_entries(nodes));
    let text = tree_text(sorted);
    lemma_entries_clean(nodes);
    lemma_parse_tree_text(sorted);
    lemma_unframe_frame(ObjectKind::Tree, tree_content(nodes));
    encode_utf8_valid_utf8(text);
    encode_utf8_decode_utf8(text);
}

/// How many directories are nested below a node, itself counted.
pub open spec fn node_height(n: NodeView) -> nat
    decreases n,
{
    if ignored(n.name()) {
        0
    } else {
        match n {
            NodeView::File { .. } => 0,
            NodeView::Dir { children, .. } => 1 + height(children),
        }
    }
}

/// How many directories are nested below a directory.
pub open spec fn height(nodes: Seq<NodeView>) -> nat
    decreases nodes,
{
    if nodes.len() == 0 {
        0
    } else {
        let before = height(nodes.drop_last());
        let last = node_height(nodes.last());
        if before >= last {
            before
        } else {
            last
        }
    }
}

/// No node is higher than its directory.
pub proof fn lemma_height_bounds(nodes: Seq<NodeView>, i: int)
    requires
        0 <= i < nodes.len(),
    ensures
        node_height(nodes[i]) <= height(nodes),
    decreases nodes.len(),
{
    if i < nodes.len() - 1 {
        lemma_height_bounds(nodes.drop_last(), i);
        assert(nodes.drop_last()[i] == nodes[i]);
    }
}

/// Whether `path` is the entry `name` below `base`, or is below it.
pub open spec fn under(base: Seq<char>, name: Seq<char>, path: Seq<char>) -> bool {
    &&& has_prefix(path, base + name)
    &&& (path.len() == base.len() + name.len() || path[(base.len() + name.len()) as int] == '/')
}

/// A path is under one name only.
pub proof fn lemma_under_one_name(base: Seq<char>, x: Seq<char>, y: Seq<char>, path: Seq<char>)
    requires
        under(base, x, path),
        under(base, y, path),
        !x.contains('/'),
        !y.contains('/'),
    ensures
        x == y,
{
    let b = base.len() as int;
    assert forall|j: int| 0 <= j < x.len() implies path[b + j] == x[j] by {
        assert(path.take((base + x).len() as int)[b + j] == (base + x)[b + j]);
    }
    assert forall|j: int| 0 <= j < y.len() implies path[b + j] == y[j] by {
        assert(path.take((base + y).len() as int)[b + j] == (base + y)[b + j]);
    }
    if x.len() < y.len() {
        assert(path[b + x.len()] == y[x.len() as int]);
        assert(y[x.len() as int] == '/');
    } else if y.len() < x.len() {
        assert(path[b + y.len()] == x[y.len() as int]);
        assert(x[y.len() as int] == '/');
    } else {
        assert(x =~= y);
    }
}

/// The files of a directory are at paths below its base.
pub proof fn lemma_file_in_has_prefix(nodes: Seq<NodeView>, base: Seq<char>, path: Seq<char>, content: Seq<u8>)
    requires
        file_in(nodes, base, path, content),
    ensures
        has_prefix(path, base),
    decreases nodes,
{
    let i = choose|i: int| 0 <= i < nodes.len() && file_in_node(#[trigger] nodes[i], base, path, content);
    match nodes[i] {
        NodeView::File { name, .. } => {
            assert((base + name).take(base.len() as int) =~= base);
        },
        NodeView::Dir { name, children } => {
            let below = base + name + seq!['/'];
            lemma_file_in_has_prefix(children, below, path, content);
            assert(path.take(base.len() as int) =~= path.take(below.len() as int).take(
                base.len() as int,
            ));
            assert(below.take(base.len() as int) =~= base);
        },
    }
}

/// The files of a node are at paths under the node's name.
pub proof fn lemma_file_in_node_under(n: NodeView, base: Seq<char>, path: Seq<char>, content: Seq<u8>)
    requires
        file_in_node(n, base, path, content),
    ensures
        under(base, n.name(), path),
{
    match n {
        NodeView::File { name, .. } => {
            assert(path.take((base + name).len() as int) =~= base + name);
        },
        NodeView::Dir { name, children } => {
            let below = base + name + seq!['/'];
            lemma_file_in_has_prefix(children, below, path, content);
            let n = (base + name).len() as int;
            assert(path.take(n) =~= path.take(below.len() as int).take(n));
            assert(below.take(n) =~= base + name);
            assert(path[n] == path.take(below.len() as int)[n]);
            assert(below[n] == '/');
        },
    }
}

/// Whether a node whose entry is one of `done` holds a file at `path` with
/// this content.
pub open spec fn covered(
    nodes: Seq<NodeView>,
    done: Seq<EntryView>,
    base: Seq<char>,
    path: Seq<char>,
    content: Seq<u8>,
) -> bool {
    exists|i: int|
        0 <= i < nodes.len() && done.contains(node_entry(#[trigger] nodes[i])) && file_in_node(
            nodes[i],
            base,
            path,
            content,
        )
}

/// Whether `t` is `acc` with the files of the nodes whose entry is one of
/// `done`: each at its path with the id of its blob, and nothing else
/// changed.
pub open spec fn partly(
    t: Table<Seq<char>>,
    acc: Table<Seq<char>>,
    nodes: Seq<NodeView>,
    done: Seq<EntryView>,
    base: Seq<char>,
) -> bool {
    &&& forall|p: Seq<char>| #[trigger]
        t.map.contains_key(p) ==> acc.map.contains_key(p) || exists|c: Seq<u8>|
            covered(nodes, done, base, p, c)
    &&& forall|p: Seq<char>| #[trigger] acc.map.contains_key(p) ==> t.map.contains_key(p)
    &&& forall|p: Seq<char>, c: Seq<u8>| #[trigger]
        covered(nodes, done, base, p, c) ==> t.map.contains_key(p) && t.map[p] == object_id(
            ObjectKind::Blob,
            c,
        )
    &&& forall|p: Seq<char>|
        acc.map.contains_key(p) && !(exists|c: Seq<u8>| covered(nodes, done, base, p, c))
            ==> #[trigger] t.map[p] == acc.map[p]
}

/// Whether `t` is `acc` with the files of a directory: each at its path
/// with the id of its blob, and nothing else changed.
pub open spec fn flattened(
    t: Table<Seq<char>>,
    acc: Table<Seq<char>>,
    nodes: Seq<NodeView>,
    base: Seq<char>,
) -> bool {
    &&& forall|p: Seq<char>| #[trigger]
        t.map.contains_key(p) ==> acc.map.contains_key(p) || exists|c: Seq<u8>|
            file_in(nodes, base, p, c)
    &&& forall|p: Seq<char>| #[trigger] acc.map.contains_key(p) ==> t.map.contains_key(p)
    &&& forall|p: Seq<char>, c: Seq<u8>| #[trigger]
        file_in(nodes, base, p, c) ==> t.map.contains_key(p) && t.map[p] == object_id(
            ObjectKind::Blob,
            c,
        )
    &&& forall|p: Seq<char>|
        acc.map.contains_key(p) && !(exists|c: Seq<u8>| file_in(nodes, base, p, c))
            ==> #[trigger] t.map[p] == acc.map[p]
}

/// Flattening the tree of a well-formed directory that the store holds
/// adds the directory's files, given depth enough for what is nested in it.
pub proof fn lemma_flatten_dir(
    objects: Objects,
    acc: Table<Seq<char>>,
    nodes: Seq<NodeView>,
    base: Seq<char>,
    depth: nat,
)
    requires
        well_formed(nodes),
        holds_dir(objects, nodes),
        depth >= height(nodes),
    ensures
        flatten_into(objects, acc, tree_id(nodes), base, depth) is Ok,
        flattened(flatten_into(objects, acc, tree_id(nodes), base, depth)->Ok_0, acc, nodes, base),
    decreases nodes, dir_entries(nodes).len() + 1,
{
    let es = sorted_triples(dir_entries(nodes));
    lemma_stored_entries(objects, nodes);
    lemma_sorted_members(nodes);
    lemma_flatten_some(objects, acc, nodes, base, depth, es.len() as int);
    assert(es.take(es.len() as int) == es);
    let t = flatten_into(objects, acc, tree_id(nodes), base, depth)->Ok_0;
    assert forall|p: Seq<char>, c: Seq<u8>| covered(nodes, es, base, p, c) <==> file_in(
        nodes,
        base,
        p,
        c,
    ) by {
        if file_in(nodes, base, p, c) {
            let i = choose|i: int|
                0 <= i < nodes.len() && file_in_node(#[trigger] nodes[i], base, p, c);
            lemma_entry_of_node(nodes, i);
        }
    }
    assert(flattened(t, acc, nodes, base)) by {
        assert forall|p: Seq<char>| #[trigger] t.map.contains_key(p) implies acc.map.contains_key(
            p,
        ) || exists|c: Seq<u8>| file_in(nodes, base, p, c) by {
            if !acc.map.contains_key(p) {
                let c = choose|c: Seq<u8>| covered(nodes, es, base, p, c);
                assert(file_in(nodes, base, p, c));
            }
        }
        assert forall|p: Seq<char>|
            acc.map.contains_key(p) && !(exists|c: Seq<u8>|
                file_in(nodes, base, p, c)) implies #[trigger] t.map[p] == acc.map[p] by {
            if exists|c: Seq<u8>| covered(nodes, es, base, p, c) {
                let c = choose|c: Seq<u8>| covered(nodes, es, base, p, c);
                assert(file_in(nodes, base, p, c));
            }
        }
    }
}

/// Flattening the first `k` sorted entries of a directory adds the files
/// of their nodes.
pub proof fn lemma_flatten_some(
    objects: Objects,
    acc: Table<Seq<char>>,
    nodes: Seq<NodeView>,
    base: Seq<char>,
    depth: nat,
    k: int,
)
    requires
        well_formed(nodes),
        holds_dir(objects, nodes),
        depth >= height(nodes),
        0 <= k <= sorted_triples(dir_entries(nodes)).len(),
        sorted_triples(dir_entries(nodes)).len() == dir_entries(nodes).len(),
    ensures
        flatten_entries(
            objects,
            acc,
            sorted_triples(dir_entries(nodes)).take(k),
            base,
            depth,
        ) is Ok,
        partly(
            flatten_entries(
                objects,
                acc,
                sorted_triples(dir_entries(nodes)).take(k),
                base,
                depth,
            )->Ok_0,
            acc,
            nodes,
            sorted_triples(dir_entries(nodes)).take(k),
            base,
        ),
    decreases nodes, k,
{
    let es = sorted_triples(dir_entries(nodes));
    let done = es.take(k);
    if k == 0 {
        assert forall|p: Seq<char>, c: Seq<u8>| !covered(nodes, done, base, p, c) by {
            assert forall|e: EntryView| !done.contains(e) by {}
        }
    } else {
        lemma_flatten_some(objects, acc, nodes, base, depth, k - 1);
        let before = es.take(k - 1);
        assert(done.drop_last() == before);
        let e = es[k - 1];
        assert(done.last() == e);
        let t0 = flatten_entries(objects, acc, before, base, depth)->Ok_0;
        lemma_sorted_members(nodes);
        assert(es.contains(e));
        let m = lemma_node_of_entry(nodes, e);
        let n = nodes[m];
        assert(well_formed_node(n));
        lemma_only_the_root_is_left_out(n);
        assert(holds_node(objects, n));
        lemma_height_bounds(nodes, m);
        assert(blob_word()[0] != tree_word()[0]);
        let path = base + n.name();
        match n {
            NodeView::File { name, content } => {
                assert(flatten_entry(objects, t0, e, base, depth) == Ok::<_, Error>(
                    t0.insert(path, object_id(ObjectKind::Blob, content)),
                ));
            },
            NodeView::Dir { name, children } => {
                lemma_flatten_dir(objects, t0, children, path + seq!['/'], (depth - 1) as nat);
            },
        }
        let t1 = flatten_entry(objects, t0, e, base, depth)->Ok_0;
        assert(flatten_entries(objects, acc, done, base, depth) == Ok::<_, Error>(t1));
        // What the step did: the files of `n`, and nothing else.
        assert forall|p: Seq<char>, c: Seq<u8>| file_in_node(n, base, p, c) implies t1.map.contains_key(
            p,
        ) && t1.map[p] == object_id(ObjectKind::Blob, c) by {
            match n {
                NodeView::File { name, content } => {
                    assert(p == path);
                    assert(c == content);
                    assert(t1 == t0.insert(path, object_id(ObjectKind::Blob, content)));
                },
                NodeView::Dir { name, children } => {
                    assert(file_in(children, path + seq!['/'], p, c));
                    assert(t1 == flatten_into(
                        objects,
                        t0,
                        tree_id(children),
                        path + seq!['/'],
                        (depth - 1) as nat,
                    )->Ok_0);
                    assert(flattened(t1, t0, children, path + seq!['/']));
                },
            }
        }
        assert forall|p: Seq<char>| #[trigger] t1.map.contains_key(p) implies t0.map.contains_key(
            p,
        ) || exists|c: Seq<u8>| file_in_node(n, base, p, c) by {
            match n {
                NodeView::File { name, content } => {
                    if p == path {
                        assert(file_in_node(n, base, p, content));
                    }
                },
                NodeView::Dir { name, children } => {
                    if !t0.map.contains_key(p) {
                        let c = choose|c: Seq<u8>| file_in(children, path + seq!['/'], p, c);
                        assert(file_in_node(n, base, p, c));
                    }
                },
            }
        }
        assert forall|p: Seq<char>|
            t0.map.contains_key(p) && !(exists|c: Seq<u8>|
                file_in_node(n, base, p, c)) implies t1.map.contains_key(p) && #[trigger] t1.map[p]
            == t0.map[p] by {
            match n {
                NodeView::File { name, content } => {
                    if p == path {
                        assert(file_in_node(n, base, p, content));
                    }
                },
                NodeView::Dir { name, children } => {
                    if exists|c: Seq<u8>| file_in(children, path + seq!['/'], p, c) {
                        let c = choose|c: Seq<u8>| file_in(children, path + seq!['/'], p, c);
                        assert(file_in_node(n, base, p, c));
                    }
                },
            }
        }
        assert forall|p: Seq<char>| t0.map.contains_key(p) implies t1.map.contains_key(p) by {}
        // A node whose entry was done before is another node, unless it is `n`.
        assert forall|i: int, p: Seq<char>, c: Seq<u8>|
            0 <= i < nodes.len() && i != m && #[trigger] file_in_node(
                nodes[i],
                base,
                p,
                c,
            ) implies !(exists|c2: Seq<u8>| file_in_node(n, base, p, c2)) by {
            if exists|c2: Seq<u8>| file_in_node(n, base, p, c2) {
                let c2 = choose|c2: Seq<u8>| file_in_node(n, base, p, c2);
                lemma_file_in_node_under(nodes[i], base, p, c);
                lemma_file_in_node_under(n, base, p, c2);
                assert(well_formed_node(nodes[i]));
                lemma_only_the_root_is_left_out(nodes[i]);
                lemma_under_one_name(base, nodes[i].name(), n.name(), p);
                if i < m {
                    assert(nodes[i].name() != nodes[m].name());
                } else {
                    assert(nodes[m].name() != nodes[i].name());
                }
            }
        }
        assert forall|i: int|
            0 <= i < nodes.len() && node_entry(#[trigger] nodes[i]) == e && !ignored(
                nodes[i].name(),
            ) implies i == m by {
            if i < m {
                assert(nodes[i].name() != nodes[m].name());
            } else if m < i {
                assert(nodes[m].name() != nodes[i].name());
            }
        }
        assert forall|x: EntryView| done.contains(x) <==> before.contains(x) || x == e by {
            if done.contains(x) {
                let j = choose|j: int| 0 <= j < done.len() && done[j] == x;
                if j < k - 1 {
                    assert(before[j] == x);
                }
            }
            if before.contains(x) {
                let j = choose|j: int| 0 <= j < before.len() && before[j] == x;
                assert(done[j] == x);
            }
            assert(done[k - 1] == e);
        }
        assert forall|p: Seq<char>, c: Seq<u8>| #[trigger]
            covered(nodes, done, base, p, c) implies t1.map.contains_key(p) && t1.map[p]
            == object_id(ObjectKind::Blob, c) by {
            let i = choose|i: int|
                0 <= i < nodes.len() && done.contains(node_entry(#[trigger] nodes[i]))
                    && file_in_node(nodes[i], base, p, c);
            if i != m {
                assert(before.contains(node_entry(nodes[i])));
                assert(covered(nodes, before, base, p, c));
                assert(t0.map.contains_key(p));
                assert(t1.map[p] == t0.map[p]);
            }
        }
        assert forall|p: Seq<char>| #[trigger] t1.map.contains_key(p) implies acc.map.contains_key(
            p,
        ) || exists|c: Seq<u8>| covered(nodes, done, base, p, c) by {
            if t0.map.contains_key(p) {
                if !acc.map.contains_key(p) {
                    let c = choose|c: Seq<u8>| covered(nodes, before, base, p, c);
                    let i = choose|i: int|
                        0 <= i < nodes.len() && before.contains(node_entry(#[trigger] nodes[i]))
                            && file_in_node(nodes[i], base, p, c);
                    assert(done.contains(node_entry(nodes[i])));
                    assert(covered(nodes, done, base, p, c));
                }
            } else {
                let c = choose|c: Seq<u8>| file_in_node(n, base, p, c);
                assert(done.contains(node_entry(nodes[m])));
                assert(covered(nodes, done, base, p, c));
            }
        }
        assert forall|p: Seq<char>|
            acc.map.contains_key(p) && !(exists|c: Seq<u8>|
                covered(nodes, done, base, p, c)) implies #[trigger] t1.map[p] == acc.map[p] by {
            if exists|c: Seq<u8>| covered(nodes, before, base, p, c) {
                let c = choose|c: Seq<u8>| covered(nodes, before, base, p, c);
                let i = choose|i: int|
                    0 <= i < nodes.len() && before.contains(node_entry(#[trigger] nodes[i]))
                        && file_in_node(nodes[i], base, p, c);
                assert(done.contains(node_entry(nodes[i])));
                assert(covered(nodes, done, base, p, c));
            }
            if exists|c: Seq<u8>| file_in_node(n, base, p, c) {
                let c = choose|c: Seq<u8>| file_in_node(n, base, p, c);
                assert(done.contains(node_entry(nodes[m])));
                assert(covered(nodes, done, base, p, c));
            }
            assert(t0.map[p] == acc.map[p]);
            assert(t0.map.contains_key(p));
        }
    }
}

/// A directory is no higher than a bound on the height of its nodes.
proof fn lemma_height_at_most(nodes: Seq<NodeView>, bound: nat)
    requires
        forall|i: int| 0 <= i < nodes.len() ==> node_height(#[trigger] nodes[i]) <= bound,
    ensures
        height(nodes) <= bound,
    decreases nodes.len(),
{
    if nodes.len() > 0 {
        assert forall|i: int| 0 <= i < nodes.drop_last().len() implies node_height(
            #[trigger] nodes.drop_last()[i],
        ) <= bound by {
            assert(nodes.drop_last()[i] == nodes[i]);
        }
        lemma_height_at_most(nodes.drop_last(), bound);
        assert(nodes.last() == nodes[nodes.len() - 1]);
    }
}

/// A directory that has height has a node of that height.
proof fn lemma_highest_node(nodes: Seq<NodeView>) -> (i: int)
    requires
        height(nodes) > 0,
    ensures
        0 <= i < nodes.len(),
        node_height(nodes[i]) == height(nodes),
    decreases nodes.len(),
{
    if height(nodes.drop_last()) >= node_height(nodes.last()) {
        let i = lemma_highest_node(nodes.drop_last());
        assert(nodes.drop_last()[i] == nodes[i]);
        i
    } else {
        nodes.len() - 1
    }
}

/// Directories that are written as the same tree have the same entries.
proof fn lemma_same_entries(a: Seq<NodeView>, b: Seq<NodeView>)
    requires
        well_formed(a),
        well_formed(b),
        tree_content(a) == tree_content(b),
    ensures
        sorted_triples(dir_entries(a)) == sorted_triples(dir_entries(b)),
{
    let sa = sorted_triples(dir_entries(a));
    let sb = sorted_triples(dir_entries(b));
    lemma_entries_clean(a);
    lemma_entries_clean(b);
    lemma_parse_tree_text(sa);
    lemma_parse_tree_text(sb);
    encode_utf8_decode_utf8(tree_text(sa));
    encode_utf8_decode_utf8(tree_text(sb));
}

/// Of two directories that the store holds under the same id, the first is
/// no higher than the second.
proof fn lemma_height_le(objects: Objects, a: Seq<NodeView>, b: Seq<NodeView>)
    requires
        well_formed(a),
        well_formed(b),
        holds_dir(objects, a),
        holds_dir(objects, b),
        tree_id(a) == tree_id(b),
    ensures
        height(a) <= height(b),
    decreases a,
{
    lemma_frame_injective(ObjectKind::Tree, tree_content(a), ObjectKind::Tree, tree_content(b));
    lemma_same_entries(a, b);
    lemma_sorted_members(a);
    lemma_sorted_members(b);
    assert forall|i: int| 0 <= i < a.len() implies node_height(#[trigger] a[i]) <= height(b) by {
        if node_height(a[i]) > 0 {
            let e = node_entry(a[i]);
            lemma_entry_of_node(a, i);
            assert(sorted_triples(dir_entries(a)).contains(e));
            assert(dir_entries(b).contains(e));
            let j = lemma_node_of_entry(b, e);
            lemma_height_bounds(b, j);
            assert(well_formed_node(a[i]));
            lemma_only_the_root_is_left_out(a[i]);
            assert(well_formed_node(b[j]));
            lemma_only_the_root_is_left_out(b[j]);
            assert(holds_node(objects, a[i]));
            assert(holds_node(objects, b[j]));
            assert(blob_word()[0] != tree_word()[0]);
            match a[i] {
                NodeView::File { .. } => {},
                NodeView::Dir { children: x, .. } => {
                    match b[j] {
                        NodeView::File { .. } => {},
                        NodeView::Dir { children: y, .. } => {
                            lemma_height_le(objects, x, y);
                        },
                    }
                },
            }
        }
    }
    lemma_height_at_most(a, height(b));
}

/// Whether `oid` is the tree of a well-formed directory that the store
/// holds and that is no higher than `h`.
pub open spec fn tree_of_height(objects: Objects, oid: Seq<char>, h: nat) -> bool {
    exists|z: Seq<NodeView>|
        well_formed(z) && holds_dir(objects, z) && height(z) <= h && #[trigger] tree_id(z) == oid
}

/// The trees along the deepest way down a directory: one more than the
/// directory is high, all stored, and all different.
proof fn lemma_spine(objects: Objects, nodes: Seq<NodeView>) -> (s: Set<Seq<char>>)
    requires
        well_formed(nodes),
        holds_dir(objects, nodes),
    ensures
        s.finite(),
        s.len() == height(nodes) + 1,
        forall|oid: Seq<char>| s.contains(oid) ==> objects.contains_key(oid),
        forall|oid: Seq<char>| s.contains(oid) ==> tree_of_height(objects, oid, height(nodes)),
    decreases nodes,
{
    let top = tree_id(nodes);
    if height(nodes) == 0 {
        let s = Set::<Seq<char>>::empty().insert(top);
        assert(tree_of_height(objects, top, height(nodes)));
        s
    } else {
        let i = lemma_highest_node(nodes);
        assert(well_formed_node(nodes[i]));
        lemma_only_the_root_is_left_out(nodes[i]);
        assert(holds_node(objects, nodes[i]));
        match nodes[i] {
            NodeView::File { .. } => Set::empty(),
            NodeView::Dir { children, .. } => {
                let below = lemma_spine(objects, children);
                if below.contains(top) {
                    let z = choose|z: Seq<NodeView>|
                        well_formed(z) && holds_dir(objects, z) && height(z) <= height(children)
                            && #[trigger] tree_id(z) == top;
                    lemma_height_le(objects, nodes, z);
                }
                let s = below.insert(top);
                assert(tree_of_height(objects, top, height(nodes)));
                assert forall|oid: Seq<char>| s.contains(oid) implies tree_of_height(
                    objects,
                    oid,
                    height(nodes),
                ) by {
                    if oid != top {
                        let z = choose|z: Seq<NodeView>|
                            well_formed(z) && holds_dir(objects, z) && height(z) <= height(
                                children,
                            ) && #[trigger] tree_id(z) == oid;
                        assert(tree_id(z) == oid);
                    }
                }
                s
            },
        }
    }
}

/// A store holds more objects than a directory in it is high.
pub proof fn lemma_depth_suffices(objects: Objects, nodes: Seq<NodeView>)
    requires
        objects.dom().finite(),
        well_formed(nodes),
        holds_dir(objects, nodes),
    ensures
        height(nodes) < objects.dom().len(),
{
    let s = lemma_spine(objects, nodes);
    assert(s.subset_of(objects.dom()));
    vstd::set_lib::lemma_len_subset(s, objects.dom());
}

/// Whether the keys of a table are the keys of its map.
pub open spec fn consistent<T>(t: Table<T>) -> bool {
    forall|k: Seq<char>| t.map.contains_key(k) <==> t.keys.contains(k)
}

proof fn lemma_insert_consistent<T>(t: Table<T>, k: Seq<char>, v: T)
    requires
        consistent(t),
    ensures
        consistent(t.insert(k, v)),
{
    let after = t.insert(k, v);
    assert forall|x: Seq<char>| after.map.contains_key(x) <==> after.keys.contains(x) by {
        if t.keys.contains(x) {
            let j = choose|j: int| 0 <= j < t.keys.len() && t.keys[j] == x;
            assert(after.keys[j] == x);
        }
        if after.keys.contains(x) && x != k {
            let j = choose|j: int| 0 <= j < after.keys.len() && after.keys[j] == x;
            if !t.keys.contains(k) {
                assert(j < t.keys.len());
            }
            assert(t.keys[j] == x);
        }
        if x == k && !t.keys.contains(k) {
            assert(after.keys[t.keys.len() as int] == k);
        }
    }
}

/// Flattening keeps the keys of a table the keys of its map.
proof fn lemma_flatten_consistent(
    objects: Objects,
    acc: Table<Seq<char>>,
    oid: Seq<char>,
    base: Seq<char>,
    depth: nat,
)
    requires
        consistent(acc),
        flatten_into(objects, acc, oid, base, depth) is Ok,
    ensures
        consistent(flatten_into(objects, acc, oid, base, depth)->Ok_0),
    decreases depth, 1int, 0int,
{
    let es = stored_entries(objects, oid)->Ok_0;
    lemma_flatten_entries_consistent(objects, acc, es, base, depth);
}

proof fn lemma_flatten_entries_consistent(
    objects: Objects,
    acc: Table<Seq<char>>,
    es: Seq<EntryView>,
    base: Seq<char>,
    depth: nat,
)
    requires
        consistent(acc),
        flatten_entries(objects, acc, es, base, depth) is Ok,
    ensures
        consistent(flatten_entries(objects, acc, es, base, depth)->Ok_0),
    decreases depth, 0int, es.len(),
{
    if es.len() > 0 {
        lemma_flatten_entries_consistent(objects, acc, es.drop_last(), base, depth);
        let before = flatten_entries(objects, acc, es.drop_last(), base, depth)->Ok_0;
        let e = es.last();
        let step = flatten_entry(objects, before, e, base, depth);
        assert(flatten_entries(objects, acc, es, base, depth) == step);
        if !valid_name(e.0) {
        } else if e.2 == blob_word() {
            lemma_insert_consistent(before, base + e.0, e.1);
            assert(step == Ok::<_, Error>(before.insert(base + e.0, e.1)));
        } else if e.2 == tree_word() && depth > 0 {
            assert(step == flatten_into(
                objects,
                before,
                e.1,
                base + e.0 + seq!['/'],
                (depth - 1) as nat,
            ));
            lemma_flatten_consistent(
                objects,
                before,
                e.1,
                base + e.0 + seq!['/'],
                (depth - 1) as nat,
            );
        }
    }
}

/// The store holds the blob of every file of a directory that it holds.
proof fn lemma_file_held(
    objects: Objects,
    nodes: Seq<NodeView>,
    base: Seq<char>,
    path: Seq<char>,
    content: Seq<u8>,
)
    requires
        holds_dir(objects, nodes),
        file_in(nodes, base, path, content),
    ensures
        held(objects, ObjectKind::Blob, content),
    decreases nodes,
{
    let i = choose|i: int|
        0 <= i < nodes.len() && file_in_node(#[trigger] nodes[i], base, path, content);
    assert(holds_node(objects, nodes[i]));
    match nodes[i] {
        NodeView::File { .. } => {},
        NodeView::Dir { name, children } => {
            lemma_file_held(objects, children, base + name + seq!['/'], path, content);
        },
    }
}

/// Reading the first `n` paths of a flattened directory gives the content
/// of the files at those paths.
proof fn lemma_file_contents(
    objects: Objects,
    tree: Table<Seq<char>>,
    nodes: Seq<NodeView>,
    n: int,
)
    requires
        holds_dir(objects, nodes),
        consistent(tree),
        flattened(tree, Table::empty(), nodes, Seq::empty()),
        0 <= n <= tree.keys.len(),
    ensures
        file_contents(objects, tree.map, tree.keys.take(n)) is Ok,
        forall|p: Seq<char>|
            file_contents(objects, tree.map, tree.keys.take(n))->Ok_0.map.contains_key(p)
                <==> tree.keys.take(n).contains(p),
        forall|p: Seq<char>, c: Seq<u8>|
            tree.keys.take(n).contains(p) && #[trigger] file_in(nodes, Seq::empty(), p, c)
                ==> file_contents(objects, tree.map, tree.keys.take(n))->Ok_0.map[p] == c,
    decreases n,
{
    let paths = tree.keys.take(n);
    if n == 0 {
        assert forall|p: Seq<char>| !paths.contains(p) by {}
    } else {
        lemma_file_contents(objects, tree, nodes, n - 1);
        let before = tree.keys.take(n - 1);
        assert(paths.drop_last() == before);
        let last = tree.keys[n - 1];
        assert(paths.last() == last);
        assert(tree.keys.contains(last));
        assert(tree.map.contains_key(last));
        let empty = Table::<Seq<char>>::empty();
        assert(!empty.map.contains_key(last));
        let c0 = choose|c: Seq<u8>| file_in(nodes, Seq::empty(), last, c);
        lemma_file_held(objects, nodes, Seq::empty(), last, c0);
        lemma_unframe_frame(ObjectKind::Blob, c0);
        let files0 = file_contents(objects, tree.map, before)->Ok_0;
        let files = file_contents(objects, tree.map, paths)->Ok_0;
        assert(files == files0.insert(last, c0));
        assert forall|p: Seq<char>| paths.contains(p) <==> before.contains(p) || p == last by {
            if paths.contains(p) {
                let j = choose|j: int| 0 <= j < paths.len() && paths[j] == p;
                if j < n - 1 {
                    assert(before[j] == p);
                }
            }
            if before.contains(p) {
                let j = choose|j: int| 0 <= j < before.len() && before[j] == p;
                assert(paths[j] == p);
            }
            assert(paths[n - 1] == last);
        }
        assert forall|p: Seq<char>, c: Seq<u8>|
            paths.contains(p) && #[trigger] file_in(
                nodes,
                Seq::empty(),
                p,
                c,
            ) implies files.map[p] == c by {
            if p == last {
                lemma_file_held(objects, nodes, Seq::empty(), p, c);
                lemma_unframe_frame(ObjectKind::Blob, c);
                assert(tree.map[last] == object_id(ObjectKind::Blob, c));
                assert(tree.map[last] == object_id(ObjectKind::Blob, c0));
                assert(frame(ObjectKind::Blob, c) == frame(ObjectKind::Blob, c0));
                lemma_frame_injective(ObjectKind::Blob, c, ObjectKind::Blob, c0);
            }
        }
    }
}

/// Checking out the tree of a directory gives back the directory's files:
/// a file is at a path with some content in the directory exactly if it is
/// so in what is checked out.
///
/// The directory must be as a file system has it (`well_formed`), and the
/// store must hold what it was written as (`holds_dir`), which it does
/// after `write_tree` unless an id was already taken by another object.
pub proof fn lemma_round_trip(objects: Objects, nodes: Seq<NodeView>)
    requires
        objects.dom().finite(),
        well_formed(nodes),
        holds_dir(objects, nodes),
    ensures
        materialize(objects, tree_id(nodes)) is Ok,
        forall|path: Seq<char>, content: Seq<u8>|
            file_in(nodes, Seq::empty(), path, content) <==> {
                let files = materialize(objects, tree_id(nodes))->Ok_0;
                files.map.contains_key(path) && files.map[path] == content
            },
{
    let empty = Table::<Seq<char>>::empty();
    let base = Seq::<char>::empty();
    lemma_depth_suffices(objects, nodes);
    lemma_flatten_dir(objects, empty, nodes, base, objects.dom().len());
    let tree = flatten(objects, tree_id(nodes), base)->Ok_0;
    assert(consistent(empty)) by {
        assert forall|k: Seq<char>| !empty.keys.contains(k) by {}
    }
    lemma_flatten_consistent(objects, empty, tree_id(nodes), base, objects.dom().len());
    lemma_file_contents(objects, tree, nodes, tree.keys.len() as int);
    assert(tree.keys.take(tree.keys.len() as int) == tree.keys);
    let files = materialize(objects, tree_id(nodes))->Ok_0;
    assert forall|path: Seq<char>, content: Seq<u8>|
        file_in(nodes, base, path, content) <==> files.map.contains_key(path) && files.map[path]
            == content by {
        if file_in(nodes, base, path, content) {
            assert(tree.map.contains_key(path));
            assert(tree.keys.contains(path));
        }
        if files.map.contains_key(path) && files.map[path] == content {
            assert(tree.keys.contains(path));
            assert(tree.map.contains_key(path));
            assert(!empty.map.contains_key(path));
            let c = choose|c: Seq<u8>| file_in(nodes, base, path, c);
            assert(files.map[path] == c);
        }
    }
}

/// Whether `after` holds all that `before` holds, unchanged, and is finite
/// if `before` is.
pub open spec fn grown(before: Objects, after: Objects) -> bool {
    &&& forall|oid: Seq<char>| #[trigger]
        before.contains_key(oid) ==> after.contains_key(oid) && after[oid] == before[oid]
    &&& before.dom().finite() ==> after.dom().finite()
}

/// Writing a node only adds objects.
pub proof fn lemma_store_node_grows(objects: Objects, n: NodeView)
    ensures
        grown(objects, store_node(objects, n)),
    decreases n, 0int,
{
    match n {
        NodeView::File { .. } => {},
        NodeView::Dir { children, .. } => {
            lemma_store_dir_grows(objects, children);
        },
    }
}

/// Writing the nodes of a directory only adds objects.
pub proof fn lemma_store_nodes_grows(objects: Objects, nodes: Seq<NodeView>)
    ensures
        grown(objects, store_nodes(objects, nodes)),
    decreases nodes, 0int,
{
    if nodes.len() > 0 {
        lemma_store_nodes_grows(objects, nodes.drop_last());
        if !ignored(nodes.last().name()) {
            lemma_store_node_grows(store_nodes(objects, nodes.drop_last()), nodes.last());
        }
    }
}

/// Writing a directory only adds objects: the store is append-only.
pub proof fn lemma_store_dir_grows(objects: Objects, nodes: Seq<NodeView>)
    ensures
        grown(objects, store_dir(objects, nodes)),
    decreases nodes, 1int,
{
    lemma_store_nodes_grows(objects, nodes);
}

/// A directory that was written is checked out as it was: the round trip
/// of `lemma_round_trip`, for the store that `write_tree` leaves.
pub proof fn lemma_write_then_read(objects: Objects, nodes: Seq<NodeView>)
    requires
        objects.dom().finite(),
        well_formed(nodes),
        holds_dir(store_dir(objects, nodes), nodes),
    ensures
        materialize(store_dir(objects, nodes), tree_id(nodes)) is Ok,
        forall|path: Seq<char>, content: Seq<u8>|
            file_in(nodes, Seq::empty(), path, content) <==> {
                let files = materialize(store_dir(objects, nodes), tree_id(nodes))->Ok_0;
                files.map.contains_key(path) && files.map[path] == content
            },
{
    lemma_store_dir_grows(objects, nodes);
    lemma_round_trip(store_dir(objects, nodes), nodes);
}

/// The pieces of two texts with a separator between them are the pieces
/// of the first, then the pieces of the second.
pub proof fn lemma_split_concat(s: Seq<char>, u: Seq<char>, sep: char)
    ensures
        split(s + seq![sep] + u, sep) == split(s, sep) + split(u, sep),
    decreases s.len(),
{
    lemma_first_index(s, sep);
    let i = first_index(s, sep);
    let t = s + seq![sep] + u;
    assert(t[i] == sep);
    assert forall|j: int| 0 <= j < i implies t[j] != sep by {
        assert(t[j] == s[j]);
    }
    lemma_first_index_is(t, sep, i);
    assert(t.take(i) =~= s.take(i));
    if i < s.len() {
        assert(t.skip(i + 1) =~= s.skip(i + 1) + seq![sep] + u);
        lemma_split_concat(s.skip(i + 1), u, sep);
        assert(seq![s.take(i)] + (split(s.skip(i + 1), sep) + split(u, sep)) =~= (seq![s.take(i)]
            + split(s.skip(i + 1), sep)) + split(u, sep));
    } else {
        assert(s.take(i) =~= s);
        assert(t.skip(i + 1) =~= u);
        assert(split(s, sep) == seq![s]);
    }
}

/// Joining a piece and more pieces puts the separator after the piece.
proof fn lemma_join_first(first: Seq<char>, rest: Seq<Seq<char>>, sep: char)
    requires
        rest.len() > 0,
    ensures
        join(seq![first] + rest, sep) == first + seq![sep] + join(rest, sep),
    decreases rest.len(),
{
    let all = seq![first] + rest;
    assert(all.last() == rest.last());
    if rest.len() == 1 {
        assert(all.drop_last() =~= seq![first]);
        assert(join(seq![first], sep) == first);
    } else {
        assert(all.drop_last() =~= seq![first] + rest.drop_last());
        lemma_join_first(first, rest.drop_last(), sep);
        assert(first + seq![sep] + join(rest.drop_last(), sep) + seq![sep] + rest.last() =~= first
            + seq![sep] + (join(rest.drop_last(), sep) + seq![sep] + rest.last()));
    }
}

/// The pieces of a text, joined, are the text.
pub proof fn lemma_join_split(s: Seq<char>, sep: char)
    ensures
        join(split(s, sep), sep) == s,
    decreases s.len(),
{
    lemma_first_index(s, sep);
    let i = first_index(s, sep);
    if i < s.len() {
        lemma_join_split(s.skip(i + 1), sep);
        lemma_split_nonempty(s.skip(i + 1), sep);
        lemma_join_first(s.take(i), split(s.skip(i + 1), sep), sep);
        assert(s.take(i) + seq![sep] + s.skip(i + 1) =~= s);
    }
}

/// A text without the separator is one piece.
proof fn lemma_split_one(s: Seq<char>, sep: char)
    requires
        !s.contains(sep),
    ensures
        split(s, sep) == seq![s],
{
    lemma_first_index(s, sep);
}

/// Whether a commit can be written and read back: no line feed in the id
/// of its tree or of a parent, and two parents at most.
pub open spec fn clean_commit(c: CommitView) -> bool {
    &&& !c.tree.contains('\n')
    &&& c.parents.len() <= 2
    &&& forall|i: int| 0 <= i < c.parents.len() ==> !(#[trigger] c.parents[i]).contains('\n')
}

/// The lines that name the parents.
pub open spec fn parent_bodies(parents: Seq<Seq<char>>) -> Seq<Seq<char>> {
    Seq::new(parents.len(), |i: int| parent_header() + parents[i])
}

proof fn lemma_no_line_feed(mark: Seq<char>, text: Seq<char>)
    requires
        !mark.contains('\n'),
        !text.contains('\n'),
    ensures
        !(mark + text).contains('\n'),
{
    let all = mark + text;
    if all.contains('\n') {
        let j = choose|j: int| 0 <= j < all.len() && all[j] == '\n';
        if j < mark.len() {
            assert(mark[j] == '\n');
        } else {
            assert(text[j - mark.len()] == '\n');
        }
    }
}

/// The pieces of a commit's head: the tree line, the parent lines, and an
/// empty piece after the last line feed.
proof fn lemma_head_pieces(tree: Seq<char>, parents: Seq<Seq<char>>)
    requires
        !tree.contains('\n'),
        forall|i: int| 0 <= i < parents.len() ==> !(#[trigger] parents[i]).contains('\n'),
    ensures
        split(tree_header() + tree + seq!['\n'] + parent_lines(parents), '\n') == (seq![
            tree_header() + tree,
        ] + parent_bodies(parents)).push(Seq::empty()),
    decreases parents.len(),
{
    let first = tree_header() + tree;
    assert(!tree_header().contains('\n'));
    assert(!parent_header().contains('\n'));
    lemma_no_line_feed(tree_header(), tree);
    if parents.len() == 0 {
        lemma_split_one(first, '\n');
        lemma_split_separator(first, '\n');
        assert(first + seq!['\n'] + parent_lines(parents) =~= first + seq!['\n']);
        assert(seq![first] + parent_bodies(parents) =~= seq![first]);
    } else {
        let before = parents.drop_last();
        assert forall|i: int| 0 <= i < before.len() implies !(#[trigger] before[i]).contains(
            '\n',
        ) by {
            assert(before[i] == parents[i]);
        }
        lemma_head_pieces(tree, before);
        let head = first + seq!['\n'] + parent_lines(before);
        let body = parent_header() + parents.last();
        lemma_no_line_feed(parent_header(), parents.last());
        lemma_split_extend(head, body, '\n');
        lemma_split_separator(head + body, '\n');
        assert(first + seq!['\n'] + parent_lines(parents) =~= head + body + seq!['\n']);
        let pieces = split(head, '\n');
        assert(pieces.drop_last() =~= seq![first] + parent_bodies(before));
        assert(pieces.last() + body =~= body);
        assert((seq![first] + parent_bodies(before)).push(body) =~= seq![first] + parent_bodies(
            parents,
        ));
    }
}

/// A commit is read back from its text as it was written.
pub proof fn lemma_commit_round_trip(c: CommitView)
    requires
        clean_commit(c),
    ensures
        parse_commit(commit_text(c)) == Some(c),
{
    let first = tree_header() + c.tree;
    let head = first + seq!['\n'] + parent_lines(c.parents);
    let text = commit_text(c);
    lemma_head_pieces(c.tree, c.parents);
    // The head ends in a line feed, so the empty line is the empty piece after
    // it, and the message follows the next line feed.
    let head_pieces = split(head, '\n');
    let bodies = seq![first] + parent_bodies(c.parents);
    assert(head_pieces == bodies.push(Seq::empty()));
    lemma_split_concat(head, c.message + seq!['\n'], '\n');
    lemma_split_separator(c.message, '\n');
    lemma_split_nonempty(c.message, '\n');
    assert(text =~= head + seq!['\n'] + (c.message + seq!['\n']));
    let message_pieces = split(c.message, '\n');
    let all = split(text, '\n');
    assert(all == head_pieces + message_pieces.push(Seq::empty()));
    assert(all.last().len() == 0);
    let ls = lines(text);
    assert(ls =~= head_pieces + message_pieces);
    let k = 1 + c.parents.len() as int;
    assert(ls[0] == first);
    assert(first.take(5) =~= tree_header());
    assert(first.skip(5) =~= c.tree);
    assert forall|i: int| 0 <= i < c.parents.len() implies ls[1 + i] == parent_header()
        + c.parents[i] by {
        assert(ls[1 + i] == bodies[1 + i]);
        assert(bodies[1 + i] == parent_bodies(c.parents)[i]);
    }
    assert(ls[k].len() == 0) by {
        assert(ls[k] == head_pieces[k]);
    }
    assert forall|i: int| 0 <= i < c.parents.len() implies (parent_header() + c.parents[i]).take(
        7,
    ) == parent_header() && (parent_header() + c.parents[i]).skip(7) == c.parents[i] by {
        assert((parent_header() + c.parents[i]).take(7) =~= parent_header());
        assert((parent_header() + c.parents[i]).skip(7) =~= c.parents[i]);
    }
    assert(leading_parents(ls) =~= c.parents) by {
        if c.parents.len() == 0 {
            assert(ls[1].len() == 0);
        } else if c.parents.len() == 1 {
            assert(ls[1] == parent_header() + c.parents[0]);
            assert(ls[2].len() == 0);
        } else {
            assert(ls[1] == parent_header() + c.parents[0]);
            assert(ls[2] == parent_header() + c.parents[1]);
        }
    }
    assert(ls.skip(k + 1) =~= message_pieces);
    lemma_join_split(c.message, '\n');
}

} // verus!
