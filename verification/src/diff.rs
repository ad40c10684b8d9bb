//! Trees side by side: which paths changed, their differences, and their
//! three-way merge. How two texts differ and how three are merged is the
//! caller's to say: both are handed in as functions.

use crate::data::{get_object, read_object, ObjectKind, Objects, Repository};
use crate::error::Error;
use crate::strmap::{keys_with, StrMap, Table};
use crate::text::string_views;
use vstd::prelude::*;
use vstd::string::*;

verus! {

/// A path and the id of its blob in each of the trees that are compared,
/// the empty id where a tree does not hold the path.
pub type Row = (Seq<char>, Seq<Seq<char>>);

/// `acc` with each of `keys` that it lacks added at the end, in their
/// order.
pub open spec fn merge_keys(acc: Seq<Seq<char>>, keys: Seq<Seq<char>>) -> Seq<Seq<char>>
    decreases keys.len(),
{
    if keys.len() == 0 {
        acc
    } else {
        keys_with(merge_keys(acc, keys.drop_last()), keys.last())
    }
}

/// The paths of all the trees, each once, in the order in which they first
/// occur.
pub open spec fn all_paths(trees: Seq<Table<Seq<char>>>) -> Seq<Seq<char>>
    decreases trees.len(),
{
    if trees.len() == 0 {
        Seq::empty()
    } else {
        merge_keys(all_paths(trees.drop_last()), trees.last().keys)
    }
}

/// The id that `tree` gives `path`, empty where it gives none.
pub open spec fn oid_in(tree: Map<Seq<char>, Seq<char>>, path: Seq<char>) -> Seq<char> {
    if tree.contains_key(path) {
        tree[path]
    } else {
        Seq::empty()
    }
}

/// The row of `path`.
pub open spec fn row_of(trees: Seq<Table<Seq<char>>>, path: Seq<char>) -> Row {
    (path, Seq::new(trees.len(), |i: int| oid_in(trees[i].map, path)))
}

/// One row for each path of the trees.
pub open spec fn compared(trees: Seq<Table<Seq<char>>>) -> Seq<Row> {
    Seq::new(all_paths(trees).len(), |j: int| row_of(trees, all_paths(trees)[j]))
}

/// The tables of a vector of trees.
pub open spec fn tables(trees: Seq<StrMap<String>>) -> Seq<Table<Seq<char>>> {
    Seq::new(trees.len(), |i: int| trees[i].table())
}

/// The views of a vector of rows.
pub open spec fn row_views(rows: Seq<(String, Vec<String>)>) -> Seq<Row> {
    Seq::new(rows.len(), |j: int| (rows[j].0@, string_views(rows[j].1@)))
}

/// The views of a vector of pairs of strings.
pub open spec fn pair_views(pairs: Seq<(String, String)>) -> Seq<(Seq<char>, Seq<char>)> {
    Seq::new(pairs.len(), |j: int| (pairs[j].0@, pairs[j].1@))
}

/// What happened to a path whose blob changed from `from` to `to`.
pub open spec fn action(from: Seq<char>, to: Seq<char>) -> Seq<char> {
    if from.len() == 0 {
        seq!['n', 'e', 'w', ' ', 'f', 'i', 'l', 'e']
    } else if to.len() == 0 {
        seq!['d', 'e', 'l', 'e', 't', 'e', 'd']
    } else {
        seq!['m', 'o', 'd', 'i', 'f', 'i', 'e', 'd']
    }
}

/// The rows whose two ids differ, each with what happened to its path.
pub open spec fn changes(rows: Seq<Row>) -> Seq<(Seq<char>, Seq<char>)>
    decreases rows.len(),
{
    if rows.len() == 0 {
        Seq::empty()
    } else {
        let row = rows.last();
        if row.1[0] == row.1[1] {
            changes(rows.drop_last())
        } else {
            changes(rows.drop_last()).push((row.0, action(row.1[0], row.1[1])))
        }
    }
}

/// The content of the blob `oid`; nothing for the empty id.
pub open spec fn blob_or_empty(objects: Objects, oid: Seq<char>) -> Result<Seq<u8>, Error> {
    if oid.len() == 0 {
        Ok(Seq::empty())
    } else {
        match read_object(objects, oid, Some(ObjectKind::Blob)) {
            Err(e) => Err(e),
            Ok(found) => Ok(found.1),
        }
    }
}

/// Whether every blob that the first `width` ids of a row name can be read,
/// and how the first of them fails that cannot.
pub open spec fn row_inputs(objects: Objects, oids: Seq<Seq<char>>, width: int) -> Result<(), Error>
    decreases width,
{
    if width <= 0 {
        Ok(())
    } else {
        match row_inputs(objects, oids, width - 1) {
            Err(e) => Err(e),
            Ok(_) => match blob_or_empty(objects, oids[width - 1]) {
                Err(e) => Err(e),
                Ok(_) => Ok(()),
            },
        }
    }
}

/// Whether the blobs of every changed row can be read, and how the first
/// fails that cannot.
pub open spec fn diff_inputs(objects: Objects, rows: Seq<Row>) -> Result<(), Error>
    decreases rows.len(),
{
    if rows.len() == 0 {
        Ok(())
    } else {
        match diff_inputs(objects, rows.drop_last()) {
            Err(e) => Err(e),
            Ok(_) => if rows.last().1[0] == rows.last().1[1] {
                Ok(())
            } else {
                row_inputs(objects, rows.last().1, 2)
            },
        }
    }
}

/// Whether `out` is what `diff` made of the changed rows: the fragment of
/// each, one after the other.
pub open spec fn diff_output<F: Fn(&Vec<u8>, &Vec<u8>, &String) -> String>(
    objects: Objects,
    rows: Seq<Row>,
    diff: F,
    out: Seq<char>,
) -> bool
    decreases rows.len(),
{
    if rows.len() == 0 {
        out.len() == 0
    } else if rows.last().1[0] == rows.last().1[1] {
        diff_output(objects, rows.drop_last(), diff, out)
    } else {
        exists|before: Seq<char>, from: Vec<u8>, to: Vec<u8>, path: String, fragment: String|
            #![trigger before + fragment@, diff.ensures((&from, &to, &path), fragment)]
            {
                &&& diff_output(objects, rows.drop_last(), diff, before)
                &&& blob_or_empty(objects, rows.last().1[0]) == Ok::<_, Error>(from@)
                &&& blob_or_empty(objects, rows.last().1[1]) == Ok::<_, Error>(to@)
                &&& path@ == rows.last().0
                &&& diff.ensures((&from, &to, &path), fragment)
                &&& out == before + fragment@
            }
    }
}

/// Whether the blobs of every row can be read, and how the first fails that
/// cannot.
pub open spec fn merge_inputs(objects: Objects, rows: Seq<Row>) -> Result<(), Error>
    decreases rows.len(),
{
    if rows.len() == 0 {
        Ok(())
    } else {
        match merge_inputs(objects, rows.drop_last()) {
            Err(e) => Err(e),
            Ok(_) => row_inputs(objects, rows.last().1, 3),
        }
    }
}

/// Whether `out` is what `merge3` made of the rows: for each path, what it
/// gave for the path's content in the base, in ours and in theirs.
pub open spec fn merge_output<F: Fn(&Vec<u8>, &Vec<u8>, &Vec<u8>) -> Vec<u8>>(
    objects: Objects,
    rows: Seq<Row>,
    merge3: F,
    out: Table<Seq<u8>>,
) -> bool
    decreases rows.len(),
{
    if rows.len() == 0 {
        out == Table::<Seq<u8>>::empty()
    } else {
        exists|before: Table<Seq<u8>>, base: Vec<u8>, ours: Vec<u8>, theirs: Vec<u8>, merged: Vec<u8>|
            #![trigger before.insert(rows.last().0, merged@), merge3.ensures((&base, &ours, &theirs), merged)]
            {
                &&& merge_output(objects, rows.drop_last(), merge3, before)
                &&& blob_or_empty(objects, rows.last().1[0]) == Ok::<_, Error>(base@)
                &&& blob_or_empty(objects, rows.last().1[1]) == Ok::<_, Error>(ours@)
                &&& blob_or_empty(objects, rows.last().1[2]) == Ok::<_, Error>(theirs@)
                &&& merge3.ensures((&base, &ours, &theirs), merged)
                &&& out == before.insert(rows.last().0, merged@)
            }
    }
}

/// Rows whose blobs cannot be read fail with every row after them.
pub proof fn lemma_diff_inputs_fails(objects: Objects, rows: Seq<Row>, n: int)
    requires
        0 <= n <= rows.len(),
        diff_inputs(objects, rows.take(n)) is Err,
    ensures
        diff_inputs(objects, rows) == diff_inputs(objects, rows.take(n)),
    decreases rows.len() - n,
{
    if n < rows.len() {
        assert(rows.take(n + 1).drop_last() == rows.take(n));
        lemma_diff_inputs_fails(objects, rows, n + 1);
    } else {
        assert(rows.take(n) == rows);
    }
}

/// Rows whose blobs cannot be read fail with every row after them.
pub proof fn lemma_merge_inputs_fails(objects: Objects, rows: Seq<Row>, n: int)
    requires
        0 <= n <= rows.len(),
        merge_inputs(objects, rows.take(n)) is Err,
    ensures
        merge_inputs(objects, rows) == merge_inputs(objects, rows.take(n)),
    decreases rows.len() - n,
{
    if n < rows.len() {
        assert(rows.take(n + 1).drop_last() == rows.take(n));
        lemma_merge_inputs_fails(objects, rows, n + 1);
    } else {
        assert(rows.take(n) == rows);
    }
}

/// The trees side by side: a row for each path that any of them holds, in
/// the order in which the paths first occur, with the path's blob in each
/// tree.
pub fn compare_trees(trees: &Vec<StrMap<String>>) -> (rows: Vec<(String, Vec<String>)>)
    ensures
        row_views(rows@) == compared(tables(trees@)),
{
    let ghost all = tables(trees@);
    let mut paths: StrMap<bool> = StrMap::new();
    let mut t: usize = 0;
    assert(all.take(0) =~= Seq::empty());
    while t < trees.len()
        invariant
            t <= trees.len(),
            all == tables(trees@),
            paths.keys() == all_paths(all.take(t as int)),
        decreases trees.len() - t,
    {
        let tree = &trees[t];
        let n = tree.len();
        let ghost start = paths.keys();
        let mut k: usize = 0;
        assert(tree.keys().take(0) =~= Seq::empty());
        while k < n
            invariant
                k <= n == tree.keys().len(),
                paths.keys() == merge_keys(start, tree.keys().take(k as int)),
            decreases n - k,
        {
            paths.insert(tree.key_at(k).clone(), true);
            proof {
                let keys = tree.keys();
                assert(keys.take(k + 1).drop_last() == keys.take(k as int));
                assert(keys.take(k + 1).last() == keys[k as int]);
            }
            k += 1;
        }
        proof {
            assert(tree.keys().take(n as int) == tree.keys());
            assert(all.take(t + 1).drop_last() == all.take(t as int));
            assert(all.take(t + 1).last() == tree.table());
        }
        t += 1;
    }
    assert(all.take(trees@.len() as int) == all);
    let mut rows: Vec<(String, Vec<String>)> = Vec::new();
    let count = paths.len();
    let mut j: usize = 0;
    while j < count
        invariant
            j <= count == paths.keys().len(),
            all == tables(trees@),
            paths.keys() == all_paths(all),
            rows@.len() == j,
            forall|m: int| 0 <= m < j ==> (#[trigger] row_views(rows@)[m]) == row_of(all, paths.keys()[m]),
        decreases count - j,
    {
        let path = paths.key_at(j);
        let mut oids: Vec<String> = Vec::new();
        let mut i: usize = 0;
        while i < trees.len()
            invariant
                i <= trees.len(),
                all == tables(trees@),
                oids@.len() == i,
                forall|m: int| 0 <= m < i ==> (#[trigger] oids@[m])@ == oid_in(all[m].map, path@),
            decreases trees.len() - i,
        {
            let oid = match trees[i].get(path.as_str()) {
                Some(oid) => oid.clone(),
                None => String::new(),
            };
            oids.push(oid);
            i += 1;
        }
        assert(string_views(oids@) =~= row_of(all, path@).1);
        let ghost before = row_views(rows@);
        rows.push((path.clone(), oids));
        assert forall|m: int| 0 <= m < j + 1 implies (#[trigger] row_views(rows@)[m]) == row_of(
            all,
            paths.keys()[m],
        ) by {
            if m < j {
                assert(row_views(rows@)[m] == before[m]);
            }
        }
        j += 1;
    }
    assert(row_views(rows@) =~= compared(all));
    rows
}

/// The paths whose blob differs between the two trees, each with what
/// happened to it: `new file`, `deleted` or `modified`.
pub fn changed_files(t_from: StrMap<String>, t_to: StrMap<String>) -> (out: Vec<(String, String)>)
    ensures
        pair_views(out@) == changes(compared(seq![t_from.table(), t_to.table()])),
{
    let mut trees: Vec<StrMap<String>> = Vec::new();
    trees.push(t_from);
    trees.push(t_to);
    assert(tables(trees@) =~= seq![t_from.table(), t_to.table()]);
    let rows = compare_trees(&trees);
    let ghost all = row_views(rows@);
    let mut out: Vec<(String, String)> = Vec::new();
    let mut j: usize = 0;
    assert(all.take(0) =~= Seq::empty());
    assert(pair_views(out@) =~= Seq::empty());
    while j < rows.len()
        invariant
            j <= rows.len(),
            all == row_views(rows@),
            all == compared(tables(trees@)),
            trees@.len() == 2,
            pair_views(out@) == changes(all.take(j as int)),
        decreases rows.len() - j,
    {
        let row = &rows[j];
        proof {
            assert(all.take(j + 1).drop_last() == all.take(j as int));
            assert(all.take(j + 1).last() == all[j as int]);
            assert(all.len() == all_paths(tables(trees@)).len());
            assert(all[j as int] == row_of(tables(trees@), all_paths(tables(trees@))[j as int]));
            assert(all[j as int].1 == string_views(row.1@));
            assert(string_views(row.1@).len() == tables(trees@).len());
            assert(row.1@.len() == 2);
            assert(all[j as int].1[0] == row.1@[0]@);
            assert(all[j as int].1[1] == row.1@[1]@);
        }
        let from = &row.1[0];
        let to = &row.1[1];
        if !from.as_str().eq(to.as_str()) {
            proof {
                reveal_strlit("new file");
                reveal_strlit("deleted");
                reveal_strlit("modified");
                assert("new file"@ =~= seq!['n', 'e', 'w', ' ', 'f', 'i', 'l', 'e']);
                assert("deleted"@ =~= seq!['d', 'e', 'l', 'e', 't', 'e', 'd']);
                assert("modified"@ =~= seq!['m', 'o', 'd', 'i', 'f', 'i', 'e', 'd']);
            }
            let what = if from.as_str().is_empty() {
                "new file"
            } else if to.as_str().is_empty() {
                "deleted"
            } else {
                "modified"
            };
            let ghost before = pair_views(out@);
            out.push((row.0.clone(), what.to_owned()));
            assert(pair_views(out@) =~= before.push((row.0@, action(from@, to@))));
        }
        j += 1;
    }
    assert(all.take(rows@.len() as int) == all);
    out
}

/// The content of the blob `oid`; nothing for the empty id.
pub fn read_blob(repo: &Repository, oid: &String) -> (r: Result<Vec<u8>, Error>)
    ensures
        match r {
            Ok(content) => blob_or_empty(repo.objects@, oid@) == Ok::<_, Error>(content@),
            Err(e) => blob_or_empty(repo.objects@, oid@) == Err::<Seq<u8>, _>(e),
        },
{
    if oid.as_str().is_empty() {
        return Ok(Vec::new());
    }
    match get_object(repo, oid.clone(), Some(ObjectKind::Blob)) {
        Err(e) => Err(e),
        Ok(found) => Ok(found.1),
    }
}

/// The differences between two trees: for each path whose blob differs,
/// what `diff` makes of the old content, the new content and the path, one
/// after the other. A path that a tree lacks has no content there.
pub fn diff_trees<F: Fn(&Vec<u8>, &Vec<u8>, &String) -> String>(
    repo: &Repository,
    t_from: StrMap<String>,
    t_to: StrMap<String>,
    diff: &F,
) -> (r: Result<String, Error>)
    requires
        forall|from: &Vec<u8>, to: &Vec<u8>, path: &String| #[trigger] diff.requires((from, to, path)),
    ensures
        match r {
            Ok(out) => {
                &&& diff_inputs(repo.objects@, compared(seq![t_from.table(), t_to.table()])) is Ok
                &&& diff_output(
                    repo.objects@,
                    compared(seq![t_from.table(), t_to.table()]),
                    *diff,
                    out@,
                )
            },
            Err(e) => diff_inputs(repo.objects@, compared(seq![t_from.table(), t_to.table()]))
                == Err::<(), _>(e),
        },
{
    let mut trees: Vec<StrMap<String>> = Vec::new();
    trees.push(t_from);
    trees.push(t_to);
    assert(tables(trees@) =~= seq![t_from.table(), t_to.table()]);
    let rows = compare_trees(&trees);
    let ghost all = row_views(rows@);
    let mut out = String::new();
    let mut j: usize = 0;
    assert(all.take(0) =~= Seq::empty());
    while j < rows.len()
        invariant
            j <= rows.len(),
            all == row_views(rows@),
            all == compared(tables(trees@)),
            tables(trees@) == seq![t_from.table(), t_to.table()],
            trees@.len() == 2,
            forall|from: &Vec<u8>, to: &Vec<u8>, path: &String| #[trigger] diff.requires((from, to, path)),
            diff_inputs(repo.objects@, all.take(j as int)) is Ok,
            diff_output(repo.objects@, all.take(j as int), *diff, out@),
        decreases rows.len() - j,
    {
        let row = &rows[j];
        proof {
            assert(all.take(j + 1).drop_last() == all.take(j as int));
            assert(all.take(j + 1).last() == all[j as int]);
            assert(all.len() == all_paths(tables(trees@)).len());
            assert(all[j as int] == row_of(tables(trees@), all_paths(tables(trees@))[j as int]));
            assert(all[j as int].1 == string_views(row.1@));
            assert(string_views(row.1@).len() == tables(trees@).len());
            assert(row.1@.len() == 2);
            assert(all[j as int].1[0] == row.1@[0]@);
            assert(all[j as int].1[1] == row.1@[1]@);
            assert(row_inputs(repo.objects@, all[j as int].1, 0) is Ok);
        }
        if !row.1[0].as_str().eq(row.1[1].as_str()) {
            let from = match read_blob(repo, &row.1[0]) {
                Ok(from) => from,
                Err(e) => {
                    proof {
                        assert(row_inputs(repo.objects@, all[j as int].1, 1) == Err::<(), _>(e));
                        lemma_diff_inputs_fails(repo.objects@, all, j + 1);
                    }
                    return Err(e);
                },
            };
            let to = match read_blob(repo, &row.1[1]) {
                Ok(to) => to,
                Err(e) => {
                    proof {
                        assert(row_inputs(repo.objects@, all[j as int].1, 1) is Ok);
                        lemma_diff_inputs_fails(repo.objects@, all, j + 1);
                    }
                    return Err(e);
                },
            };
            let ghost before = out@;
            let fragment = diff(&from, &to, &row.0);
            out.append(fragment.as_str());
            proof {
                let upto = all.take(j + 1);
                assert(row_inputs(repo.objects@, all[j as int].1, 1) is Ok);
                assert(diff_output(repo.objects@, upto.drop_last(), *diff, before));
                assert((*diff).ensures((&from, &to, &row.0), fragment));
                assert(upto.last().1[0] != upto.last().1[1]);
                assert(blob_or_empty(repo.objects@, upto.last().1[0]) == Ok::<_, Error>(from@));
                assert(blob_or_empty(repo.objects@, upto.last().1[1]) == Ok::<_, Error>(to@));
                assert(row.0@ == upto.last().0);
                assert(out@ == before + fragment@);
                assert(diff_output(repo.objects@, upto, *diff, out@));
            }
        }
        j += 1;
    }
    assert(all.take(rows@.len() as int) == all);
    Ok(out)
}

/// The three-way merge of three trees: for each path that any of them
/// holds, what `merge3` makes of the path's content in the base, in ours
/// and in theirs. A path that a tree lacks has no content there.
pub fn merge_trees<F: Fn(&Vec<u8>, &Vec<u8>, &Vec<u8>) -> Vec<u8>>(
    repo: &Repository,
    t_base: StrMap<String>,
    t_head: StrMap<String>,
    t_other: StrMap<String>,
    merge3: &F,
) -> (r: Result<StrMap<Vec<u8>>, Error>)
    requires
        forall|base: &Vec<u8>, ours: &Vec<u8>, theirs: &Vec<u8>| #[trigger] merge3.requires((base, ours, theirs)),
    ensures
        match r {
            Ok(out) => {
                &&& merge_inputs(
                    repo.objects@,
                    compared(seq![t_base.table(), t_head.table(), t_other.table()]),
                ) is Ok
                &&& merge_output(
                    repo.objects@,
                    compared(seq![t_base.table(), t_head.table(), t_other.table()]),
                    *merge3,
                    out.table(),
                )
            },
            Err(e) => merge_inputs(
                repo.objects@,
                compared(seq![t_base.table(), t_head.table(), t_other.table()]),
            ) == Err::<(), _>(e),
        },
{
    let mut trees: Vec<StrMap<String>> = Vec::new();
    trees.push(t_base);
    trees.push(t_head);
    trees.push(t_other);
    assert(tables(trees@) =~= seq![t_base.table(), t_head.table(), t_other.table()]);
    let rows = compare_trees(&trees);
    let ghost all = row_views(rows@);
    let mut out: StrMap<Vec<u8>> = StrMap::new();
    let mut j: usize = 0;
    assert(all.take(0) =~= Seq::empty());
    while j < rows.len()
        invariant
            j <= rows.len(),
            all == row_views(rows@),
            all == compared(tables(trees@)),
            tables(trees@) == seq![t_base.table(), t_head.table(), t_other.table()],
            trees@.len() == 3,
            forall|base: &Vec<u8>, ours: &Vec<u8>, theirs: &Vec<u8>| #[trigger] merge3.requires((base, ours, theirs)),
            merge_inputs(repo.objects@, all.take(j as int)) is Ok,
            merge_output(repo.objects@, all.take(j as int), *merge3, out.table()),
        decreases rows.len() - j,
    {
        let row = &rows[j];
        proof {
            assert(all.take(j + 1).drop_last() == all.take(j as int));
            assert(all.take(j + 1).last() == all[j as int]);
            assert(all.len() == all_paths(tables(trees@)).len());
            assert(all[j as int] == row_of(tables(trees@), all_paths(tables(trees@))[j as int]));
            assert(all[j as int].1 == string_views(row.1@));
            assert(string_views(row.1@).len() == tables(trees@).len());
            assert(row.1@.len() == 3);
            assert(all[j as int].1[0] == row.1@[0]@);
            assert(all[j as int].1[1] == row.1@[1]@);
            assert(all[j as int].1[2] == row.1@[2]@);
            assert(row_inputs(repo.objects@, all[j as int].1, 0) is Ok);
        }
        let base = match read_blob(repo, &row.1[0]) {
            Ok(base) => base,
            Err(e) => {
                proof {
                    assert(row_inputs(repo.objects@, all[j as int].1, 1) == Err::<(), _>(e));
                    assert(row_inputs(repo.objects@, all[j as int].1, 2) == Err::<(), _>(e));
                    lemma_merge_inputs_fails(repo.objects@, all, j + 1);
                }
                return Err(e);
            },
        };
        assert(row_inputs(repo.objects@, all[j as int].1, 1) is Ok);
        let ours = match read_blob(repo, &row.1[1]) {
            Ok(ours) => ours,
            Err(e) => {
                proof {
                    assert(row_inputs(repo.objects@, all[j as int].1, 2) == Err::<(), _>(e));
                    lemma_merge_inputs_fails(repo.objects@, all, j + 1);
                }
                return Err(e);
            },
        };
        assert(row_inputs(repo.objects@, all[j as int].1, 2) is Ok);
        let theirs = match read_blob(repo, &row.1[2]) {
            Ok(theirs) => theirs,
            Err(e) => {
                proof {
                    lemma_merge_inputs_fails(repo.objects@, all, j + 1);
                }
                return Err(e);
            },
        };
        let ghost before = out.table();
        let merged = merge3(&base, &ours, &theirs);
        out.insert(row.0.clone(), merged.clone());
        proof {
            let upto = all.take(j + 1);
            assert(merge_output(repo.objects@, upto.drop_last(), *merge3, before));
            assert((*merge3).ensures((&base, &ours, &theirs), merged));
            assert(blob_or_empty(repo.objects@, upto.last().1[0]) == Ok::<_, Error>(base@));
            assert(blob_or_empty(repo.objects@, upto.last().1[1]) == Ok::<_, Error>(ours@));
            assert(blob_or_empty(repo.objects@, upto.last().1[2]) == Ok::<_, Error>(theirs@));
            assert(out.table() == before.insert(upto.last().0, merged@));
            assert(merge_output(repo.objects@, upto, *merge3, out.table()));
        }
        j += 1;
    }
    assert(all.take(rows@.len() as int) == all);
    Ok(out)
}

} // verus!
