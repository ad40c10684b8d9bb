//! Exchange between two repositories: fetching the branches of another
//! repository with their history, and pushing a branch to it.

use crate::base::{
    ancestors, get_commit, heads_dir, iter_commits_and_parents, read_commit, stored_entries,
    tree_entries,
};
use crate::data::{
    get_ref, get_ref_internal, iter_refs, list_refs, listing, lookup, ref_value, update_ref,
    updated, Objects, RefValue, RefView, Refs, Repository,
};
use crate::error::Error;
use crate::strmap::{StrMap, Table};
use crate::text::{chars_of, has_prefix, starts_with_at, string_of, string_views, text_in};
use crate::tree::{entry_views, tree_word, EntryView};
use std::collections::VecDeque;
use vstd::prelude::*;
use vstd::string::*;

verus! {

/// The prefix of the references that mirror another repository's branches.
pub open spec fn remote_dir() -> Seq<char> {
    seq!['r', 'e', 'f', 's', '/', 'r', 'e', 'm', 'o', 't', 'e', '/']
}

/// The name and value of each listed reference, as a table.
pub open spec fn values_of(listed: Seq<(Seq<char>, RefView)>) -> Table<Seq<char>>
    decreases listed.len(),
{
    if listed.len() == 0 {
        Table::empty()
    } else {
        values_of(listed.drop_last()).insert(listed.last().0, listed.last().1.value)
    }
}

/// The references of another repository under `prefix`, each with the
/// value it leads to.
pub open spec fn remote_refs(refs: Refs, keys: Seq<Seq<char>>, prefix: Seq<char>) -> Result<
    Table<Seq<char>>,
    Error,
> {
    match list_refs(refs, keys, prefix, true) {
        Err(e) => Err(e),
        Ok(listed) => Ok(values_of(listed)),
    }
}

/// The references of `remote` whose name begins with `prefix`, each with
/// the value it leads to.
pub fn get_remote_refs(remote: &Repository, prefix: &str) -> (r: Result<StrMap<String>, Error>)
    ensures
        match r {
            Ok(refs) => remote_refs(remote.refs@, remote.refs.keys(), prefix@) == Ok::<_, Error>(
                refs.table(),
            ),
            Err(e) => remote_refs(remote.refs@, remote.refs.keys(), prefix@) == Err::<
                Table<Seq<char>>,
                _,
            >(e),
        },
{
    let listed = match iter_refs(remote, prefix, true) {
        Ok(listed) => listed,
        Err(e) => {
            return Err(e);
        },
    };
    let ghost all = listing(listed@);
    let mut refs: StrMap<String> = StrMap::new();
    let mut i: usize = 0;
    assert(all.take(0) =~= Seq::empty());
    while i < listed.len()
        invariant
            i <= listed.len(),
            all == listing(listed@),
            refs.table() == values_of(all.take(i as int)),
        decreases listed.len() - i,
    {
        proof {
            assert(all.take(i + 1).drop_last() == all.take(i as int));
            assert(all.take(i + 1).last() == all[i as int]);
        }
        refs.insert(listed[i].0.clone(), listed[i].1.value.clone());
        i += 1;
    }
    assert(all.take(listed@.len() as int) == all);
    Ok(refs)
}

/// The tree `oid` and every object below it, in the order in which the
/// trees list them, to a depth of `depth` trees below it.
pub open spec fn tree_objects(objects: Objects, oid: Seq<char>, depth: nat) -> Result<
    Seq<Seq<char>>,
    Error,
>
    decreases depth, 1int, 0int,
{
    match stored_entries(objects, oid) {
        Err(e) => Err(e),
        Ok(es) => entries_objects(objects, seq![oid], es, depth),
    }
}

/// `acc` with the objects of the entries `es`: a tree with all below it,
/// any other entry by its id.
pub open spec fn entries_objects(
    objects: Objects,
    acc: Seq<Seq<char>>,
    es: Seq<EntryView>,
    depth: nat,
) -> Result<Seq<Seq<char>>, Error>
    decreases depth, 0int, es.len(),
{
    if es.len() == 0 {
        Ok(acc)
    } else {
        match entries_objects(objects, acc, es.drop_last(), depth) {
            Err(e) => Err(e),
            Ok(before) => if es.last().2 == tree_word() {
                if depth == 0 {
                    Err(Error::Malformed)
                } else {
                    match tree_objects(objects, es.last().1, (depth - 1) as nat) {
                        Err(e) => Err(e),
                        Ok(below) => Ok(before + below),
                    }
                }
            } else {
                Ok(before.push(es.last().1))
            },
        }
    }
}

/// `acc` with each of `commits` and the objects of its tree.
pub open spec fn commits_objects(objects: Objects, commits: Seq<Seq<char>>) -> Result<
    Seq<Seq<char>>,
    Error,
>
    decreases commits.len(),
{
    if commits.len() == 0 {
        Ok(Seq::empty())
    } else {
        match commits_objects(objects, commits.drop_last()) {
            Err(e) => Err(e),
            Ok(before) => match read_commit(objects, commits.last()) {
                Err(e) => Err(e),
                Ok(c) => match tree_objects(objects, c.tree, objects.dom().len()) {
                    Err(e) => Err(e),
                    Ok(below) => Ok(before.push(commits.last()) + below),
                },
            },
        }
    }
}

/// Every object that the history of `oids` needs: each commit reached from
/// them, with its tree and all below it.
pub open spec fn objects_in_commits(objects: Objects, oids: Seq<Seq<char>>) -> Result<
    Seq<Seq<char>>,
    Error,
> {
    match ancestors(objects, oids) {
        Err(e) => Err(e),
        Ok(commits) => commits_objects(objects, commits),
    }
}

/// Whether each of `oids` is stored in one of the two stores.
pub open spec fn all_stored(to: Objects, from: Objects, oids: Seq<Seq<char>>) -> bool {
    forall|i: int| 0 <= i < oids.len() ==> to.contains_key(#[trigger] oids[i]) || from.contains_key(
        oids[i],
    )
}

/// `to` with each of `oids` that it lacks copied from `from`.
pub open spec fn with_copies(to: Objects, from: Objects, oids: Seq<Seq<char>>) -> Objects
    decreases oids.len(),
{
    if oids.len() == 0 {
        to
    } else {
        let before = with_copies(to, from, oids.drop_last());
        if before.contains_key(oids.last()) || !from.contains_key(oids.last()) {
            before
        } else {
            before.insert(oids.last(), from[oids.last()])
        }
    }
}

/// Entries whose objects cannot be listed fail with every entry after
/// them.
proof fn lemma_entries_objects_fails(
    objects: Objects,
    acc: Seq<Seq<char>>,
    es: Seq<EntryView>,
    n: int,
    depth: nat,
)
    requires
        0 <= n <= es.len(),
        entries_objects(objects, acc, es.take(n), depth) is Err,
    ensures
        entries_objects(objects, acc, es, depth) == entries_objects(objects, acc, es.take(n), depth),
    decreases es.len() - n,
{
    if n < es.len() {
        assert(es.take(n + 1).drop_last() == es.take(n));
        lemma_entries_objects_fails(objects, acc, es, n + 1, depth);
    } else {
        assert(es.take(n) == es);
    }
}

/// Commits whose objects cannot be listed fail with every commit after
/// them.
proof fn lemma_commits_objects_fails(objects: Objects, commits: Seq<Seq<char>>, n: int)
    requires
        0 <= n <= commits.len(),
        commits_objects(objects, commits.take(n)) is Err,
    ensures
        commits_objects(objects, commits) == commits_objects(objects, commits.take(n)),
    decreases commits.len() - n,
{
    if n < commits.len() {
        assert(commits.take(n + 1).drop_last() == commits.take(n));
        lemma_commits_objects_fails(objects, commits, n + 1);
    } else {
        assert(commits.take(n) == commits);
    }
}

fn tree_objects_into(repo: &Repository, out: &mut Vec<String>, oid: String, depth: usize) -> (r:
    Result<(), Error>)
    ensures
        match r {
            Ok(_) => tree_objects(repo.objects@, oid@, depth as nat) matches Ok(below)
                && string_views(final(out)@) == string_views(old(out)@) + below,
            Err(e) => tree_objects(repo.objects@, oid@, depth as nat) == Err::<Seq<Seq<char>>, _>(
                e,
            ),
        },
    decreases depth,
{
    let entries = match tree_entries(repo, oid.clone()) {
        Ok(entries) => entries,
        Err(e) => {
            return Err(e);
        },
    };
    let ghost es = entry_views(entries@);
    let ghost start = string_views(out@);
    out.push(oid);
    assert(string_views(out@) =~= start + seq![oid@]);
    let mut i: usize = 0;
    assert(es.take(0) =~= Seq::empty());
    while i < entries.len()
        invariant
            i <= entries.len(),
            es == entry_views(entries@),
            start == string_views(old(out)@),
            stored_entries(repo.objects@, oid@) == Ok::<_, Error>(es),
            entries_objects(repo.objects@, seq![oid@], es.take(i as int), depth as nat) matches Ok(
                listed,
            ) && string_views(out@) == start + listed,
        decreases entries.len() - i,
    {
        let e = &entries[i];
        let ghost before = entries_objects(
            repo.objects@,
            seq![oid@],
            es.take(i as int),
            depth as nat,
        )->Ok_0;
        proof {
            reveal_strlit("tree");
            assert("tree"@ =~= tree_word());
            assert(es.take(i + 1).drop_last() == es.take(i as int));
            assert(es.take(i + 1).last() == e@);
        }
        if e.kind.as_str().eq("tree") {
            if depth == 0 {
                proof {
                    lemma_entries_objects_fails(repo.objects@, seq![oid@], es, i + 1, depth as nat);
                }
                return Err(Error::Malformed);
            }
            match tree_objects_into(repo, out, e.oid.clone(), depth - 1) {
                Ok(_) => {
                    proof {
                        let below = tree_objects(repo.objects@, e@.1, (depth - 1) as nat)->Ok_0;
                        assert(start + before + below =~= start + (before + below));
                    }
                },
                Err(err) => {
                    proof {
                        lemma_entries_objects_fails(
                            repo.objects@,
                            seq![oid@],
                            es,
                            i + 1,
                            depth as nat,
                        );
                    }
                    return Err(err);
                },
            }
        } else {
            let ghost listed = string_views(out@);
            out.push(e.oid.clone());
            assert(string_views(out@) =~= listed.push(e@.1));
            assert(listed.push(e@.1) =~= start + before.push(e@.1));
        }
        i += 1;
    }
    assert(es.take(entries@.len() as int) == es);
    Ok(())
}

/// Every object that the history of `oids` needs: each commit reached from
/// them, followed by its tree and all that is below it.
pub fn iter_objects_in_commits(repo: &Repository, oids: VecDeque<String>) -> (r: Result<
    Vec<String>,
    Error,
>)
    ensures
        match r {
            Ok(out) => objects_in_commits(repo.objects@, string_views(oids@)) == Ok::<_, Error>(
                string_views(out@),
            ),
            Err(e) => objects_in_commits(repo.objects@, string_views(oids@)) == Err::<
                Seq<Seq<char>>,
                _,
            >(e),
        },
{
    let commits = match iter_commits_and_parents(repo, oids) {
        Ok(commits) => commits,
        Err(e) => {
            return Err(e);
        },
    };
    let ghost all = string_views(commits@);
    let depth = repo.objects.len();
    let mut out: Vec<String> = Vec::new();
    let mut i: usize = 0;
    assert(all.take(0) =~= Seq::empty());
    assert(string_views(out@) =~= Seq::empty());
    while i < commits.len()
        invariant
            i <= commits.len(),
            all == string_views(commits@),
            depth == repo.objects@.dom().len(),
            ancestors(repo.objects@, string_views(oids@)) == Ok::<_, Error>(all),
            commits_objects(repo.objects@, all.take(i as int)) == Ok::<_, Error>(
                string_views(out@),
            ),
        decreases commits.len() - i,
    {
        proof {
            assert(all.take(i + 1).drop_last() == all.take(i as int));
            assert(all.take(i + 1).last() == commits@[i as int]@);
        }
        let commit = match get_commit(repo, commits[i].clone()) {
            Ok(commit) => commit,
            Err(e) => {
                proof {
                    lemma_commits_objects_fails(repo.objects@, all, i + 1);
                }
                return Err(e);
            },
        };
        let ghost before = string_views(out@);
        out.push(commits[i].clone());
        assert(string_views(out@) =~= before.push(commits@[i as int]@));
        match tree_objects_into(repo, &mut out, commit.tree, depth) {
            Ok(_) => {},
            Err(e) => {
                proof {
                    lemma_commits_objects_fails(repo.objects@, all, i + 1);
                }
                return Err(e);
            },
        }
        i += 1;
    }
    assert(all.take(commits@.len() as int) == all);
    Ok(out)
}

/// Copies to `to` every object that the history of `oids` in `from` needs
/// and that `to` lacks. Fails, with nothing copied, where that history
/// cannot be read or names an object that neither store holds.
pub fn copy_objects_in_commits_and_parents(
    from: &Repository,
    to: &mut Repository,
    oids: VecDeque<String>,
) -> (r: Result<(), Error>)
    ensures
        final(to).refs == old(to).refs,
        match objects_in_commits(from.objects@, string_views(oids@)) {
            Err(e) => r == Err::<(), _>(e) && final(to).objects == old(to).objects,
            Ok(needed) => if all_stored(old(to).objects@, from.objects@, needed) {
                r is Ok && final(to).objects@ == with_copies(
                    old(to).objects@,
                    from.objects@,
                    needed,
                )
            } else {
                r == Err::<(), _>(Error::NotFound) && final(to).objects == old(to).objects
            },
        },
{
    let needed = match iter_objects_in_commits(from, oids) {
        Ok(needed) => needed,
        Err(e) => {
            return Err(e);
        },
    };
    let ghost all = string_views(needed@);
    let mut i: usize = 0;
    while i < needed.len()
        invariant
            i <= needed.len(),
            all == string_views(needed@),
            objects_in_commits(from.objects@, string_views(oids@)) == Ok::<_, Error>(all),
            to.objects == old(to).objects,
            to.refs == old(to).refs,
            forall|j: int|
                0 <= j < i ==> old(to).objects@.contains_key(#[trigger] all[j])
                    || from.objects@.contains_key(all[j]),
        decreases needed.len() - i,
    {
        if !to.objects.contains_key(needed[i].as_str()) && !from.objects.contains_key(
            needed[i].as_str(),
        ) {
            assert(!(old(to).objects@.contains_key(all[i as int]) || from.objects@.contains_key(
                all[i as int],
            )));
            return Err(Error::NotFound);
        }
        i += 1;
    }
    assert(all_stored(old(to).objects@, from.objects@, all));
    let mut i: usize = 0;
    assert(all.take(0) =~= Seq::empty());
    while i < needed.len()
        invariant
            i <= needed.len(),
            all == string_views(needed@),
            to.refs == old(to).refs,
            to.objects@ == with_copies(old(to).objects@, from.objects@, all.take(i as int)),
        decreases needed.len() - i,
    {
        proof {
            assert(all.take(i + 1).drop_last() == all.take(i as int));
            assert(all.take(i + 1).last() == needed@[i as int]@);
        }
        if !to.objects.contains_key(needed[i].as_str()) {
            match from.objects.get(needed[i].as_str()) {
                Some(raw) => {
                    to.objects.insert(needed[i].clone(), raw.clone());
                },
                None => {},
            }
        }
        i += 1;
    }
    assert(all.take(needed@.len() as int) == all);
    Ok(())
}

/// `name` without every `prefix` that it begins with.
pub open spec fn trimmed(name: Seq<char>, prefix: Seq<char>) -> Seq<char>
    decreases name.len(),
{
    if prefix.len() > 0 && has_prefix(name, prefix) {
        trimmed(name.skip(prefix.len() as int), prefix)
    } else {
        name
    }
}

/// `name` without every `prefix` that it begins with.
pub fn trim_start(name: &str, prefix: &str) -> (out: String)
    ensures
        out@ == trimmed(name@, prefix@),
{
    let chars = chars_of(name);
    let mark = chars_of(prefix);
    let mut at: usize = 0;
    assert(chars@.skip(0) == chars@);
    while mark.len() > 0 && starts_with_at(&chars, at, &mark)
        invariant
            at <= chars.len(),
            chars@ == name@,
            mark@ == prefix@,
            trimmed(name@, prefix@) == trimmed(chars@.skip(at as int), prefix@),
        decreases chars.len() - at,
    {
        assert(chars@.skip(at as int).skip(mark@.len() as int) == chars@.skip(at + mark@.len()));
        at += mark.len();
    }
    assert(chars@.subrange(at as int, chars@.len() as int) == chars@.skip(at as int));
    string_of(&chars, at, chars.len())
}

/// The references after each branch of `branches` was mirrored: the
/// reference `refs/remote/` and the branch's name holds the branch's value.
pub open spec fn mirrored(refs: Table<Seq<char>>, branches: Table<Seq<char>>, n: int) -> Result<
    Table<Seq<char>>,
    Error,
>
    decreases n,
{
    if n <= 0 {
        Ok(refs)
    } else {
        match mirrored(refs, branches, n - 1) {
            Err(e) => Err(e),
            Ok(before) => updated(
                before,
                remote_dir() + trimmed(branches.keys[n - 1], heads_dir()),
                RefView { value: branches.map[branches.keys[n - 1]], symbolic: false },
                true,
            ),
        }
    }
}

/// What fetching gives: the objects with the history of the other side's
/// branches, and the references with those branches mirrored.
pub open spec fn fetched(
    objects: Objects,
    refs: Table<Seq<char>>,
    other_objects: Objects,
    other_refs: Table<Seq<char>>,
) -> Result<(Objects, Table<Seq<char>>), Error> {
    match remote_refs(other_refs.map, other_refs.keys, heads_dir()) {
        Err(e) => Err(e),
        Ok(branches) => match mirrored(refs, branches, branches.keys.len() as int) {
            Err(e) => Err(e),
            Ok(mirror) => match objects_in_commits(
                other_objects,
                Seq::new(branches.keys.len(), |i: int| branches.map[branches.keys[i]]),
            ) {
                Err(e) => Err(e),
                Ok(needed) => if all_stored(objects, other_objects, needed) {
                    Ok((with_copies(objects, other_objects, needed), mirror))
                } else {
                    Err(Error::NotFound)
                },
            },
        },
    }
}

/// A copy of the references.
fn copy_of(refs: &StrMap<String>) -> (out: StrMap<String>)
    ensures
        out.table() == refs.table(),
{
    let mut out: StrMap<String> = StrMap::new();
    let n = refs.len();
    let mut i: usize = 0;
    while i < n
        invariant
            i <= n == refs.keys().len(),
            refs.keys().no_duplicates(),
            forall|k: Seq<char>| refs@.contains_key(k) <==> refs.keys().contains(k),
            out.keys() == refs.keys().take(i as int),
            forall|j: int|
                0 <= j < i ==> out@.contains_key(#[trigger] refs.keys()[j]) && out@[refs.keys()[j]]
                    == refs@[refs.keys()[j]],
            forall|k: Seq<char>| out@.contains_key(k) ==> refs.keys().take(i as int).contains(k),
        decreases n - i,
    {
        let ghost before = out@;
        proof {
            let keys = refs.keys();
            assert(!keys.take(i as int).contains(keys[i as int])) by {
                if keys.take(i as int).contains(keys[i as int]) {
                    let j = choose|j: int|
                        0 <= j < keys.take(i as int).len() && keys.take(i as int)[j] == keys[i as int];
                    assert(keys[j] == keys[i as int]);
                }
            }
            assert(keys.take(i + 1) == keys.take(i as int).push(keys[i as int]));
        }
        out.insert(refs.key_at(i).clone(), refs.value_at(i).clone());
        proof {
            let keys = refs.keys();
            assert forall|k: Seq<char>| out@.contains_key(k) implies keys.take(i + 1).contains(
                k,
            ) by {
                if k == keys[i as int] {
                    assert(keys.take(i + 1)[i as int] == k);
                } else {
                    assert(before.contains_key(k));
                    let j = choose|j: int|
                        0 <= j < keys.take(i as int).len() && keys.take(i as int)[j] == k;
                    assert(keys.take(i + 1)[j] == k);
                }
            }
        }
        i += 1;
    }
    proof {
        let keys = refs.keys();
        assert(keys.take(n as int) == keys);
        assert forall|k: Seq<char>| out@.dom().contains(k) <==> refs@.dom().contains(k) by {
            if out@.contains_key(k) {
                assert(keys.contains(k));
                assert(refs@.contains_key(k));
            }
            if refs@.contains_key(k) {
                assert(keys.contains(k));
                let j = choose|j: int| 0 <= j < keys.len() && keys[j] == k;
                assert(out@.contains_key(keys[j]));
            }
        }
        assert forall|k: Seq<char>| out@.dom().contains(k) implies out@[k] == refs@[k] by {
            assert(keys.contains(k));
            let j = choose|j: int| 0 <= j < keys.len() && keys[j] == k;
            assert(out@[keys[j]] == refs@[keys[j]]);
        }
        assert(out@ =~= refs@);
    }
    out
}

/// Fetches the branches of `remote`: copies the objects of their history
/// that are missing here, and makes `refs/remote/` and each branch's name
/// hold what the branch points at. On failure nothing changes.
pub fn fetch(repo: &mut Repository, remote: &Repository) -> (r: Result<(), Error>)
    ensures
        match fetched(
            old(repo).objects@,
            old(repo).refs.table(),
            remote.objects@,
            remote.refs.table(),
        ) {
            Err(e) => r == Err::<(), _>(e) && final(repo).objects == old(repo).objects
                && final(repo).refs == old(repo).refs,
            Ok(state) => r is Ok && final(repo).objects@ == state.0 && final(repo).refs.table()
                == state.1,
        },
{
    proof {
        reveal_strlit("refs/heads/");
        reveal_strlit("refs/remote/");
        assert("refs/heads/"@ =~= heads_dir());
        assert("refs/remote/"@ =~= remote_dir());
    }
    let branches = match get_remote_refs(remote, "refs/heads/") {
        Ok(branches) => branches,
        Err(e) => {
            return Err(e);
        },
    };
    let mut mirror = Repository { objects: StrMap::new(), refs: copy_of(&repo.refs) };
    let mut tips: VecDeque<String> = VecDeque::new();
    let n = branches.len();
    let mut i: usize = 0;
    assert(string_views(tips@) =~= Seq::new(0, |j: int| branches@[branches.keys()[j]]));
    while i < n
        invariant
            i <= n == branches.keys().len(),
            "refs/heads/"@ == heads_dir(),
            "refs/remote/"@ == remote_dir(),
            repo.objects == old(repo).objects,
            repo.refs == old(repo).refs,
            remote_refs(remote.refs@, remote.refs.keys(), heads_dir()) == Ok::<_, Error>(
                branches.table(),
            ),
            mirrored(repo.refs.table(), branches.table(), i as int) == Ok::<_, Error>(
                mirror.refs.table(),
            ),
            string_views(tips@) == Seq::new(i as nat, |j: int| branches@[branches.keys()[j]]),
        decreases n - i,
    {
        let name = branches.key_at(i);
        let value = branches.value_at(i);
        let mut target = "refs/remote/".to_owned();
        target.append(trim_start(name.as_str(), "refs/heads/").as_str());
        match update_ref(
            &mut mirror,
            target,
            RefValue { value: value.clone(), symbolic: false },
            true,
        ) {
            Ok(_) => {},
            Err(e) => {
                proof {
                    lemma_mirrored_fails(repo.refs.table(), branches.table(), i + 1, n as int);
                }
                return Err(e);
            },
        }
        let ghost before = string_views(tips@);
        tips.push_back(value.clone());
        assert(string_views(tips@) =~= before.push(value@));
        assert(before.push(value@) =~= Seq::new(
            (i + 1) as nat,
            |j: int| branches@[branches.keys()[j]],
        ));
        i += 1;
    }
    proof {
        let table = branches.table();
        assert(string_views(tips@) =~= Seq::new(
            table.keys.len(),
            |i: int| table.map[table.keys[i]],
        ));
    }
    match copy_objects_in_commits_and_parents(remote, repo, tips) {
        Ok(_) => {},
        Err(e) => {
            return Err(e);
        },
    }
    repo.refs = mirror.refs;
    Ok(())
}

/// Branches that fail to be mirrored fail with every branch after them.
proof fn lemma_mirrored_fails(refs: Table<Seq<char>>, branches: Table<Seq<char>>, n: int, m: int)
    requires
        0 <= n <= m,
        mirrored(refs, branches, n) is Err,
    ensures
        mirrored(refs, branches, m) == mirrored(refs, branches, n),
    decreases m - n,
{
    if n < m {
        lemma_mirrored_fails(refs, branches, n + 1, m);
    }
}

/// Whether `maybe_ancestor` is reached from `commit`.
pub fn is_ancestor_of(repo: &Repository, commit: String, maybe_ancestor: String) -> (r: Result<
    bool,
    Error,
>)
    ensures
        match ancestors(repo.objects@, seq![commit@]) {
            Ok(reached) => r == Ok::<_, Error>(reached.contains(maybe_ancestor@)),
            Err(e) => r == Err::<bool, _>(e),
        },
{
    let mut queue: VecDeque<String> = VecDeque::new();
    queue.push_back(commit);
    assert(string_views(queue@) =~= seq![commit@]);
    match iter_commits_and_parents(repo, queue) {
        Ok(reached) => Ok(text_in(&reached, maybe_ancestor.as_str())),
        Err(e) => Err(e),
    }
}

/// What pushing `reference` is to store on the other side: the reference
/// to write, and the commit to write into it. The reference must lead to a
/// commit here, and what the other side's branch points at must be reached
/// from that commit.
pub open spec fn push_plan(
    objects: Objects,
    refs: Refs,
    other_refs: Table<Seq<char>>,
    reference: Seq<char>,
) -> Result<(Seq<char>, Seq<char>), Error> {
    match remote_refs(other_refs.map, other_refs.keys, heads_dir()) {
        Err(e) => Err(e),
        Ok(branches) => match ref_value(refs, reference, true) {
            Err(e) => Err(e),
            Ok(ours) => if ours.value.len() == 0 {
                Err(Error::NotFound)
            } else {
                let theirs = if branches.map.contains_key(reference) {
                    branches.map[reference]
                } else {
                    Seq::empty()
                };
                match (if theirs.len() == 0 {
                    Ok(true)
                } else {
                    match ancestors(objects, seq![ours.value]) {
                        Ok(reached) => Ok(reached.contains(theirs)),
                        Err(e) => Err(e),
                    }
                }) {
                    Err(e) => Err(e),
                    Ok(allowed) => if !allowed {
                        Err(Error::Rejected)
                    } else {
                        match lookup(other_refs.map, reference, true) {
                            Err(e) => Err(e),
                            Ok(found) => Ok((found.0, ours.value)),
                        }
                    },
                }
            },
        },
    }
}

/// Pushes the branch `reference` to `remote`: copies the objects of its
/// history that `remote` lacks, and makes `reference` there point at the
/// same commit. Refused with `Rejected` where `remote`'s branch points at a
/// commit that is not in that history. On failure nothing changes.
pub fn push(repo: &Repository, remote: &mut Repository, reference: String) -> (r: Result<(), Error>)
    ensures
        match push_plan(repo.objects@, repo.refs@, old(remote).refs.table(), reference@) {
            Err(e) => r == Err::<(), _>(e) && final(remote).objects == old(remote).objects
                && final(remote).refs == old(remote).refs,
            Ok(plan) => match objects_in_commits(repo.objects@, seq![plan.1]) {
                Err(e) => r == Err::<(), _>(e) && final(remote).objects == old(remote).objects
                    && final(remote).refs == old(remote).refs,
                Ok(needed) => if all_stored(old(remote).objects@, repo.objects@, needed) {
                    &&& r is Ok
                    &&& final(remote).objects@ == with_copies(
                        old(remote).objects@,
                        repo.objects@,
                        needed,
                    )
                    &&& final(remote).refs.table() == old(remote).refs.table().insert(
                        plan.0,
                        plan.1,
                    )
                } else {
                    r == Err::<(), _>(Error::NotFound) && final(remote).objects == old(
                        remote,
                    ).objects && final(remote).refs == old(remote).refs
                },
            },
        },
{
    proof {
        reveal_strlit("refs/heads/");
        assert("refs/heads/"@ =~= heads_dir());
    }
    let branches = match get_remote_refs(remote, "refs/heads/") {
        Ok(branches) => branches,
        Err(e) => {
            return Err(e);
        },
    };
    let ours = match get_ref(repo, reference.clone(), true) {
        Ok(ours) => ours.value,
        Err(e) => {
            return Err(e);
        },
    };
    if ours.as_str().is_empty() {
        return Err(Error::NotFound);
    }
    let allowed = match branches.get(reference.as_str()) {
        None => true,
        Some(theirs) => if theirs.as_str().is_empty() {
            true
        } else {
            match is_ancestor_of(repo, ours.clone(), theirs.clone()) {
                Ok(allowed) => allowed,
                Err(e) => {
                    return Err(e);
                },
            }
        },
    };
    if !allowed {
        return Err(Error::Rejected);
    }
    let target = match get_ref_internal(remote, reference, true) {
        Ok(found) => found.0,
        Err(e) => {
            return Err(e);
        },
    };
    let mut tips: VecDeque<String> = VecDeque::new();
    tips.push_back(ours.clone());
    assert(string_views(tips@) =~= seq![ours@]);
    match copy_objects_in_commits_and_parents(repo, remote, tips) {
        Ok(_) => {},
        Err(e) => {
            return Err(e);
        },
    }
    remote.refs.insert(target, ours);
    Ok(())
}

} // verus!
