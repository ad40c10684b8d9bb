//! What holds of the engine whatever the repository: statements about the
//! models that the contracts of the operations are written in.

use crate::base::{
    ancestors, first_common, flatten_entries, flatten_entry, flatten_into, materialize, merge_base,
    merge_plan, next_queue, read_commit, stored_entries, valid_name, walk, MergePlan,
};
use crate::tree::{blob_word, tree_word, EntryView};
use crate::data::{
    frame, head, lemma_unframe_frame, lookup, marker, object_id, put_object, read_object,
    read_ref, ref_value, resolve, updated, ObjectKind, Objects, RefView, Refs,
};
use crate::diff::{all_paths, blob_or_empty, compared, merge_keys, merge_output, Row};
use crate::strmap::{keys_with, Table};
use crate::text::has_prefix;
use crate::error::Error;
use crate::hex::{hex_digit, hex_lower};
use crate::outside::sha1_digest;
use vstd::prelude::*;

verus! {

/// Putting an object a second time changes nothing: the store is as the
/// first put left it. (The id is the same both times, being a function of
/// kind and content alone.)
pub proof fn lemma_put_twice(objects: Objects, kind: ObjectKind, content: Seq<u8>)
    ensures
        put_object(put_object(objects, kind, content), kind, content) == put_object(
            objects,
            kind,
            content,
        ),
        put_object(objects, kind, content).contains_key(object_id(kind, content)),
{
}

/// An object that was put into a store that did not hold its id reads back
/// as it was put.
pub proof fn lemma_put_then_get(objects: Objects, kind: ObjectKind, content: Seq<u8>)
    requires
        !objects.contains_key(object_id(kind, content)),
    ensures
        read_object(put_object(objects, kind, content), object_id(kind, content), None) == Ok::<
            _,
            Error,
        >((kind, content)),
        read_object(put_object(objects, kind, content), object_id(kind, content), Some(kind))
            == Ok::<_, Error>((kind, content)),
{
    lemma_unframe_frame(kind, content);
}

/// A put leaves every other object as it was.
pub proof fn lemma_put_keeps(objects: Objects, kind: ObjectKind, content: Seq<u8>, oid: Seq<char>)
    requires
        objects.contains_key(oid),
    ensures
        put_object(objects, kind, content).contains_key(oid),
        put_object(objects, kind, content)[oid] == objects[oid],
{
}

/// Different objects are stored as different bytes.
pub proof fn lemma_frame_injective(k1: ObjectKind, c1: Seq<u8>, k2: ObjectKind, c2: Seq<u8>)
    requires
        frame(k1, c1) == frame(k2, c2),
    ensures
        k1 == k2,
        c1 == c2,
{
    lemma_unframe_frame(k1, c1);
    lemma_unframe_frame(k2, c2);
}

proof fn lemma_hex_digit_injective(a: u8, b: u8)
    requires
        a < 16,
        b < 16,
        hex_digit(a) == hex_digit(b),
    ensures
        a == b,
{
    assert(hex_digit(a) as u32 == if a < 10 {
        48 + a
    } else {
        87 + a
    });
    assert(hex_digit(b) as u32 == if b < 10 {
        48 + b
    } else {
        87 + b
    });
}

/// Different byte strings are rendered as different texts.
pub proof fn lemma_hex_injective(a: Seq<u8>, b: Seq<u8>)
    requires
        hex_lower(a) == hex_lower(b),
    ensures
        a == b,
{
    assert(a.len() == b.len()) by {
        assert(hex_lower(a).len() == 2 * a.len());
        assert(hex_lower(b).len() == 2 * b.len());
    }
    assert forall|i: int| 0 <= i < a.len() implies a[i] == b[i] by {
        assert(hex_lower(a)[2 * i] == hex_lower(b)[2 * i]);
        assert(hex_lower(a)[2 * i + 1] == hex_lower(b)[2 * i + 1]);
        assert((2 * i) / 2 == i && (2 * i + 1) / 2 == i);
        assert((2 * i) % 2 == 0 && (2 * i + 1) % 2 == 1);
        assert(hex_lower(a)[2 * i] == hex_digit(a[i] / 16));
        assert(hex_lower(b)[2 * i] == hex_digit(b[i] / 16));
        assert(hex_lower(a)[2 * i + 1] == hex_digit(a[i] % 16));
        assert(hex_lower(b)[2 * i + 1] == hex_digit(b[i] % 16));
        lemma_hex_digit_injective(a[i] / 16, b[i] / 16);
        lemma_hex_digit_injective(a[i] % 16, b[i] % 16);
    }
    assert(a =~= b);
}

/// Two different objects have different ids, unless SHA-1 gives the bytes
/// stored for them the same digest: the engine adds no collision of its
/// own.
pub proof fn lemma_ids_differ(k1: ObjectKind, c1: Seq<u8>, k2: ObjectKind, c2: Seq<u8>)
    requires
        k1 != k2 || c1 != c2,
        sha1_digest(frame(k1, c1)) != sha1_digest(frame(k2, c2)),
    ensures
        frame(k1, c1) != frame(k2, c2),
        object_id(k1, c1) != object_id(k2, c2),
{
    if frame(k1, c1) == frame(k2, c2) {
        lemma_frame_injective(k1, c1, k2, c2);
    }
    if object_id(k1, c1) == object_id(k2, c2) {
        lemma_hex_injective(sha1_digest(frame(k1, c1)), sha1_digest(frame(k2, c2)));
    }
}

/// Two different objects that one store holds, each under its id and as it
/// was put, have different ids.
pub proof fn lemma_stored_ids_differ(
    objects: Objects,
    k1: ObjectKind,
    c1: Seq<u8>,
    k2: ObjectKind,
    c2: Seq<u8>,
)
    requires
        k1 != k2 || c1 != c2,
        read_object(objects, object_id(k1, c1), None) == Ok::<_, Error>((k1, c1)),
        read_object(objects, object_id(k2, c2), None) == Ok::<_, Error>((k2, c2)),
    ensures
        object_id(k1, c1) != object_id(k2, c2),
{
}

/// A walk keeps what it has seen, in its order, at the front of what it
/// returns.
pub proof fn lemma_walk_keeps_seen(
    objects: Objects,
    queue: Seq<Seq<char>>,
    seen: Seq<Seq<char>>,
    budget: nat,
)
    requires
        walk(objects, queue, seen, budget) is Ok,
    ensures
        seen.is_prefix_of(walk(objects, queue, seen, budget)->Ok_0),
    decreases budget, queue.len(),
{
    if queue.len() == 0 {
    } else {
        let oid = queue[0];
        let rest = queue.drop_first();
        if oid.len() == 0 || seen.contains(oid) {
            lemma_walk_keeps_seen(objects, rest, seen, budget);
        } else {
            let c = read_commit(objects, oid)->Ok_0;
            let next = next_queue(rest, c.parents);
            lemma_walk_keeps_seen(objects, next, seen.push(oid), (budget - 1) as nat);
            let out = walk(objects, queue, seen, budget)->Ok_0;
            assert(seen =~= seen.push(oid).subrange(0, seen.len() as int));
            assert(seen.push(oid) == out.subrange(0, seen.len() as int + 1));
            assert(seen =~= out.subrange(0, seen.len() as int));
        }
    }
}

/// The walk from a commit begins with that commit.
pub proof fn lemma_ancestors_begin(objects: Objects, oid: Seq<char>)
    requires
        oid.len() > 0,
        ancestors(objects, seq![oid]) is Ok,
    ensures
        ancestors(objects, seq![oid])->Ok_0.len() > 0,
        ancestors(objects, seq![oid])->Ok_0[0] == oid,
{
    let queue = seq![oid];
    let budget = objects.dom().len();
    let empty = Seq::<Seq<char>>::empty();
    assert(!empty.contains(oid));
    let c = read_commit(objects, oid)->Ok_0;
    let next = next_queue(queue.drop_first(), c.parents);
    lemma_walk_keeps_seen(objects, next, empty.push(oid), (budget - 1) as nat);
    let out = ancestors(objects, queue)->Ok_0;
    assert(empty.push(oid) == out.subrange(0, 1));
    assert(out.subrange(0, 1)[0] == out[0]);
}

/// The merge base of a commit with itself is that commit.
pub proof fn lemma_merge_base_of_itself(objects: Objects, oid: Seq<char>)
    requires
        merge_base(objects, oid, oid) is Ok,
    ensures
        merge_base(objects, oid, oid) == Ok::<_, Error>(oid),
{
    let reached = ancestors(objects, seq![oid])->Ok_0;
    if oid.len() == 0 {
        reveal_with_fuel(walk, 2);
        assert(seq![oid].drop_first().len() == 0);
        assert(reached.len() == 0);
        assert(oid =~= Seq::<char>::empty());
    } else {
        lemma_ancestors_begin(objects, oid);
        assert(reached.contains(reached[0]));
    }
}

/// Walks that share no commit have no first common commit.
pub proof fn lemma_first_common_of_disjoint(ours: Seq<Seq<char>>, theirs: Seq<Seq<char>>)
    requires
        forall|oid: Seq<char>| !(ours.contains(oid) && theirs.contains(oid)),
    ensures
        first_common(ours, theirs) == Seq::<char>::empty(),
    decreases theirs.len(),
{
    if theirs.len() > 0 {
        assert(theirs.contains(theirs[0]));
        assert forall|oid: Seq<char>| !(ours.contains(oid) && theirs.drop_first().contains(
            oid,
        )) by {
            if theirs.drop_first().contains(oid) {
                let i = choose|i: int|
                    0 <= i < theirs.drop_first().len() && theirs.drop_first()[i] == oid;
                assert(theirs[i + 1] == oid);
            }
        }
        lemma_first_common_of_disjoint(ours, theirs.drop_first());
    }
}

/// Two commits whose histories share no commit have the empty merge base.
pub proof fn lemma_merge_base_of_disjoint(objects: Objects, commit1: Seq<char>, commit2: Seq<char>)
    requires
        ancestors(objects, seq![commit1]) is Ok,
        ancestors(objects, seq![commit2]) is Ok,
        forall|oid: Seq<char>|
            !(ancestors(objects, seq![commit1])->Ok_0.contains(oid) && ancestors(
                objects,
                seq![commit2],
            )->Ok_0.contains(oid)),
    ensures
        merge_base(objects, commit1, commit2) == Ok::<_, Error>(Seq::<char>::empty()),
{
    lemma_first_common_of_disjoint(
        ancestors(objects, seq![commit1])->Ok_0,
        ancestors(objects, seq![commit2])->Ok_0,
    );
}

/// Where the commit that `HEAD` leads to is reached from `oid`, merging
/// `oid` is a fast-forward, whose files are those of `oid`'s tree; or it
/// fails, because something could not be read. It is never a three-way
/// merge.
pub proof fn lemma_fast_forward(objects: Objects, refs: Refs, oid: Seq<char>)
    requires
        ref_value(refs, head(), true) is Ok,
        ref_value(refs, head(), true)->Ok_0.value.len() > 0,
        ancestors(objects, seq![oid]) is Ok,
        ancestors(objects, seq![oid])->Ok_0.contains(ref_value(refs, head(), true)->Ok_0.value),
    ensures
        match merge_plan(objects, refs, oid) {
            Ok(MergePlan::FastForward { files }) => read_commit(objects, oid) is Ok
                && materialize(objects, read_commit(objects, oid)->Ok_0.tree) == Ok::<_, Error>(
                files,
            ),
            Ok(MergePlan::ThreeWay { .. }) => false,
            Err(_) => true,
        },
{
    let ours = ref_value(refs, head(), true)->Ok_0.value;
    if ancestors(objects, seq![ours]) is Ok {
        lemma_ancestors_begin(objects, ours);
    }
}

proof fn lemma_resolve_after_insert(
    refs: Refs,
    name: Seq<char>,
    hops: nat,
    more: nat,
    oid: Seq<char>,
)
    requires
        resolve(refs, name, true, hops) is Ok,
        more >= hops,
        !has_prefix(oid, marker()),
    ensures
        resolve(refs.insert(resolve(refs, name, true, hops)->Ok_0.0, oid), name, true, more)
            == Ok::<_, Error>(
            (resolve(refs, name, true, hops)->Ok_0.0, RefView { value: oid, symbolic: false }),
        ),
    decreases hops,
{
    let target = resolve(refs, name, true, hops)->Ok_0.0;
    let after = refs.insert(target, oid);
    let value = read_ref(refs, name);
    if value.symbolic {
        lemma_resolve_target_is_direct(refs, name, hops);
        assert(name != target);
        assert(read_ref(after, name) == value);
        lemma_resolve_after_insert(refs, value.value, (hops - 1) as nat, (more - 1) as nat, oid);
    } else {
        assert(read_ref(after, name) == RefView { value: oid, symbolic: false });
    }
}

/// What a resolved chain ends in holds no symbolic value.
pub proof fn lemma_resolve_target_is_direct(refs: Refs, name: Seq<char>, hops: nat)
    requires
        resolve(refs, name, true, hops) is Ok,
    ensures
        resolve(refs, name, true, hops)->Ok_0.1 == read_ref(
            refs,
            resolve(refs, name, true, hops)->Ok_0.0,
        ),
        !resolve(refs, name, true, hops)->Ok_0.1.symbolic,
    decreases hops,
{
    let value = read_ref(refs, name);
    if value.symbolic {
        lemma_resolve_target_is_direct(refs, value.value, (hops - 1) as nat);
    }
}

/// After an object id was stored through a reference, the reference leads
/// to that id.
pub proof fn lemma_update_then_get(refs: Table<Seq<char>>, name: Seq<char>, oid: Seq<char>)
    requires
        refs.map.dom().finite(),
        updated(refs, name, RefView { value: oid, symbolic: false }, true) is Ok,
        !has_prefix(oid, marker()),
    ensures
        ref_value(
            updated(refs, name, RefView { value: oid, symbolic: false }, true)->Ok_0.map,
            name,
            true,
        ) == Ok::<_, Error>(RefView { value: oid, symbolic: false }),
{
    let hops = refs.map.dom().len();
    let target = lookup(refs.map, name, true)->Ok_0.0;
    let after = refs.map.insert(target, oid);
    assert(after.dom() =~= refs.map.dom().insert(target));
    vstd::set_lib::lemma_len_subset(refs.map.dom(), after.dom());
    lemma_resolve_after_insert(refs.map, name, hops, after.dom().len(), oid);
}

/// After a fast-forward, `HEAD` leads to the commit that was merged.
pub proof fn lemma_fast_forward_moves_head(refs: Table<Seq<char>>, oid: Seq<char>)
    requires
        refs.map.dom().finite(),
        updated(refs, head(), RefView { value: oid, symbolic: false }, true) is Ok,
        !has_prefix(oid, marker()),
    ensures
        ref_value(
            updated(refs, head(), RefView { value: oid, symbolic: false }, true)->Ok_0.map,
            head(),
            true,
        ) == Ok::<_, Error>(RefView { value: oid, symbolic: false }),
{
    lemma_update_then_get(refs, head(), oid);
}

/// The budget of a walk never ends it early: once as many commits were
/// seen as the budget is short of the number of objects, a larger budget
/// gives the same walk.
pub proof fn lemma_walk_budget(
    objects: Objects,
    queue: Seq<Seq<char>>,
    seen: Seq<Seq<char>>,
    budget: nat,
    extra: nat,
)
    requires
        objects.dom().finite(),
        seen.no_duplicates(),
        forall|i: int| 0 <= i < seen.len() ==> objects.contains_key(#[trigger] seen[i]),
        budget + seen.len() == objects.dom().len(),
    ensures
        walk(objects, queue, seen, budget + extra) == walk(objects, queue, seen, budget),
    decreases budget, queue.len(),
{
    if queue.len() > 0 {
        let oid = queue[0];
        let rest = queue.drop_first();
        if oid.len() == 0 || seen.contains(oid) {
            lemma_walk_budget(objects, rest, seen, budget, extra);
        } else if budget == 0 {
            seen.unique_seq_to_set();
            assert(seen.to_set().subset_of(objects.dom())) by {
                assert forall|x: Seq<char>| seen.to_set().contains(x) implies objects.dom().contains(
                    x,
                ) by {
                    let i = choose|i: int| 0 <= i < seen.len() && seen[i] == x;
                    assert(objects.contains_key(seen[i]));
                }
            }
            vstd::set_lib::lemma_subset_equality(seen.to_set(), objects.dom());
            assert(!seen.to_set().contains(oid));
            assert(!objects.contains_key(oid));
        } else {
            match read_commit(objects, oid) {
                Err(_) => {},
                Ok(c) => {
                    let next = seen.push(oid);
                    assert(next.no_duplicates()) by {
                        assert forall|i: int, j: int|
                            0 <= i < next.len() && 0 <= j < next.len() && i != j implies next[i]
                            != next[j] by {
                            if i < seen.len() && j < seen.len() {
                            } else if i < seen.len() {
                                assert(seen[i] != oid);
                            } else {
                                assert(seen[j] != oid);
                            }
                        }
                    }
                    lemma_walk_budget(
                        objects,
                        next_queue(rest, c.parents),
                        next,
                        (budget - 1) as nat,
                        extra,
                    );
                },
            }
        }
    }
}

/// The walk from some commits reaches what a walk with any larger budget
/// reaches: it fails only where a commit cannot be read.
pub proof fn lemma_ancestors_unbounded(objects: Objects, oids: Seq<Seq<char>>, extra: nat)
    requires
        objects.dom().finite(),
    ensures
        walk(objects, oids, Seq::empty(), objects.dom().len() + extra) == ancestors(objects, oids),
{
    lemma_walk_budget(objects, oids, Seq::empty(), objects.dom().len(), extra);
}

/// The reference that a chain has come to after `steps` hops.
pub open spec fn chain(refs: Refs, name: Seq<char>, steps: nat) -> Seq<char>
    decreases steps,
{
    if steps == 0 {
        name
    } else {
        read_ref(refs, chain(refs, name, (steps - 1) as nat)).value
    }
}

proof fn lemma_chain_shift(refs: Refs, name: Seq<char>, steps: nat)
    ensures
        chain(refs, read_ref(refs, name).value, steps) == chain(refs, name, steps + 1),
    decreases steps,
{
    assert(chain(refs, name, 0) == name);
    if steps > 0 {
        lemma_chain_shift(refs, name, (steps - 1) as nat);
        assert(((steps + 1) - 1) as nat == steps);
    }
}

proof fn lemma_chain_add(refs: Refs, name: Seq<char>, a: nat, b: nat)
    ensures
        chain(refs, chain(refs, name, a), b) == chain(refs, name, a + b),
    decreases b,
{
    if b > 0 {
        lemma_chain_add(refs, name, a, (b - 1) as nat);
    }
}

/// A chain is resolved within `hops` hops exactly if one of its first
/// `hops + 1` references is not symbolic.
proof fn lemma_resolve_is_chain(refs: Refs, name: Seq<char>, hops: nat)
    ensures
        resolve(refs, name, true, hops) is Ok <==> exists|k: nat|
            k <= hops && !read_ref(refs, #[trigger] chain(refs, name, k)).symbolic,
    decreases hops,
{
    let value = read_ref(refs, name);
    if !value.symbolic {
        assert(chain(refs, name, 0) == name);
    } else if hops == 0 {
        assert forall|k: nat| k <= hops implies read_ref(
            refs,
            #[trigger] chain(refs, name, k),
        ).symbolic by {
            assert(chain(refs, name, 0) == name);
        }
    } else {
        lemma_resolve_is_chain(refs, value.value, (hops - 1) as nat);
        if resolve(refs, name, true, hops) is Ok {
            let k = choose|k: nat|
                k <= hops - 1 && !read_ref(refs, #[trigger] chain(refs, value.value, k)).symbolic;
            lemma_chain_shift(refs, name, k);
            assert(!read_ref(refs, chain(refs, name, k + 1)).symbolic);
        }
        if exists|k: nat| k <= hops && !read_ref(refs, #[trigger] chain(refs, name, k)).symbolic {
            let k = choose|k: nat|
                k <= hops && !read_ref(refs, #[trigger] chain(refs, name, k)).symbolic;
            assert(chain(refs, name, 0) == name);
            assert(k > 0);
            lemma_chain_shift(refs, name, (k - 1) as nat);
            assert(!read_ref(refs, chain(refs, value.value, (k - 1) as nat)).symbolic);
        }
    }
}

/// The first reference of a chain that is not symbolic, if there is one
/// within `bound` hops.
proof fn lemma_first_direct(refs: Refs, name: Seq<char>, bound: nat) -> (k: nat)
    requires
        !read_ref(refs, chain(refs, name, bound)).symbolic,
    ensures
        k <= bound,
        !read_ref(refs, chain(refs, name, k)).symbolic,
        forall|i: nat| i < k ==> read_ref(refs, #[trigger] chain(refs, name, i)).symbolic,
    decreases bound,
{
    if bound == 0 {
        0
    } else if exists|i: nat| i < bound && !read_ref(refs, #[trigger] chain(refs, name, i)).symbolic {
        let i = choose|i: nat|
            i < bound && !read_ref(refs, #[trigger] chain(refs, name, i)).symbolic;
        lemma_first_direct(refs, name, i)
    } else {
        bound
    }
}

/// A chain that is not resolved within as many hops as there are
/// references is not resolved within any number of hops: it comes back to
/// a reference that it has passed.
pub proof fn lemma_unresolvable_for_ever(refs: Refs, name: Seq<char>, hops: nat)
    requires
        refs.dom().finite(),
        lookup(refs, name, true) is Err,
    ensures
        resolve(refs, name, true, hops) is Err,
{
    let n = refs.dom().len();
    lemma_resolve_is_chain(refs, name, n);
    lemma_resolve_is_chain(refs, name, hops);
    if resolve(refs, name, true, hops) is Ok {
        let found = choose|k: nat|
            k <= hops && !read_ref(refs, #[trigger] chain(refs, name, k)).symbolic;
        let k = lemma_first_direct(refs, name, found);
        // The references before the first direct one are symbolic, stored and different.
        let passed = Seq::new(k, |i: int| chain(refs, name, i as nat));
        assert forall|i: int, j: int| 0 <= i < j < k implies passed[i] != passed[j] by {
            if passed[i] == passed[j] {
                lemma_chain_add(refs, name, i as nat, (k - j) as nat);
                lemma_chain_add(refs, name, j as nat, (k - j) as nat);
                assert(chain(refs, name, (i + k - j) as nat) == chain(refs, name, k));
                assert(read_ref(refs, chain(refs, name, (i + k - j) as nat)).symbolic);
            }
        }
        assert(passed.no_duplicates());
        passed.unique_seq_to_set();
        assert(passed.to_set().subset_of(refs.dom())) by {
            assert forall|x: Seq<char>| passed.to_set().contains(x) implies refs.dom().contains(
                x,
            ) by {
                let i = choose|i: int| 0 <= i < passed.len() && passed[i] == x;
                assert(read_ref(refs, chain(refs, name, i as nat)).symbolic);
                assert(refs.contains_key(x));
            }
        }
        vstd::set_lib::lemma_len_subset(passed.to_set(), refs.dom());
        assert(k <= n);
    }
}

/// What a tree flattens to does not depend on the depth that was allowed,
/// once that was enough.
pub proof fn lemma_flatten_deeper(
    objects: Objects,
    acc: Table<Seq<char>>,
    oid: Seq<char>,
    base: Seq<char>,
    depth: nat,
    extra: nat,
)
    requires
        flatten_into(objects, acc, oid, base, depth) is Ok,
    ensures
        flatten_into(objects, acc, oid, base, depth + extra) == flatten_into(
            objects,
            acc,
            oid,
            base,
            depth,
        ),
    decreases depth, 1int, 0int,
{
    let es = stored_entries(objects, oid)->Ok_0;
    lemma_flatten_entries_deeper(objects, acc, es, base, depth, extra);
}

proof fn lemma_flatten_entries_deeper(
    objects: Objects,
    acc: Table<Seq<char>>,
    es: Seq<EntryView>,
    base: Seq<char>,
    depth: nat,
    extra: nat,
)
    requires
        flatten_entries(objects, acc, es, base, depth) is Ok,
    ensures
        flatten_entries(objects, acc, es, base, depth + extra) == flatten_entries(
            objects,
            acc,
            es,
            base,
            depth,
        ),
    decreases depth, 0int, es.len(),
{
    if es.len() > 0 {
        lemma_flatten_entries_deeper(objects, acc, es.drop_last(), base, depth, extra);
        let before = flatten_entries(objects, acc, es.drop_last(), base, depth)->Ok_0;
        let e = es.last();
        let step = flatten_entry(objects, before, e, base, depth);
        let deeper = flatten_entry(objects, before, e, base, depth + extra);
        assert(flatten_entries(objects, acc, es, base, depth) == step);
        assert(flatten_entries(objects, acc, es, base, depth + extra) == deeper);
        if valid_name(e.0) && e.2 != blob_word() && e.2 == tree_word() && depth > 0 {
            let below = base + e.0 + seq!['/'];
            assert(step == flatten_into(objects, before, e.1, below, (depth - 1) as nat));
            lemma_flatten_deeper(objects, before, e.1, below, (depth - 1) as nat, extra);
            assert((depth + extra - 1) as nat == (depth - 1) as nat + extra);
        }
    }
}

/// A walk visits no commit twice.
pub proof fn lemma_walk_distinct(
    objects: Objects,
    queue: Seq<Seq<char>>,
    seen: Seq<Seq<char>>,
    budget: nat,
)
    requires
        walk(objects, queue, seen, budget) is Ok,
        seen.no_duplicates(),
    ensures
        walk(objects, queue, seen, budget)->Ok_0.no_duplicates(),
    decreases budget, queue.len(),
{
    if queue.len() > 0 {
        let oid = queue[0];
        let rest = queue.drop_first();
        if oid.len() == 0 || seen.contains(oid) {
            lemma_walk_distinct(objects, rest, seen, budget);
        } else {
            let c = read_commit(objects, oid)->Ok_0;
            let next = seen.push(oid);
            assert forall|i: int, j: int|
                0 <= i < next.len() && 0 <= j < next.len() && i != j implies next[i] != next[j] by {
                if i < seen.len() && j < seen.len() {
                } else if i < seen.len() {
                    assert(seen[i] != oid);
                } else {
                    assert(seen[j] != oid);
                }
            }
            lemma_walk_distinct(objects, next_queue(rest, c.parents), next, (budget - 1) as nat);
        }
    }
}

/// A walk reaches what it has seen and every commit that is queued.
pub proof fn lemma_walk_includes(
    objects: Objects,
    queue: Seq<Seq<char>>,
    seen: Seq<Seq<char>>,
    budget: nat,
    oid: Seq<char>,
)
    requires
        walk(objects, queue, seen, budget) is Ok,
        seen.contains(oid) || (queue.contains(oid) && oid.len() > 0),
    ensures
        walk(objects, queue, seen, budget)->Ok_0.contains(oid),
    decreases budget, queue.len(),
{
    if queue.len() > 0 {
        let first = queue[0];
        let rest = queue.drop_first();
        let queued = !seen.contains(oid);
        if queued && first != oid {
            let i = choose|i: int| 0 <= i < queue.len() && queue[i] == oid;
            assert(rest[i - 1] == oid);
        }
        if first.len() == 0 || seen.contains(first) {
            lemma_walk_includes(objects, rest, seen, budget, oid);
        } else {
            let c = read_commit(objects, first)->Ok_0;
            let next = seen.push(first);
            let after = next_queue(rest, c.parents);
            if seen.contains(oid) {
                let i = choose|i: int| 0 <= i < seen.len() && seen[i] == oid;
                assert(next[i] == oid);
            } else if first == oid {
                assert(next[seen.len() as int] == oid);
            } else {
                lemma_next_queue_keeps(rest, c.parents, oid);
            }
            lemma_walk_includes(objects, after, next, (budget - 1) as nat, oid);
        }
    }
}

proof fn lemma_next_queue_keeps(rest: Seq<Seq<char>>, parents: Seq<Seq<char>>, oid: Seq<char>)
    requires
        rest.contains(oid),
    ensures
        next_queue(rest, parents).contains(oid),
{
    let i = choose|i: int| 0 <= i < rest.len() && rest[i] == oid;
    let after = next_queue(rest, parents);
    if parents.len() > 0 {
        assert(after[i + 1] == oid);
    } else {
        assert(after[i] == oid);
    }
}

/// Whether `parent` is a parent of the commit `child`.
pub open spec fn is_parent(objects: Objects, child: Seq<char>, parent: Seq<char>) -> bool {
    read_commit(objects, child) matches Ok(c) && c.parents.contains(parent)
}

/// Whether every parent of a commit that was seen was seen too, or is
/// queued, or is no commit at all.
pub open spec fn parents_pending(objects: Objects, queue: Seq<Seq<char>>, seen: Seq<Seq<char>>) -> bool {
    forall|child: Seq<char>, parent: Seq<char>|
        seen.contains(child) && #[trigger] is_parent(objects, child, parent) ==> parent.len() == 0
            || seen.contains(parent) || queue.contains(parent)
}

/// What a walk returns holds the parents of each commit in it.
pub proof fn lemma_walk_closed(
    objects: Objects,
    queue: Seq<Seq<char>>,
    seen: Seq<Seq<char>>,
    budget: nat,
)
    requires
        walk(objects, queue, seen, budget) is Ok,
        parents_pending(objects, queue, seen),
    ensures
        parents_pending(objects, Seq::empty(), walk(objects, queue, seen, budget)->Ok_0),
    decreases budget, queue.len(),
{
    let empty = Seq::<Seq<char>>::empty();
    if queue.len() == 0 {
        assert(queue =~= empty);
    } else {
        let first = queue[0];
        let rest = queue.drop_first();
        assert forall|x: Seq<char>| queue.contains(x) implies x == first || rest.contains(x) by {
            let i = choose|i: int| 0 <= i < queue.len() && queue[i] == x;
            if i > 0 {
                assert(rest[i - 1] == x);
            }
        }
        if first.len() == 0 || seen.contains(first) {
            lemma_walk_closed(objects, rest, seen, budget);
        } else {
            let c = read_commit(objects, first)->Ok_0;
            let next = seen.push(first);
            let after = next_queue(rest, c.parents);
            assert(c.parents.len() <= 2);
            assert forall|child: Seq<char>, parent: Seq<char>|
                next.contains(child) && #[trigger] is_parent(
                    objects,
                    child,
                    parent,
                ) implies parent.len() == 0 || next.contains(parent) || after.contains(parent) by {
                if seen.contains(child) {
                    if seen.contains(parent) {
                        let i = choose|i: int| 0 <= i < seen.len() && seen[i] == parent;
                        assert(next[i] == parent);
                    } else if parent == first {
                        assert(next[seen.len() as int] == parent);
                    } else if parent.len() > 0 {
                        lemma_next_queue_keeps(rest, c.parents, parent);
                    }
                } else {
                    let i = choose|i: int| 0 <= i < next.len() && next[i] == child;
                    assert(child == first);
                    let j = choose|j: int| 0 <= j < c.parents.len() && c.parents[j] == parent;
                    if j == 0 {
                        assert(after[0] == parent);
                    } else {
                        assert(after[after.len() - 1] == parent);
                    }
                }
            }
            lemma_walk_closed(objects, after, next, (budget - 1) as nat);
        }
    }
}

/// The walk from some commits reaches each of them and, with every commit,
/// its parents: it reaches their whole history, each commit once.
pub proof fn lemma_ancestors_are_the_history(objects: Objects, oids: Seq<Seq<char>>)
    requires
        ancestors(objects, oids) is Ok,
    ensures
        ancestors(objects, oids)->Ok_0.no_duplicates(),
        forall|oid: Seq<char>|
            oids.contains(oid) && oid.len() > 0 ==> ancestors(objects, oids)->Ok_0.contains(oid),
        forall|child: Seq<char>, parent: Seq<char>|
            ancestors(objects, oids)->Ok_0.contains(child) && #[trigger] is_parent(
                objects,
                child,
                parent,
            ) && parent.len() > 0 ==> ancestors(objects, oids)->Ok_0.contains(parent),
{
    let empty = Seq::<Seq<char>>::empty();
    let budget = objects.dom().len();
    lemma_walk_distinct(objects, oids, empty, budget);
    assert forall|oid: Seq<char>| oids.contains(oid) && oid.len() > 0 implies ancestors(
        objects,
        oids,
    )->Ok_0.contains(oid) by {
        lemma_walk_includes(objects, oids, empty, budget, oid);
    }
    lemma_walk_closed(objects, oids, empty, budget);
}

proof fn lemma_merge_keys_distinct(acc: Seq<Seq<char>>, keys: Seq<Seq<char>>)
    requires
        acc.no_duplicates(),
    ensures
        merge_keys(acc, keys).no_duplicates(),
    decreases keys.len(),
{
    if keys.len() > 0 {
        lemma_merge_keys_distinct(acc, keys.drop_last());
        let before = merge_keys(acc, keys.drop_last());
        let key = keys.last();
        if !before.contains(key) {
            let after = before.push(key);
            assert forall|i: int, j: int|
                0 <= i < after.len() && 0 <= j < after.len() && i != j implies after[i]
                != after[j] by {
                if i < before.len() && j < before.len() {
                } else if i < before.len() {
                    assert(before[i] != key);
                } else {
                    assert(before[j] != key);
                }
            }
        }
    }
}

proof fn lemma_all_paths_distinct(trees: Seq<Table<Seq<char>>>)
    ensures
        all_paths(trees).no_duplicates(),
    decreases trees.len(),
{
    if trees.len() > 0 {
        lemma_all_paths_distinct(trees.drop_last());
        lemma_merge_keys_distinct(all_paths(trees.drop_last()), trees.last().keys);
    }
}

/// Whether no two rows are of the same path.
pub open spec fn distinct_paths(rows: Seq<Row>) -> bool {
    forall|i: int, j: int| 0 <= i < j < rows.len() ==> (#[trigger] rows[i]).0 != (#[trigger] rows[j]).0
}

/// Trees side by side have one row for each path.
pub proof fn lemma_compared_distinct(trees: Seq<Table<Seq<char>>>)
    ensures
        distinct_paths(compared(trees)),
{
    lemma_all_paths_distinct(trees);
}

/// Whether a merge function keeps an edit that only one side made: where
/// ours is the base it gives theirs, and where theirs is the base it gives
/// ours.
pub open spec fn keeps_one_sided_edits<F: Fn(&Vec<u8>, &Vec<u8>, &Vec<u8>) -> Vec<u8>>(
    merge3: F,
) -> bool {
    forall|base: &Vec<u8>, ours: &Vec<u8>, theirs: &Vec<u8>, merged: Vec<u8>| #[trigger]
        merge3.ensures((base, ours, theirs), merged) ==> (ours@ == base@ ==> merged@ == theirs@)
            && (theirs@ == base@ ==> merged@ == ours@)
}

/// The content that a merge gives the path of a row: all three blobs of
/// the row were read, and with a merge function that keeps one-sided edits
/// a path that only one side changed has that side's content. So where the
/// two sides changed different files, the merge holds both edits, every
/// other path as the base has it, and no content that neither side held.
pub proof fn lemma_merge_of_one_sided_edit<F: Fn(&Vec<u8>, &Vec<u8>, &Vec<u8>) -> Vec<u8>>(
    objects: Objects,
    rows: Seq<Row>,
    merge3: F,
    out: Table<Seq<u8>>,
    j: int,
)
    requires
        merge_output(objects, rows, merge3, out),
        keeps_one_sided_edits(merge3),
        distinct_paths(rows),
        0 <= j < rows.len(),
    ensures
        out.map.contains_key(rows[j].0),
        blob_or_empty(objects, rows[j].1[0]) is Ok,
        blob_or_empty(objects, rows[j].1[1]) is Ok,
        blob_or_empty(objects, rows[j].1[2]) is Ok,
        blob_or_empty(objects, rows[j].1[1]) == blob_or_empty(objects, rows[j].1[0])
            ==> blob_or_empty(objects, rows[j].1[2]) == Ok::<_, Error>(out.map[rows[j].0]),
        blob_or_empty(objects, rows[j].1[2]) == blob_or_empty(objects, rows[j].1[0])
            ==> blob_or_empty(objects, rows[j].1[1]) == Ok::<_, Error>(out.map[rows[j].0]),
    decreases rows.len(),
{
    let last = rows.last();
    let (before, base, ours, theirs, merged) = choose|
        before: Table<Seq<u8>>,
        base: Vec<u8>,
        ours: Vec<u8>,
        theirs: Vec<u8>,
        merged: Vec<u8>,
    |
        #![trigger before.insert(rows.last().0, merged@), merge3.ensures((&base, &ours, &theirs), merged)]
        {
            &&& merge_output(objects, rows.drop_last(), merge3, before)
            &&& blob_or_empty(objects, rows.last().1[0]) == Ok::<_, Error>(base@)
            &&& blob_or_empty(objects, rows.last().1[1]) == Ok::<_, Error>(ours@)
            &&& blob_or_empty(objects, rows.last().1[2]) == Ok::<_, Error>(theirs@)
            &&& merge3.ensures((&base, &ours, &theirs), merged)
            &&& out == before.insert(rows.last().0, merged@)
        };
    if j < rows.len() - 1 {
        assert(rows.drop_last()[j] == rows[j]);
        assert(distinct_paths(rows.drop_last())) by {
            assert forall|a: int, b: int| 0 <= a < b < rows.drop_last().len() implies (
            #[trigger] rows.drop_last()[a]).0 != (#[trigger] rows.drop_last()[b]).0 by {
                assert(rows.drop_last()[a] == rows[a]);
                assert(rows.drop_last()[b] == rows[b]);
            }
        }
        lemma_merge_of_one_sided_edit(objects, rows.drop_last(), merge3, before, j);
        assert(rows[j].0 != rows[rows.len() - 1].0);
    }
}

/// What a merge gives has the paths of the rows and no other.
pub proof fn lemma_merge_paths<F: Fn(&Vec<u8>, &Vec<u8>, &Vec<u8>) -> Vec<u8>>(
    objects: Objects,
    rows: Seq<Row>,
    merge3: F,
    out: Table<Seq<u8>>,
    path: Seq<char>,
)
    requires
        merge_output(objects, rows, merge3, out),
    ensures
        out.map.contains_key(path) <==> exists|j: int| 0 <= j < rows.len() && (#[trigger] rows[j]).0 == path,
    decreases rows.len(),
{
    if rows.len() > 0 {
        let (before, base, ours, theirs, merged) = choose|
            before: Table<Seq<u8>>,
            base: Vec<u8>,
            ours: Vec<u8>,
            theirs: Vec<u8>,
            merged: Vec<u8>,
        |
            #![trigger before.insert(rows.last().0, merged@), merge3.ensures((&base, &ours, &theirs), merged)]
            {
                &&& merge_output(objects, rows.drop_last(), merge3, before)
                &&& blob_or_empty(objects, rows.last().1[0]) == Ok::<_, Error>(base@)
                &&& blob_or_empty(objects, rows.last().1[1]) == Ok::<_, Error>(ours@)
                &&& blob_or_empty(objects, rows.last().1[2]) == Ok::<_, Error>(theirs@)
                &&& merge3.ensures((&base, &ours, &theirs), merged)
                &&& out == before.insert(rows.last().0, merged@)
            };
        lemma_merge_paths(objects, rows.drop_last(), merge3, before, path);
        if exists|j: int| 0 <= j < rows.len() && (#[trigger] rows[j]).0 == path {
            let j = choose|j: int| 0 <= j < rows.len() && (#[trigger] rows[j]).0 == path;
            if j < rows.len() - 1 {
                assert(rows.drop_last()[j].0 == path);
            }
        }
        if out.map.contains_key(path) && path != rows.last().0 {
            let j = choose|j: int|
                0 <= j < rows.drop_last().len() && (#[trigger] rows.drop_last()[j]).0 == path;
            assert(rows[j].0 == path);
        }
        assert(rows[rows.len() - 1] == rows.last());
    }
}

/// Where only one side changed a path, what holds of the content on both
/// sides holds of the merged content: a merge function that keeps
/// one-sided edits puts nothing of its own, such as a conflict marker, into
/// files that the two sides did not both change.
pub proof fn lemma_merge_adds_nothing<F: Fn(&Vec<u8>, &Vec<u8>, &Vec<u8>) -> Vec<u8>>(
    objects: Objects,
    rows: Seq<Row>,
    merge3: F,
    out: Table<Seq<u8>>,
    j: int,
    holds: spec_fn(Seq<u8>) -> bool,
)
    requires
        merge_output(objects, rows, merge3, out),
        keeps_one_sided_edits(merge3),
        distinct_paths(rows),
        0 <= j < rows.len(),
        blob_or_empty(objects, rows[j].1[1]) == blob_or_empty(objects, rows[j].1[0])
            || blob_or_empty(objects, rows[j].1[2]) == blob_or_empty(objects, rows[j].1[0]),
        blob_or_empty(objects, rows[j].1[1]) matches Ok(ours) ==> holds(ours),
        blob_or_empty(objects, rows[j].1[2]) matches Ok(theirs) ==> holds(theirs),
    ensures
        holds(out.map[rows[j].0]),
{
    lemma_merge_of_one_sided_edit(objects, rows, merge3, out, j);
}

/// The rows of a three-way merge are of different paths.
pub proof fn lemma_merge_plan_rows(objects: Objects, refs: Refs, oid: Seq<char>)
    ensures
        merge_plan(objects, refs, oid) matches Ok(MergePlan::ThreeWay { rows }) ==> distinct_paths(
            rows,
        ),
{
    if let Ok(MergePlan::ThreeWay { rows }) = merge_plan(objects, refs, oid) {
        let ours = ref_value(refs, head(), true)->Ok_0.value;
        let base = merge_base(objects, oid, ours)->Ok_0;
        let common = read_commit(objects, base)->Ok_0;
        let mine = read_commit(objects, ours)->Ok_0;
        let theirs = read_commit(objects, oid)->Ok_0;
        let t0 = crate::base::flatten(objects, common.tree, Seq::empty())->Ok_0;
        let t1 = crate::base::flatten(objects, mine.tree, Seq::empty())->Ok_0;
        let t2 = crate::base::flatten(objects, theirs.tree, Seq::empty())->Ok_0;
        lemma_compared_distinct(seq![t0, t1, t2]);
    }
}

} // verus!
