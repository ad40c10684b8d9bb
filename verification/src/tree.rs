//! Tree objects: one line for each entry of a directory, `<kind> <oid>
//! <name>` and a line feed, the entries sorted.

use crate::order::{
    lemma_sorted_is, lemma_triple_connected, lemma_triple_transitive, sorted_triples, text_before,
    triple_leq, triple_order,
};
use crate::text::{chars_of, find_from, first_index, lines, split_lines, string_of, views};
use vstd::prelude::*;
use vstd::relations::sorted_by;
use vstd::string::*;

verus! {

/// One entry of a tree: the entry's name, the id of its object, and that
/// object's kind as it is written in the tree.
#[derive(Debug, Clone, PartialEq, Eq)]
pub struct TreeEntry {
    pub name: String,
    pub oid: String,
    pub kind: String,
}

/// The mathematical value of a tree entry: name, object id, kind. Entries
/// are sorted as such triples.
pub type EntryView = (Seq<char>, Seq<char>, Seq<char>);

impl View for TreeEntry {
    type V = EntryView;

    open spec fn view(&self) -> EntryView {
        (self.name@, self.oid@, self.kind@)
    }
}

/// The views of a vector of entries.
pub open spec fn entry_views(v: Seq<TreeEntry>) -> Seq<EntryView> {
    Seq::new(v.len(), |i: int| v[i]@)
}

/// The kind `blob` as a tree writes it.
pub open spec fn blob_word() -> Seq<char> {
    seq!['b', 'l', 'o', 'b']
}

/// The kind `tree` as a tree writes it.
pub open spec fn tree_word() -> Seq<char> {
    seq!['t', 'r', 'e', 'e']
}

/// The line of one entry.
pub open spec fn entry_line(e: EntryView) -> Seq<char> {
    e.2 + seq![' '] + e.1 + seq![' '] + e.0 + seq!['\n']
}

/// The content of a tree with the entries `es`, in their order.
pub open spec fn tree_text(es: Seq<EntryView>) -> Seq<char>
    decreases es.len(),
{
    if es.len() == 0 {
        Seq::empty()
    } else {
        tree_text(es.drop_last()) + entry_line(es.last())
    }
}

/// The entry that a line stands for: the kind up to the first blank, the
/// object id up to the second, the name after it. A line with fewer than two
/// blanks stands for none.
pub open spec fn parse_entry(line: Seq<char>) -> Option<EntryView> {
    let i = first_index(line, ' ');
    if !(0 <= i < line.len()) {
        None
    } else {
        let rest = line.skip(i + 1);
        let j = first_index(rest, ' ');
        if !(0 <= j < rest.len()) {
            None
        } else {
            Some((rest.skip(j + 1), rest.take(j), line.take(i)))
        }
    }
}

/// The entries that `ls` stand for, if each line stands for one.
pub open spec fn parse_entries(ls: Seq<Seq<char>>) -> Option<Seq<EntryView>>
    decreases ls.len(),
{
    if ls.len() == 0 {
        Some(Seq::empty())
    } else {
        match parse_entries(ls.drop_last()) {
            None => None,
            Some(es) => match parse_entry(ls.last()) {
                None => None,
                Some(e) => Some(es.push(e)),
            },
        }
    }
}

/// The entries of a tree with the content `text`.
pub open spec fn parse_tree(text: Seq<char>) -> Option<Seq<EntryView>> {
    parse_entries(lines(text))
}

/// Once a line stands for no entry, no longer run of lines stands for
/// entries.
pub proof fn lemma_parse_entries_fails(ls: Seq<Seq<char>>, n: int)
    requires
        0 <= n <= ls.len(),
        parse_entries(ls.take(n)) is None,
    ensures
        parse_entries(ls) is None,
    decreases ls.len() - n,
{
    if n < ls.len() {
        assert(ls.take(n + 1).drop_last() == ls.take(n));
        lemma_parse_entries_fails(ls, n + 1);
    } else {
        assert(ls.take(n) == ls);
    }
}

/// Whether `a` is sorted before `b`, or is `b`.
pub fn entry_before(a: &TreeEntry, b: &TreeEntry) -> (r: bool)
    ensures
        r == triple_leq(a@, b@),
{
    if !a.name.as_str().eq(b.name.as_str()) {
        text_before(a.name.as_str(), b.name.as_str())
    } else if !a.oid.as_str().eq(b.oid.as_str()) {
        text_before(a.oid.as_str(), b.oid.as_str())
    } else {
        text_before(a.kind.as_str(), b.kind.as_str())
    }
}

/// Sorts entries by name, then by object id, then by kind.
pub fn sort_entries(entries: Vec<TreeEntry>) -> (out: Vec<TreeEntry>)
    ensures
        entry_views(out@) == sorted_triples(entry_views(entries@)),
{
    let ghost all = entry_views(entries@);
    let mut rest = entries;
    let mut out: Vec<TreeEntry> = Vec::new();
    assert(entry_views(out@) =~= Seq::empty());
    proof {
        vstd::seq_lib::to_multiset_len(entry_views(out@));
        assert(entry_views(out@).to_multiset() =~= vstd::multiset::Multiset::empty());
        assert(entry_views(out@).to_multiset().add(all.to_multiset()) =~= all.to_multiset());
    }
    while rest.len() > 0
        invariant
            sorted_by(entry_views(out@), triple_order()),
            entry_views(out@).to_multiset().add(entry_views(rest@).to_multiset())
                == all.to_multiset(),
        decreases rest.len(),
    {
        let ghost before_rest = entry_views(rest@);
        let ghost before_out = entry_views(out@);
        let e = rest.pop().unwrap();
        let mut at: usize = 0;
        while at < out.len() && entry_before(&out[at], &e)
            invariant
                at <= out.len(),
                forall|j: int| 0 <= j < at ==> triple_leq(#[trigger] out@[j]@, e@),
            decreases out.len() - at,
        {
            at += 1;
        }
        out.insert(at, e);
        proof {
            let now = entry_views(out@);
            assert(now =~= before_out.insert(at as int, e@));
            assert(before_rest =~= entry_views(rest@).push(e@));
            vstd::seq_lib::to_multiset_insert(before_out, at as int, e@);
            vstd::seq_lib::to_multiset_build(entry_views(rest@), e@);
            assert(now.to_multiset().add(entry_views(rest@).to_multiset())
                =~= before_out.to_multiset().add(before_rest.to_multiset()));
            assert forall|i: int, j: int| 0 <= i < j < now.len() implies #[trigger] triple_order()(
                now[i],
                now[j],
            ) by {
                if j < at {
                    assert(triple_order()(before_out[i], before_out[j]));
                } else if j == at {
                    assert(now[i] == before_out[i]);
                } else if i == at {
                    lemma_triple_connected(before_out[at as int], e@);
                    if j - 1 > at {
                        assert(triple_order()(before_out[at as int], before_out[j - 1]));
                        lemma_triple_transitive(e@, before_out[at as int], before_out[j - 1]);
                    }
                } else if i < at {
                    assert(triple_order()(before_out[i], before_out[j - 1]));
                } else {
                    assert(triple_order()(before_out[i - 1], before_out[j - 1]));
                }
            }
        }
    }
    proof {
        assert(entry_views(rest@) =~= Seq::empty());
        vstd::seq_lib::to_multiset_len(entry_views(rest@));
        assert(entry_views(rest@).to_multiset() =~= vstd::multiset::Multiset::empty());
        assert(entry_views(out@).to_multiset().add(entry_views(rest@).to_multiset())
            =~= entry_views(out@).to_multiset());
        lemma_sorted_is(all, entry_views(out@));
    }
    out
}

/// The content of a tree with the entries `entries`, in their order.
pub fn render_tree(entries: &Vec<TreeEntry>) -> (text: String)
    ensures
        text@ == tree_text(entry_views(entries@)),
{
    let mut text = String::new();
    let mut i: usize = 0;
    assert(entry_views(entries@).take(0) =~= Seq::empty());
    while i < entries.len()
        invariant
            i <= entries.len(),
            text@ == tree_text(entry_views(entries@).take(i as int)),
        decreases entries.len() - i,
    {
        let e = &entries[i];
        text.append(e.kind.as_str());
        text.push(' ');
        text.append(e.oid.as_str());
        text.push(' ');
        text.append(e.name.as_str());
        text.push('\n');
        proof {
            let es = entry_views(entries@);
            assert(es.take(i + 1).drop_last() == es.take(i as int));
            assert(es.take(i + 1).last() == e@);
            assert(text@ =~= tree_text(es.take(i as int)) + entry_line(e@));
        }
        i += 1;
    }
    assert(entry_views(entries@).take(entries@.len() as int) == entry_views(entries@));
    text
}

/// The entry that a line stands for.
pub fn parse_line(line: &Vec<char>) -> (r: Option<TreeEntry>)
    ensures
        r is Some <==> parse_entry(line@) is Some,
        r matches Some(e) ==> parse_entry(line@) == Some(e@),
{
    assert(line@.skip(0) == line@);
    let i = find_from(line, 0, ' ');
    if i == line.len() {
        return None;
    }
    let j = find_from(line, i + 1, ' ');
    if j == line.len() {
        return None;
    }
    let kind = string_of(line, 0, i);
    let oid = string_of(line, i + 1, j);
    let name = string_of(line, j + 1, line.len());
    proof {
        let rest = line@.skip(i + 1);
        assert(line@.take(i as int) == line@.subrange(0, i as int));
        assert(rest.take(j - (i + 1)) == line@.subrange(i + 1, j as int));
        assert(rest.skip(j - (i + 1) + 1) == line@.subrange(j + 1, line@.len() as int));
    }
    Some(TreeEntry { name, oid, kind })
}

/// The entries of a tree with the content `text`.
pub fn parse_tree_text(text: &str) -> (r: Option<Vec<TreeEntry>>)
    ensures
        r is Some <==> parse_tree(text@) is Some,
        r matches Some(es) ==> parse_tree(text@) == Some(entry_views(es@)),
{
    let chars = chars_of(text);
    let ls = split_lines(&chars);
    let mut out: Vec<TreeEntry> = Vec::new();
    let mut i: usize = 0;
    assert(views(ls@).take(0) =~= Seq::empty());
    assert(entry_views(out@) =~= Seq::empty());
    while i < ls.len()
        invariant
            i <= ls.len(),
            views(ls@) == lines(text@),
            parse_entries(views(ls@).take(i as int)) == Some(entry_views(out@)),
        decreases ls.len() - i,
    {
        proof {
            let all = views(ls@);
            assert(all.take(i + 1).drop_last() == all.take(i as int));
            assert(all.take(i + 1).last() == ls@[i as int]@);
        }
        match parse_line(&ls[i]) {
            None => {
                proof {
                    lemma_parse_entries_fails(views(ls@), i + 1);
                }
                return None;
            },
            Some(e) => {
                let ghost before = entry_views(out@);
                let ghost ev = e@;
                out.push(e);
                assert(entry_views(out@) =~= before.push(ev));
            },
        }
        i += 1;
    }
    assert(views(ls@).take(ls@.len() as int) == views(ls@));
    Some(out)
}

} // verus!
