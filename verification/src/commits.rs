//! Commit objects: a line for the tree, a line for each parent, an empty
//! line, and the message.

use crate::text::{
    chars_of, has_prefix, join, join_from, lines, split_lines, starts_with_at, string_of,
    string_views, views,
};
use vstd::prelude::*;
use vstd::string::*;

verus! {

/// A commit: the tree it records, its parents (none, one or two), and its
/// message.
#[derive(Debug, Clone, PartialEq, Eq)]
pub struct Commit {
    pub tree: String,
    pub parents: Vec<String>,
    pub message: String,
}

/// The mathematical value of a `Commit`.
pub struct CommitView {
    pub tree: Seq<char>,
    pub parents: Seq<Seq<char>>,
    pub message: Seq<char>,
}

impl View for Commit {
    type V = CommitView;

    open spec fn view(&self) -> CommitView {
        CommitView {
            tree: self.tree@,
            parents: string_views(self.parents@),
            message: self.message@,
        }
    }
}

/// What the tree line begins with.
pub open spec fn tree_header() -> Seq<char> {
    seq!['t', 'r', 'e', 'e', ' ']
}

/// What a parent line begins with.
pub open spec fn parent_header() -> Seq<char> {
    seq!['p', 'a', 'r', 'e', 'n', 't', ' ']
}

/// One line for each parent.
pub open spec fn parent_lines(parents: Seq<Seq<char>>) -> Seq<char>
    decreases parents.len(),
{
    if parents.len() == 0 {
        Seq::empty()
    } else {
        parent_lines(parents.drop_last()) + parent_header() + parents.last() + seq!['\n']
    }
}

/// The content of a commit object.
pub open spec fn commit_text(c: CommitView) -> Seq<char> {
    tree_header() + c.tree + seq!['\n'] + parent_lines(c.parents) + seq!['\n'] + c.message
        + seq!['\n']
}

/// The parents that the lines after the first name: at most two.
pub open spec fn leading_parents(ls: Seq<Seq<char>>) -> Seq<Seq<char>> {
    if ls.len() > 1 && has_prefix(ls[1], parent_header()) {
        if ls.len() > 2 && has_prefix(ls[2], parent_header()) {
            seq![ls[1].skip(7), ls[2].skip(7)]
        } else {
            seq![ls[1].skip(7)]
        }
    } else {
        Seq::empty()
    }
}

/// The commit that `text` stands for: the first line names the tree, up to
/// two lines after it name parents, an empty line follows, and the lines
/// after that are the message. Any other text stands for none.
pub open spec fn parse_commit(text: Seq<char>) -> Option<CommitView> {
    let ls = lines(text);
    if ls.len() == 0 || !has_prefix(ls[0], tree_header()) {
        None
    } else {
        let parents = leading_parents(ls);
        let k = 1 + parents.len() as int;
        if ls.len() <= k || ls[k].len() != 0 {
            None
        } else {
            Some(CommitView { tree: ls[0].skip(5), parents, message: join(ls.skip(k + 1), '\n') })
        }
    }
}

/// The content of the commit object for `c`.
pub fn render_commit(c: &Commit) -> (text: String)
    ensures
        text@ == commit_text(c@),
{
    proof {
        reveal_strlit("tree ");
        reveal_strlit("parent ");
        assert("tree "@ =~= tree_header());
        assert("parent "@ =~= parent_header());
    }
    let mut text = "tree ".to_owned();
    text.append(c.tree.as_str());
    text.push('\n');
    let ghost start = text@;
    let ghost parents = string_views(c.parents@);
    let mut i: usize = 0;
    assert(parents.take(0) =~= Seq::empty());
    while i < c.parents.len()
        invariant
            i <= c.parents.len(),
            parents == string_views(c.parents@),
            "parent "@ == parent_header(),
            text@ == start + parent_lines(parents.take(i as int)),
        decreases c.parents.len() - i,
    {
        text.append("parent ");
        text.append(c.parents[i].as_str());
        text.push('\n');
        proof {
            assert(parents.take(i + 1).drop_last() == parents.take(i as int));
            assert(parents.take(i + 1).last() == c.parents@[i as int]@);
            assert(text@ =~= start + (parent_lines(parents.take(i as int)) + parent_header()
                + c.parents@[i as int]@ + seq!['\n']));
        }
        i += 1;
    }
    assert(parents.take(c.parents@.len() as int) == parents);
    text.push('\n');
    text.append(c.message.as_str());
    text.push('\n');
    assert(text@ =~= commit_text(c@));
    text
}

/// The commit that `text` stands for.
pub fn parse_commit_text(text: &str) -> (r: Option<Commit>)
    ensures
        r is Some <==> parse_commit(text@) is Some,
        r matches Some(c) ==> parse_commit(text@) == Some(c@),
{
    let chars = chars_of(text);
    let ls = split_lines(&chars);
    let tree_mark = chars_of("tree ");
    let parent_mark = chars_of("parent ");
    proof {
        reveal_strlit("tree ");
        reveal_strlit("parent ");
        assert(tree_mark@ =~= tree_header());
        assert(parent_mark@ =~= parent_header());
        assert forall|i: int| 0 <= i < ls@.len() implies #[trigger] ls@[i]@.skip(0) == ls@[i]@ by {
            assert(ls@[i]@.skip(0) =~= ls@[i]@);
        }
    }
    if ls.len() == 0 || !starts_with_at(&ls[0], 0, &tree_mark) {
        return None;
    }
    let tree = string_of(&ls[0], 5, ls[0].len());
    assert(ls@[0]@.subrange(5, ls@[0]@.len() as int) == ls@[0]@.skip(5));
    let mut parents: Vec<String> = Vec::new();
    if ls.len() > 1 && starts_with_at(&ls[1], 0, &parent_mark) {
        parents.push(string_of(&ls[1], 7, ls[1].len()));
        assert(ls@[1]@.subrange(7, ls@[1]@.len() as int) == ls@[1]@.skip(7));
        if ls.len() > 2 && starts_with_at(&ls[2], 0, &parent_mark) {
            parents.push(string_of(&ls[2], 7, ls[2].len()));
            assert(ls@[2]@.subrange(7, ls@[2]@.len() as int) == ls@[2]@.skip(7));
        }
    }
    assert(string_views(parents@) =~= leading_parents(views(ls@)));
    let k = 1 + parents.len();
    if ls.len() <= k || ls[k].len() != 0 {
        return None;
    }
    let message = join_from(&ls, k + 1, '\n');
    Some(Commit { tree, parents, message })
}

} // verus!
