//! Removing sums that a page layout has put behind titles.

use crate::export_laws::headings_of;
use crate::model::{group_model_views, node_views, opt_text, Node, NodeView};
use crate::patterns::{without_first, Pattern, TRAILING_TOTAL};
use crate::text::{is_space, same, trim, trim_end, trim_start, trimmed};
use vstd::prelude::*;

verus! {

/// A title without the last sum behind it.
pub open spec fn without_total(s: Seq<char>) -> Seq<char> {
    trim(without_first(TRAILING_TOTAL@, s))
}

/// A title from which sums are taken until none is left.
pub open spec fn without_totals(s: Seq<char>) -> Seq<char>
    decreases s.len(),
{
    let next = without_total(s);
    if next == s || next.len() >= s.len() {
        s
    } else {
        without_totals(next)
    }
}

/// A title without white space at its ends and without sums behind it.
pub open spec fn clean_title(s: Seq<char>) -> Seq<char> {
    without_totals(trim(s))
}

pub proof fn lemma_trim_len(s: Seq<char>)
    ensures
        trim(s).len() <= s.len(),
{
    lemma_trim_start_len(s);
    lemma_trim_end_len(trim_start(s));
}

proof fn lemma_trim_start_len(s: Seq<char>)
    ensures
        trim_start(s).len() <= s.len(),
        trim_start(s).len() > 0 ==> !is_space(trim_start(s)[0]),
    decreases s.len(),
{
    if s.len() > 0 && is_space(s[0]) {
        lemma_trim_start_len(s.skip(1));
    }
}

proof fn lemma_trim_end_len(s: Seq<char>)
    ensures
        trim_end(s).len() <= s.len(),
        trim_end(s).len() > 0 ==> !is_space(trim_end(s).last()) && trim_end(s)[0] == s[0],
    decreases s.len(),
{
    if s.len() > 0 && is_space(s.last()) {
        lemma_trim_end_len(s.drop_last());
    }
}

/// What has no white space at its ends stays as it is when trimmed again.
pub proof fn lemma_trim_again(s: Seq<char>)
    ensures
        trim(trim(s)) == trim(s),
{
    lemma_trim_start_len(s);
    lemma_trim_end_len(trim_start(s));
}

/// A title after one more sum was looked for, given what is left of it without the match;
/// nothing where there was none.
pub open spec fn next_title(title: Seq<char>, left: Seq<char>) -> Option<Seq<char>> {
    if trim(left) == title {
        None
    } else {
        Some(trim(left))
    }
}

pub fn title_left(title: &str, left: &str) -> (r: Option<String>)
    ensures
        opt_text(r) == next_title(title@, left@),
{
    let cleaned = trimmed(left);
    if same(cleaned.as_str(), title) {
        None
    } else {
        Some(cleaned)
    }
}

fn strip(pattern: &Pattern, value: &str) -> (r: String)
    requires
        pattern@ == TRAILING_TOTAL@,
    ensures
        r@ == clean_title(value@),
{
    let mut result = trimmed(value);
    let mut done = false;
    proof {
        lemma_trim_again(value@);
    }
    while !done
        invariant
            pattern@ == TRAILING_TOTAL@,
            trim(result@) == result@,
            without_totals(result@) == clean_title(value@),
            done ==> result@ == clean_title(value@),
        decreases result@.len() + (if done { 0int } else { 1int }),
    {
        let removed = pattern.removed(result.as_str());
        proof {
            lemma_trim_len(removed@);
            lemma_trim_again(removed@);
        }
        match title_left(result.as_str(), removed.as_str()) {
            Some(left) => {
                result = left;
            },
            None => {
                done = true;
            },
        }
    }
    result
}

/// Takes the sums from the end of a title.
pub fn strip_trailing_totals(value: &str) -> (r: String)
    ensures
        r@ == clean_title(value@),
{
    let pattern = Pattern::new(TRAILING_TOTAL);
    strip(&pattern, value)
}

/// A tree with all its titles cleaned.
pub open spec fn with_clean_titles(nodes: Seq<NodeView>) -> Seq<NodeView>
    decreases nodes,
{
    if nodes.len() == 0 {
        seq![]
    } else {
        with_clean_titles(nodes.drop_last()).push(
            NodeView {
                title: clean_title(nodes.last().title),
                children: with_clean_titles(nodes.last().children),
                ..nodes.last()
            },
        )
    }
}

proof fn lemma_clean_titles_len(nodes: Seq<NodeView>)
    ensures
        with_clean_titles(nodes).len() == nodes.len(),
    decreases nodes.len(),
{
    if nodes.len() > 0 {
        lemma_clean_titles_len(nodes.drop_last());
    }
}

fn clean_all(pattern: &Pattern, nodes: &mut Vec<Node>)
    requires
        pattern@ == TRAILING_TOTAL@,
    ensures
        node_views(final(nodes)@) == with_clean_titles(node_views(old(nodes)@)),
    decreases *old(nodes),
{
    broadcast use group_model_views;
    let ghost start = nodes@;
    let ghost before = node_views(nodes@);
    let mut i: usize = 0;
    assert(with_clean_titles(before.take(0)) + before.skip(0) =~= before);
    while i < nodes.len()
        invariant
            pattern@ == TRAILING_TOTAL@,
            i <= nodes@.len() == start.len(),
            start == old(nodes)@,
            before == node_views(start),
            forall|k: int| i <= k < start.len() ==> nodes@[k] == start[k],
            with_clean_titles(before.take(i as int)).len() == i,
            node_views(nodes@) == with_clean_titles(before.take(i as int)) + before.skip(i as int),
        decreases start.len() - i,
    {
        broadcast use group_model_views;
        let ghost here = node_views(nodes@);
        let mut node = Node::default();
        std::mem::swap(&mut node, &mut nodes[i]);
        assert(node == start[i as int]);
        node.title = strip(pattern, node.title.as_str());
        assert(decreases_to!(*old(nodes) => start[i as int].children));
        clean_all(pattern, &mut node.children);
        let ghost after = node@;
        nodes.set(i, node);
        proof {
            assert(before.take(i + 1).drop_last() =~= before.take(i as int));
            assert(before.take(i + 1).last() == start[i as int]@);
            lemma_clean_titles_len(before.take(i + 1));
            assert(after =~= NodeView {
                title: clean_title(start[i as int]@.title),
                children: with_clean_titles(start[i as int]@.children),
                ..start[i as int]@
            });
            assert(node_views(nodes@) =~= here.update(i as int, after));
            assert(node_views(nodes@) =~= with_clean_titles(before.take(i + 1)) + before.skip(i + 1));
        }
        i = i + 1;
    }
    assert(before.take(i as int) =~= before);
    assert(node_views(nodes@) =~= with_clean_titles(before));
}

/// Takes the sums from the ends of all titles of a tree.
pub fn clean_titles(nodes: &mut Vec<Node>)
    ensures
        node_views(final(nodes)@) == with_clean_titles(node_views(old(nodes)@)),
{
    let pattern = Pattern::new(TRAILING_TOTAL);
    clean_all(&pattern, nodes);
}

/// Cleaning a title a second time changes nothing.
pub proof fn law_clean_title_settles(s: Seq<char>)
    ensures
        clean_title(clean_title(s)) == clean_title(s),
{
    lemma_trim_again(s);
    lemma_without_totals_trimmed(trim(s));
    lemma_without_totals_settles(trim(s));
}

proof fn lemma_without_totals_trimmed(s: Seq<char>)
    requires
        trim(s) == s,
    ensures
        trim(without_totals(s)) == without_totals(s),
    decreases s.len(),
{
    let next = without_total(s);
    if next != s && next.len() < s.len() {
        lemma_trim_again(without_first(TRAILING_TOTAL@, s));
        lemma_without_totals_trimmed(next);
    }
}

proof fn lemma_without_totals_settles(s: Seq<char>)
    ensures
        without_totals(without_totals(s)) == without_totals(s),
    decreases s.len(),
{
    let next = without_total(s);
    if next != s && next.len() < s.len() {
        lemma_without_totals_settles(next);
    }
}

/// A cleaned title has no white space at its ends, and the search for one more sum takes
/// nothing from it. A title behind which no sum is found keeps its text, and one behind
/// which a sum is found is cleaned like the title without it.
pub proof fn law_title_cleaned(s: Seq<char>)
    ensures
        trim(clean_title(s)) == clean_title(s),
        clean_title(s).len() <= trim(s).len(),
        ({
            let left = trim(without_first(TRAILING_TOTAL@, clean_title(s)));
            left == clean_title(s) || left.len() >= clean_title(s).len()
        }),
        ({
            let left = trim(without_first(TRAILING_TOTAL@, trim(s)));
            &&& left == trim(s) ==> clean_title(s) == trim(s)
            &&& left.len() < trim(s).len() ==> clean_title(s) == clean_title(left)
        }),
{
    lemma_trim_again(s);
    lemma_totals_gone(trim(s));
    lemma_trim_again(without_first(TRAILING_TOTAL@, trim(s)));
}

proof fn lemma_totals_gone(s: Seq<char>)
    requires
        trim(s) == s,
    ensures
        trim(without_totals(s)) == without_totals(s),
        without_totals(s).len() <= s.len(),
        ({
            let left = trim(without_first(TRAILING_TOTAL@, without_totals(s)));
            left == without_totals(s) || left.len() >= without_totals(s).len()
        }),
    decreases s.len(),
{
    let next = without_total(s);
    lemma_trim_again(without_first(TRAILING_TOTAL@, s));
    if next != s && next.len() < s.len() {
        lemma_totals_gone(next);
    }
}

/// Every heading of a cleaned tree stands where it stood, with its own number, level, page
/// and positions, and with its own title cleaned.
pub proof fn law_titles_cleaned(nodes: Seq<NodeView>)
    ensures
        ({
            let before = headings_of(nodes);
            let after = headings_of(with_clean_titles(nodes));
            &&& after.len() == before.len()
            &&& forall|j: int| #![trigger after[j]]
                0 <= j < after.len() ==> {
                    &&& after[j].title == clean_title(before[j].title)
                    &&& after[j].oz == before[j].oz
                    &&& after[j].level == before[j].level
                    &&& after[j].page == before[j].page
                    &&& after[j].positions == before[j].positions
                }
        }),
    decreases nodes,
{
    if nodes.len() > 0 {
        law_titles_cleaned(nodes.drop_last());
        law_titles_cleaned(nodes.last().children);
        let done = with_clean_titles(nodes);
        assert(done.drop_last() =~= with_clean_titles(nodes.drop_last()));
        let front = headings_of(nodes.drop_last());
        let before = headings_of(nodes);
        let after = headings_of(done);
        let n = front.len() as int;
        assert forall|j: int| #![trigger after[j]] 0 <= j < after.len() implies {
            &&& after[j].title == clean_title(before[j].title)
            &&& after[j].oz == before[j].oz
            &&& after[j].level == before[j].level
            &&& after[j].page == before[j].page
            &&& after[j].positions == before[j].positions
        } by {
            if j < n {
                assert(after[j] == headings_of(done.drop_last())[j]);
            } else if j == n {
                assert(after[j] == done.last());
                assert(before[j] == nodes.last());
            } else {
                assert(after[j] == headings_of(done.last().children)[j - n - 1]);
                assert(before[j] == headings_of(nodes.last().children)[j - n - 1]);
            }
        }
    }
}

} // verus!
