//! What holds of the index whatever is inserted and searched: stated over the
//! mathematical tree, and proved.

use crate::text::{is_substring, lemma_empty_is_substring};
use crate::trie::{
    first_named, forest_nodes, forest_well_formed, inserted_all, lemma_first_named,
    lemma_first_named_is, EntryView, Record, TrieView,
};
use vstd::prelude::*;

verus! {

/// Replacing the subtree of a child, under the same name, moves no name.
proof fn lemma_first_named_update(
    children: Seq<(Seq<char>, TrieView)>,
    i: int,
    subtree: TrieView,
    name: Seq<char>,
)
    requires
        0 <= i < children.len(),
    ensures
        first_named(children.update(i, (children[i].0, subtree)), name) == first_named(
            children,
            name,
        ),
{
    lemma_first_named(children, name);
    let updated = children.update(i, (children[i].0, subtree));
    let k = first_named(children, name);
    assert forall|j: int| 0 <= j < k implies (#[trigger] updated[j]).0 != name by {
        assert(children[j].0 != name);
    }
    lemma_first_named_is(updated, name, k);
}

/// A child added at the end is found only under its own name, and only if
/// no earlier child has it.
proof fn lemma_first_named_push(
    children: Seq<(Seq<char>, TrieView)>,
    child: (Seq<char>, TrieView),
    name: Seq<char>,
)
    ensures
        first_named(children.push(child), name) == if first_named(children, name)
            < children.len() || child.0 == name {
            first_named(children, name)
        } else {
            children.len() as int + 1
        },
{
    lemma_first_named(children, name);
    let pushed = children.push(child);
    let k = first_named(children, name);
    let expected = if k < children.len() || child.0 == name {
        k
    } else {
        children.len() as int + 1
    };
    assert forall|j: int| 0 <= j < expected implies (#[trigger] pushed[j]).0 != name by {
        if j < children.len() {
            assert(children[j].0 != name);
        }
    }
    lemma_first_named_is(pushed, name, expected);
}

/// What an insertion does to each position of the tree. A node that exists
/// keeps its record. A node is created at each non-empty prefix of `segments`
/// that had none: with the entry's record at `segments` itself, and as a
/// placeholder at every shorter prefix. No other position gets a node.
pub proof fn lemma_inserted_record_at(
    tree: TrieView,
    segments: Seq<Seq<char>>,
    record: Record,
    position: Seq<Seq<char>>,
)
    ensures
        tree.inserted(segments, record).record_at(position) == if tree.record_at(position)
            is Some {
            tree.record_at(position)
        } else if position.len() > 0 && position.is_prefix_of(segments) {
            Some(
                if position.len() == segments.len() {
                    record
                } else {
                    record.placeholder()
                },
            )
        } else {
            None
        },
    decreases position.len(),
{
    if position.len() > 0 && segments.len() > 0 {
        let after = tree.inserted(segments, record);
        let name = segments[0];
        let rest = segments.drop_first();
        let wanted = position[0];
        let below = position.drop_first();
        let i = first_named(tree.children, name);
        lemma_first_named(tree.children, name);
        lemma_first_named(tree.children, wanted);
        if i < tree.children.len() {
            lemma_first_named_update(tree.children, i, tree.children[i].1.inserted(rest, record), wanted);
        } else {
            let fresh = TrieView::leaf(
                if rest.len() == 0 {
                    record
                } else {
                    record.placeholder()
                },
            );
            lemma_first_named_push(tree.children, (name, fresh.inserted(rest, record)), wanted);
        }
        if wanted == name {
            let child = if i < tree.children.len() {
                tree.children[i].1
            } else {
                TrieView::leaf(
                    if rest.len() == 0 {
                        record
                    } else {
                        record.placeholder()
                    },
                )
            };
            lemma_inserted_record_at(child, rest, record, below);
            assert(after.children[i].1 == child.inserted(rest, record));
            assert(position.is_prefix_of(segments) <==> below.is_prefix_of(rest)) by {
                if position.is_prefix_of(segments) {
                    assert(below =~= rest.subrange(0, below.len() as int));
                }
                if below.is_prefix_of(rest) {
                    let front = segments.subrange(0, position.len() as int);
                    assert forall|k: int| 0 <= k < position.len() implies position[k] == front[k] by {
                        if k > 0 {
                            assert(position[k] == below[k - 1]);
                            assert(rest.subrange(0, below.len() as int)[k - 1] == rest[k - 1]);
                        }
                    }
                    assert(position =~= front);
                }
            }
        } else {
            assert(!position.is_prefix_of(segments)) by {
                if position.is_prefix_of(segments) {
                    assert(segments.subrange(0, position.len() as int)[0] == segments[0]);
                }
            }
            let j = first_named(tree.children, wanted);
            if j < tree.children.len() {
                assert(after.children[j] == tree.children[j]);
            }
        }
    } else if position.len() > 0 {
        assert(!position.is_prefix_of(segments));
    }
}

/// Inserting where a node exists changes nothing.
pub proof fn lemma_insert_existing(tree: TrieView, segments: Seq<Seq<char>>, record: Record)
    requires
        tree.lookup(segments) is Some,
    ensures
        tree.inserted(segments, record) == tree,
    decreases segments.len(),
{
    if segments.len() > 0 {
        let i = first_named(tree.children, segments[0]);
        lemma_first_named(tree.children, segments[0]);
        lemma_insert_existing(tree.children[i].1, segments.drop_first(), record);
        assert(tree.children.update(i, (segments[0], tree.children[i].1)) =~= tree.children);
    }
}

/// After an insertion there is a node at the position that was inserted.
pub proof fn lemma_inserted_present(tree: TrieView, segments: Seq<Seq<char>>, record: Record)
    ensures
        tree.inserted(segments, record).lookup(segments) is Some,
{
    lemma_inserted_record_at(tree, segments, record, segments);
    assert(segments.is_prefix_of(segments)) by {
        assert(segments =~= segments.subrange(0, segments.len() as int));
    }
}

/// The first write wins. Inserting the same position a second time, with
/// whatever metadata, leaves the whole tree as the first insertion made it;
/// and where the first insertion created the node, the node holds the first
/// insertion's record.
pub proof fn lemma_first_insertion_wins(
    tree: TrieView,
    segments: Seq<Seq<char>>,
    first: Record,
    second: Record,
)
    ensures
        tree.inserted(segments, first).inserted(segments, second) == tree.inserted(segments, first),
        tree.lookup(segments) is None ==> tree.inserted(segments, first).inserted(
            segments,
            second,
        ).record_at(segments) == Some(first),
{
    lemma_inserted_present(tree, segments, first);
    lemma_insert_existing(tree.inserted(segments, first), segments, second);
    lemma_inserted_record_at(tree, segments, first, segments);
    assert(segments.is_prefix_of(segments)) by {
        assert(segments =~= segments.subrange(0, segments.len() as int));
    }
}

/// A node without children is well formed.
pub proof fn lemma_leaf_well_formed(record: Record)
    ensures
        TrieView::leaf(record).well_formed(),
{
    assert(TrieView::leaf(record).child_names() =~= Seq::<Seq<char>>::empty());
}

/// An insertion keeps the names of the children of every node distinct.
pub proof fn lemma_inserted_well_formed(tree: TrieView, segments: Seq<Seq<char>>, record: Record)
    requires
        tree.well_formed(),
    ensures
        tree.inserted(segments, record).well_formed(),
    decreases segments.len(),
{
    if segments.len() > 0 {
        let after = tree.inserted(segments, record);
        let name = segments[0];
        let rest = segments.drop_first();
        let i = first_named(tree.children, name);
        lemma_first_named(tree.children, name);
        if i < tree.children.len() {
            assert(tree.children[i].1.well_formed());
            lemma_inserted_well_formed(tree.children[i].1, rest, record);
            assert(after.child_names() =~= tree.child_names());
            assert forall|j: int| 0 <= j < after.children.len() implies (
            #[trigger] after.children[j]).1.well_formed() by {
                if j != i {
                    assert(tree.children[j].1.well_formed());
                }
            }
        } else {
            let fresh = TrieView::leaf(
                if rest.len() == 0 {
                    record
                } else {
                    record.placeholder()
                },
            );
            lemma_leaf_well_formed(fresh.record);
            lemma_inserted_well_formed(fresh, rest, record);
            assert(after.child_names() =~= tree.child_names().push(name));
            assert forall|a: int, b: int|
                0 <= a < after.child_names().len() && 0 <= b < after.child_names().len() && a
                    != b implies after.child_names()[a] != after.child_names()[b] by {
                if a < tree.children.len() {
                    assert(tree.children[a].0 != name);
                    assert(tree.child_names()[a] == tree.children[a].0);
                }
                if b < tree.children.len() {
                    assert(tree.children[b].0 != name);
                    assert(tree.child_names()[b] == tree.children[b].0);
                }
            }
            assert forall|j: int| 0 <= j < after.children.len() implies (
            #[trigger] after.children[j]).1.well_formed() by {
                if j < tree.children.len() {
                    assert(tree.children[j].1.well_formed());
                }
            }
        }
    }
}

/// Inserting any entries keeps the names of the children of every node distinct.
pub proof fn lemma_inserted_all_well_formed(tree: TrieView, entries: Seq<EntryView>)
    requires
        tree.well_formed(),
    ensures
        inserted_all(tree, entries).well_formed(),
    decreases entries.len(),
{
    if entries.len() > 0 {
        lemma_inserted_all_well_formed(tree, entries.drop_last());
        lemma_inserted_well_formed(
            inserted_all(tree, entries.drop_last()),
            entries.last().segments,
            entries.last().record,
        );
    }
}

/// One of the first `i` entries lies at `position`.
pub open spec fn has_earlier_entry_at(entries: Seq<EntryView>, i: int, position: Seq<Seq<char>>) -> bool {
    exists|j: int| 0 <= j < i && j < entries.len() && (#[trigger] entries[j]).segments == position
}

/// Every entry comes after an entry for each directory above it: each
/// shorter, non-empty prefix of its segments is the position of an earlier entry.
pub open spec fn parents_first(entries: Seq<EntryView>) -> bool {
    forall|i: int, k: int|
        0 <= i < entries.len() && 0 < k < entries[i].segments.len() ==> #[trigger] has_earlier_entry_at(
            entries,
            i,
            entries[i].segments.take(k),
        )
}

/// `entries[j]` is the first entry that lies at `position`.
pub open spec fn is_first_at(entries: Seq<EntryView>, j: int, position: Seq<Seq<char>>) -> bool {
    &&& 0 <= j < entries.len()
    &&& entries[j].segments == position
    &&& forall|i: int| 0 <= i < j ==> (#[trigger] entries[i]).segments != position
}

/// Parents before children give every node its own identity. When the
/// entries come parents first and are inserted below a root without
/// children, the nodes below the root are exactly the positions of the
/// entries, and each node holds the record of the first entry that lies at
/// its position: its own path, type, size and time, never those of an entry
/// further down.
pub proof fn lemma_parents_first_own_records(
    root: Record,
    entries: Seq<EntryView>,
    position: Seq<Seq<char>>,
)
    requires
        parents_first(entries),
        position.len() > 0,
    ensures
        match inserted_all(TrieView::leaf(root), entries).record_at(position) {
            Some(record) => exists|j: int| #[trigger]
                is_first_at(entries, j, position) && entries[j].record == record,
            None => forall|j: int|
                0 <= j < entries.len() ==> (#[trigger] entries[j]).segments != position,
        },
    decreases entries.len(),
{
    let empty = TrieView::leaf(root);
    if entries.len() == 0 {
        lemma_first_named(empty.children, position[0]);
    } else {
        let earlier = entries.drop_last();
        let entry = entries.last();
        let n = earlier.len() as int;
        let before = inserted_all(empty, earlier);
        assert(parents_first(earlier)) by {
            assert forall|i: int, k: int|
                0 <= i < earlier.len() && 0 < k < earlier[i].segments.len() implies #[trigger] has_earlier_entry_at(
                earlier,
                i,
                earlier[i].segments.take(k),
            ) by {
                assert(earlier[i] == entries[i]);
                assert(has_earlier_entry_at(entries, i, entries[i].segments.take(k)));
                let j = choose|j: int|
                    0 <= j < i && j < entries.len() && (#[trigger] entries[j]).segments
                        == entries[i].segments.take(k);
                assert(earlier[j] == entries[j]);
            }
        }
        lemma_parents_first_own_records(root, earlier, position);
        lemma_inserted_record_at(before, entry.segments, entry.record, position);
        match before.record_at(position) {
            Some(record) => {
                let j = choose|j: int| #[trigger]
                    is_first_at(earlier, j, position) && earlier[j].record == record;
                assert(is_first_at(entries, j, position)) by {
                    assert(earlier[j] == entries[j]);
                    assert forall|i: int| 0 <= i < j implies (#[trigger] entries[i]).segments
                        != position by {
                        assert(earlier[i] == entries[i]);
                    }
                }
            },
            None => {
                assert forall|i: int| 0 <= i < n implies (#[trigger] entries[i]).segments
                    != position by {
                    assert(earlier[i] == entries[i]);
                }
                if position.is_prefix_of(entry.segments) {
                    if position.len() < entry.segments.len() {
                        let k = position.len() as int;
                        assert(entry.segments.take(k) == position);
                        assert(entries[n] == entry);
                        assert(has_earlier_entry_at(entries, n, entries[n].segments.take(k)));
                        assert(false);
                    } else {
                        assert(entry.segments =~= position);
                        assert(is_first_at(entries, n, position));
                    }
                } else {
                    assert(entry.segments != position) by {
                        if entry.segments == position {
                            assert(position =~= entry.segments.subrange(0, position.len() as int));
                        }
                    }
                }
            },
        }
    }
}

/// The record of every node that can be reached from the root is among the
/// records that the pre-order lists.
pub proof fn lemma_reachable_in_nodes(tree: TrieView, position: Seq<Seq<char>>)
    requires
        tree.lookup(position) is Some,
    ensures
        tree.nodes().contains(tree.lookup(position).unwrap().record),
    decreases position.len(),
{
    if position.len() == 0 {
        assert(tree.nodes()[0] == tree.record);
    } else {
        let i = first_named(tree.children, position[0]);
        lemma_first_named(tree.children, position[0]);
        let child = tree.children[i].1;
        let record = tree.lookup(position).unwrap().record;
        lemma_reachable_in_nodes(child, position.drop_first());
        lemma_forest_nodes_contains(tree.children, i, record);
        let k = choose|k: int|
            0 <= k < forest_nodes(tree.children).len() && forest_nodes(tree.children)[k] == record;
        assert(tree.nodes()[k + 1] == record);
    }
}

/// What the pre-order of one subtree lists, the pre-order of the forest lists.
proof fn lemma_forest_nodes_contains(forest: Seq<(Seq<char>, TrieView)>, i: int, record: Record)
    requires
        0 <= i < forest.len(),
        forest[i].1.nodes().contains(record),
    ensures
        forest_nodes(forest).contains(record),
    decreases forest.len(),
{
    let front = forest_nodes(forest.drop_last());
    let back = forest.last().1.nodes();
    if i == forest.len() - 1 {
        let k = choose|k: int| 0 <= k < back.len() && back[k] == record;
        assert((front + back)[front.len() + k] == record);
    } else {
        assert(forest.drop_last()[i] == forest[i]);
        lemma_forest_nodes_contains(forest.drop_last(), i, record);
        let k = choose|k: int| 0 <= k < front.len() && front[k] == record;
        assert((front + back)[k] == record);
    }
}

/// What the pre-order of a forest lists, the pre-order of one of its subtrees lists.
proof fn lemma_forest_nodes_origin(forest: Seq<(Seq<char>, TrieView)>, record: Record) -> (i: int)
    requires
        forest_nodes(forest).contains(record),
    ensures
        0 <= i < forest.len(),
        forest[i].1.nodes().contains(record),
    decreases forest.len(),
{
    if forest.len() == 0 {
        0
    } else {
        let front = forest_nodes(forest.drop_last());
        let back = forest.last().1.nodes();
        let k = choose|k: int| 0 <= k < (front + back).len() && (front + back)[k] == record;
        if k < front.len() {
            assert(front[k] == record);
            let i = lemma_forest_nodes_origin(forest.drop_last(), record);
            assert(forest.drop_last()[i] == forest[i]);
            i
        } else {
            assert(back[k - front.len()] == record);
            forest.len() - 1
        }
    }
}

/// In a tree whose child names are distinct, every record that the pre-order
/// lists is the record of a node that can be reached from the root.
pub proof fn lemma_nodes_reachable(tree: TrieView, record: Record) -> (position: Seq<Seq<char>>)
    requires
        tree.well_formed(),
        tree.nodes().contains(record),
    ensures
        tree.record_at(position) == Some(record),
    decreases tree,
{
    if tree.record == record {
        Seq::empty()
    } else {
        let k = choose|k: int| 0 <= k < tree.nodes().len() && tree.nodes()[k] == record;
        assert(forest_nodes(tree.children)[k - 1] == record);
        let i = lemma_forest_nodes_origin(tree.children, record);
        let below = lemma_nodes_reachable(tree.children[i].1, record);
        let name = tree.children[i].0;
        assert forall|j: int| 0 <= j < i implies (#[trigger] tree.children[j]).0 != name by {
            assert(tree.child_names()[j] == tree.children[j].0);
            assert(tree.child_names()[i] == tree.children[i].0);
        }
        lemma_first_named_is(tree.children, name, i);
        let position = seq![name] + below;
        assert(position.drop_first() =~= below);
        position
    }
}

/// A search is complete and exact: a record that the pre-order of the tree
/// lists is among the hits if and only if its path contains the pattern.
pub proof fn lemma_search_complete(tree: TrieView, pattern: Seq<char>, record: Record)
    requires
        tree.nodes().contains(record),
    ensures
        tree.matching(pattern).contains(record) <==> is_substring(pattern, record.path),
{
    let accepts = |r: Record| is_substring(pattern, r.path);
    let hits = tree.matching(pattern);
    if hits.contains(record) {
        let k = choose|k: int| 0 <= k < hits.len() && hits[k] == record;
        tree.nodes().lemma_filter_pred(accepts, k);
    }
    if is_substring(pattern, record.path) {
        let k = choose|k: int| 0 <= k < tree.nodes().len() && tree.nodes()[k] == record;
        tree.nodes().lemma_filter_contains(accepts, k);
    }
}

/// A search finds the node at a position if and only if the path of that
/// node contains the pattern.
pub proof fn lemma_search_finds_node_at(
    tree: TrieView,
    pattern: Seq<char>,
    position: Seq<Seq<char>>,
)
    requires
        tree.lookup(position) is Some,
    ensures
        tree.matching(pattern).contains(tree.lookup(position).unwrap().record) <==> is_substring(
            pattern,
            tree.lookup(position).unwrap().record.path,
        ),
{
    lemma_reachable_in_nodes(tree, position);
    lemma_search_complete(tree, pattern, tree.lookup(position).unwrap().record);
}

/// A search returns nothing else: every hit is the record of a node of the
/// tree, and its path contains the pattern.
pub proof fn lemma_search_sound(tree: TrieView, pattern: Seq<char>, hit: Record) -> (position: Seq<
    Seq<char>,
>)
    requires
        tree.well_formed(),
        tree.matching(pattern).contains(hit),
    ensures
        tree.record_at(position) == Some(hit),
        is_substring(pattern, hit.path),
{
    let accepts = |r: Record| is_substring(pattern, r.path);
    let hits = tree.matching(pattern);
    let k = choose|k: int| 0 <= k < hits.len() && hits[k] == hit;
    tree.nodes().lemma_filter_pred(accepts, k);
    tree.nodes().lemma_filter_contains_rev(accepts, hit);
    lemma_nodes_reachable(tree, hit)
}

/// The empty pattern occurs in every path: a search for it lists every node.
pub proof fn lemma_empty_pattern_matches_all(tree: TrieView)
    ensures
        tree.matching(Seq::empty()) == tree.nodes(),
{
    let accepts = |r: Record| is_substring(Seq::<char>::empty(), r.path);
    assert forall|i: int| 0 <= i < tree.nodes().len() implies accepts(#[trigger] tree.nodes()[i]) by {
        lemma_empty_is_substring(tree.nodes()[i].path);
    }
    lemma_filter_all(tree.nodes(), accepts);
}

/// A filter that accepts every item keeps the sequence as it is.
proof fn lemma_filter_all<A>(s: Seq<A>, accepts: spec_fn(A) -> bool)
    requires
        forall|i: int| 0 <= i < s.len() ==> accepts(#[trigger] s[i]),
    ensures
        s.filter(accepts) == s,
    decreases s.len(),
{
    reveal(Seq::filter);
    if s.len() > 0 {
        let front = s.drop_last();
        assert forall|i: int| 0 <= i < front.len() implies accepts(#[trigger] front[i]) by {
            assert(front[i] == s[i]);
        }
        lemma_filter_all(front, accepts);
        assert(accepts(s[s.len() - 1]));
        assert(front.push(s.last()) =~= s);
    }
}

} // verus!
