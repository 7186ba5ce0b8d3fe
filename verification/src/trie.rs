//! The prefix tree over path segments: one node per segment sequence that was
//! ever inserted, each with the metadata it was created with.

use crate::text::{is_substring, str_contains};
use crate::trie_laws::{lemma_inserted_well_formed, lemma_leaf_well_formed};
use vstd::prelude::*;

verus! {

/// What the index knows about one filesystem entry: the view of a
/// [`SearchResult`] and of the metadata of a [`TrieNode`].
pub struct Record {
    pub path: Seq<char>,
    pub is_file: bool,
    pub size: u64,
    /// Whole seconds since the Unix epoch; negative before it.
    pub modified: i64,
}

impl Record {
    /// The provisional identity of a node that is created on the way to a
    /// deeper entry: not a file, no size, but the time and the path of that entry.
    pub open spec fn placeholder(self) -> Record {
        Record { path: self.path, is_file: false, size: 0, modified: self.modified }
    }
}

/// The mathematical tree that a [`TrieNode`] stands for. Children are kept in
/// the order in which they were created.
pub struct TrieView {
    pub record: Record,
    pub children: Seq<(Seq<char>, TrieView)>,
}

/// The index of the first child called `name`, or `children.len()` if there is none.
pub open spec fn first_named(children: Seq<(Seq<char>, TrieView)>, name: Seq<char>) -> int
    decreases children.len(),
{
    if children.len() == 0 {
        0
    } else if children[0].0 == name {
        0
    } else {
        1 + first_named(children.drop_first(), name)
    }
}

/// The records of a sequence of subtrees, each in pre-order, one subtree after the other.
pub open spec fn forest_nodes(forest: Seq<(Seq<char>, TrieView)>) -> Seq<Record>
    decreases forest, 0int,
{
    if forest.len() == 0 {
        Seq::empty()
    } else {
        forest_nodes(forest.drop_last()) + forest.last().1.nodes()
    }
}

/// No two children of one node share a name, anywhere in the forest.
pub open spec fn forest_well_formed(forest: Seq<(Seq<char>, TrieView)>) -> bool
    decreases forest, 0int,
{
    forall|i: int| 0 <= i < forest.len() ==> (#[trigger] forest[i]).1.well_formed()
}

impl TrieView {
    /// A node without children.
    pub open spec fn leaf(record: Record) -> TrieView {
        TrieView { record, children: Seq::empty() }
    }

    /// The names of the children, in order.
    pub open spec fn child_names(self) -> Seq<Seq<char>> {
        self.children.map_values(|child: (Seq<char>, TrieView)| child.0)
    }

    /// The subtree reached by following `segments` from this node, if every
    /// segment names a child.
    pub open spec fn lookup(self, segments: Seq<Seq<char>>) -> Option<TrieView>
        decreases segments.len(),
    {
        if segments.len() == 0 {
            Some(self)
        } else {
            let i = first_named(self.children, segments[0]);
            if i < self.children.len() {
                self.children[i].1.lookup(segments.drop_first())
            } else {
                None
            }
        }
    }

    /// The record of the node at `position`, if there is one.
    pub open spec fn record_at(self, position: Seq<Seq<char>>) -> Option<Record> {
        match self.lookup(position) {
            Some(node) => Some(node.record),
            None => None,
        }
    }

    /// The tree after the entry `record` was inserted at `segments`: every
    /// segment on the way that has no node yet gets one, the last with the
    /// entry's own metadata and the others as placeholders; nodes that exist
    /// are left as they are.
    pub open spec fn inserted(self, segments: Seq<Seq<char>>, record: Record) -> TrieView
        decreases segments.len(),
    {
        if segments.len() == 0 {
            self
        } else {
            let name = segments[0];
            let rest = segments.drop_first();
            let i = first_named(self.children, name);
            if i < self.children.len() {
                let child = self.children[i].1.inserted(rest, record);
                TrieView { record: self.record, children: self.children.update(i, (name, child)) }
            } else {
                let fresh = TrieView::leaf(
                    if rest.len() == 0 {
                        record
                    } else {
                        record.placeholder()
                    },
                );
                let child = fresh.inserted(rest, record);
                TrieView { record: self.record, children: self.children.push((name, child)) }
            }
        }
    }

    /// The records of all nodes in pre-order: this node, then each child's
    /// subtree in the order of the children.
    pub open spec fn nodes(self) -> Seq<Record>
        decreases self, 1int,
    {
        seq![self.record] + forest_nodes(self.children)
    }

    /// The records, in pre-order, of the nodes whose path contains `pattern`.
    pub open spec fn matching(self, pattern: Seq<char>) -> Seq<Record> {
        self.nodes().filter(|r: Record| is_substring(pattern, r.path))
    }

    /// The names of the children of each node are distinct.
    pub open spec fn well_formed(self) -> bool
        decreases self, 1int,
    {
        &&& self.child_names().no_duplicates()
        &&& forest_well_formed(self.children)
    }
}

/// One filesystem entry as it is handed to the index: where it lies, and what
/// is recorded of it.
pub struct EntryView {
    pub segments: Seq<Seq<char>>,
    pub record: Record,
}

/// The tree after all `entries` were inserted, the first one first.
pub open spec fn inserted_all(tree: TrieView, entries: Seq<EntryView>) -> TrieView
    decreases entries.len(),
{
    if entries.len() == 0 {
        tree
    } else {
        inserted_all(tree, entries.drop_last()).inserted(
            entries.last().segments,
            entries.last().record,
        )
    }
}

/// One hit of a search: a snapshot of the node it was taken from.
#[derive(Debug)]
pub struct SearchResult {
    pub path: String,
    pub is_file: bool,
    pub size: u64,
    /// Whole seconds since the Unix epoch; negative before it.
    pub modified: i64,
}

impl View for SearchResult {
    type V = Record;

    open spec fn view(&self) -> Record {
        Record { path: self.path@, is_file: self.is_file, size: self.size, modified: self.modified }
    }
}

/// The views of a sequence of search results.
pub open spec fn records(results: Seq<SearchResult>) -> Seq<Record> {
    results.map_values(|r: SearchResult| r@)
}

/// A node of the index. It owns its children; each child hangs under the
/// segment it was created for.
#[derive(Debug)]
pub struct TrieNode {
    is_file: bool,
    children: Vec<(String, TrieNode)>,
    size: u64,
    modified: i64,
    full_path: String,
}

/// What the children of a node stand for: the text of each name, and the
/// tree of each child, in the order of the children.
pub closed spec fn children_view(children: Seq<(String, TrieNode)>) -> Seq<(Seq<char>, TrieView)>
    decreases children, 0int,
{
    if children.len() == 0 {
        Seq::empty()
    } else {
        children_view(children.drop_last()).push((children.last().0@, children.last().1.view()))
    }
}

impl View for TrieNode {
    type V = TrieView;

    closed spec fn view(&self) -> TrieView
        decreases self, 1int,
    {
        TrieView {
            record: Record {
                path: self.full_path@,
                is_file: self.is_file,
                size: self.size,
                modified: self.modified,
            },
            children: children_view(self.children@),
        }
    }
}

/// The view of the children has one pair for each child, in order.
proof fn lemma_children_view(children: Seq<(String, TrieNode)>)
    ensures
        children_view(children).len() == children.len(),
        forall|i: int|
            0 <= i < children.len() ==> #[trigger] children_view(children)[i] == (
                children[i].0@,
                children[i].1@,
            ),
    decreases children.len(),
{
    if children.len() > 0 {
        let front = children.drop_last();
        lemma_children_view(front);
        assert(children_view(children) == children_view(front).push(
            (children.last().0@, children.last().1.view()),
        ));
        assert forall|i: int| 0 <= i < children.len() implies #[trigger] children_view(children)[i]
            == (children[i].0@, children[i].1@) by {
            if i < front.len() {
                assert(front[i] == children[i]);
            }
        }
    }
}

/// The characteristic properties of [`first_named`].
pub proof fn lemma_first_named(children: Seq<(Seq<char>, TrieView)>, name: Seq<char>)
    ensures
        0 <= first_named(children, name) <= children.len(),
        forall|j: int| 0 <= j < first_named(children, name) ==> (#[trigger] children[j]).0 != name,
        first_named(children, name) < children.len() ==> children[first_named(
            children,
            name,
        )].0 == name,
    decreases children.len(),
{
    if children.len() > 0 && children[0].0 != name {
        let tail = children.drop_first();
        lemma_first_named(tail, name);
        assert forall|j: int| 0 <= j < first_named(children, name) implies (
        #[trigger] children[j]).0 != name by {
            if j > 0 {
                assert(children[j] == tail[j - 1]);
            }
        }
    }
}

/// An index that behaves as [`first_named`] does is the one it returns.
pub proof fn lemma_first_named_is(children: Seq<(Seq<char>, TrieView)>, name: Seq<char>, i: int)
    requires
        0 <= i <= children.len(),
        forall|j: int| 0 <= j < i ==> (#[trigger] children[j]).0 != name,
        i < children.len() ==> children[i].0 == name,
    ensures
        first_named(children, name) == i,
{
    lemma_first_named(children, name);
    let k = first_named(children, name);
    if k < i {
        assert(children[k].0 == name);
    } else if i < k {
        assert(children[i].0 == name);
    }
}

/// The pre-order of a forest with one more subtree ends with that subtree's.
proof fn lemma_forest_nodes_push(forest: Seq<(Seq<char>, TrieView)>, child: (Seq<char>, TrieView))
    ensures
        forest_nodes(forest.push(child)) == forest_nodes(forest) + child.1.nodes(),
{
    assert(forest.push(child).drop_last() == forest);
}

impl TrieNode {
    /// A node without children that carries the given metadata.
    pub fn new(is_file: bool, size: u64, modified: i64, full_path: String) -> (node: Self)
        ensures
            node@ == TrieView::leaf(Record { path: full_path@, is_file, size, modified }),
            node@.well_formed(),
    {
        let node = TrieNode { is_file, children: Vec::new(), size, modified, full_path };
        proof {
            lemma_leaf_well_formed(node@.record);
        }
        node
    }

    /// The index of the first child called `name`, or the number of children.
    fn find_child(&self, name: &String) -> (i: usize)
        ensures
            i == first_named(self@.children, name@),
            i <= self.children.len(),
            self@.children.len() == self.children.len(),
    {
        let mut i: usize = 0;
        proof {
            lemma_children_view(self.children@);
        }
        while i < self.children.len()
            invariant
                i <= self.children.len(),
                self@.children.len() == self.children.len(),
                forall|j: int|
                    0 <= j < self.children.len() ==> #[trigger] self@.children[j] == (
                        self.children[j].0@,
                        self.children[j].1@,
                    ),
                forall|j: int| 0 <= j < i ==> (#[trigger] self@.children[j]).0 != name@,
            decreases self.children.len() - i,
        {
            if self.children[i].0 == *name {
                proof {
                    lemma_first_named_is(self@.children, name@, i as int);
                }
                return i;
            }
            i += 1;
        }
        proof {
            lemma_first_named_is(self@.children, name@, i as int);
        }
        i
    }

    /// Inserts the entry that lies at `path_components` below this node. Does
    /// nothing if there are no components. A node is created for each
    /// component that has none yet; a node that exists keeps what it holds.
    pub fn insert(
        &mut self,
        path_components: &[String],
        is_file: bool,
        size: u64,
        modified: i64,
        full_path: String,
    )
        ensures
            final(self)@ == old(self)@.inserted(
                path_components.deep_view(),
                Record { path: full_path@, is_file, size, modified },
            ),
            old(self)@.well_formed() ==> final(self)@.well_formed(),
    {
        proof {
            assert(path_components.deep_view().skip(0) == path_components.deep_view());
            if self@.well_formed() {
                lemma_inserted_well_formed(
                    self@,
                    path_components.deep_view(),
                    Record { path: full_path@, is_file, size, modified },
                );
            }
        }
        self.insert_from(path_components, 0, is_file, size, modified, full_path);
    }

    fn insert_from(
        &mut self,
        path_components: &[String],
        start: usize,
        is_file: bool,
        size: u64,
        modified: i64,
        full_path: String,
    )
        requires
            start <= path_components.len(),
        ensures
            final(self)@ == old(self)@.inserted(
                path_components.deep_view().skip(start as int),
                Record { path: full_path@, is_file, size, modified },
            ),
        decreases path_components.len() - start,
    {
        if start >= path_components.len() {
            assert(path_components.deep_view().skip(start as int).len() == 0);
            return ;
        }
        let ghost segments = path_components.deep_view().skip(start as int);
        let ghost record = Record { path: full_path@, is_file, size, modified };
        let ghost before = self@;
        let component = &path_components[start];
        let last = start + 1 == path_components.len();
        assert(segments[0] == component@);
        assert(segments.drop_first() == path_components.deep_view().skip(start + 1));
        let i = self.find_child(component);
        proof {
            lemma_first_named(before.children, component@);
        }
        if i == self.children.len() {
            let fresh = TrieNode::new(
                last && is_file,
                if last {
                    size
                } else {
                    0
                },
                modified,
                full_path.clone(),
            );
            proof {
                lemma_children_view(self.children@);
            }
            self.children.push((component.clone(), fresh));
            proof {
                lemma_children_view(self.children@);
            }
            assert(self@.children == before.children.push((component@, fresh@)));
        }
        let ghost middle = self@;
        let ghost kids = self.children@;
        self.children[i].1.insert_from(path_components, start + 1, is_file, size, modified, full_path);
        proof {
            lemma_children_view(kids);
            lemma_children_view(self.children@);
            let below = middle.children[i as int].1.inserted(segments.drop_first(), record);
            assert(self@.children =~= middle.children.update(i as int, (component@, below)));
            if i >= before.children.len() {
                assert(self@.children =~= before.children.push((component@, below)));
            }
        }
    }

    /// Appends to `results` a snapshot of every node of this subtree whose
    /// path contains `pattern`, in pre-order.
    pub fn search_pattern(&self, pattern: &str, results: &mut Vec<SearchResult>)
        ensures
            records(final(results)@) == records(old(results)@) + self@.matching(pattern@),
        decreases self,
    {
        let ghost accepts = |r: Record| is_substring(pattern@, r.path);
        let ghost before = records(results@);
        if str_contains(self.full_path.as_str(), pattern) {
            results.push(
                SearchResult {
                    path: self.full_path.clone(),
                    is_file: self.is_file,
                    size: self.size,
                    modified: self.modified,
                },
            );
        }
        proof {
            lemma_children_view(self.children@);
            assert(records(results@) == before + seq![self@.record].filter(accepts)) by {
                reveal_with_fuel(Seq::filter, 2);
                assert(seq![self@.record].drop_last() == Seq::<Record>::empty());
            }
        }
        let mut i: usize = 0;
        while i < self.children.len()
            invariant
                i <= self.children.len(),
                accepts == |r: Record| is_substring(pattern@, r.path),
                self@.children.len() == self.children.len(),
                forall|j: int|
                    0 <= j < self.children.len() ==> #[trigger] self@.children[j] == (
                        self.children[j].0@,
                        self.children[j].1@,
                    ),
                records(results@) == before + seq![self@.record].filter(accepts) + forest_nodes(
                    self@.children.take(i as int),
                ).filter(accepts),
            decreases self.children.len() - i,
        {
            let ghost so_far = records(results@);
            self.children[i].1.search_pattern(pattern, results);
            proof {
                let done = self@.children.take(i as int);
                let child = self@.children[i as int];
                assert(self@.children.take(i + 1) == done.push(child));
                lemma_forest_nodes_push(done, child);
                Seq::filter_distributes_over_add(forest_nodes(done), child.1.nodes(), accepts);
            }
            i += 1;
        }
        proof {
            assert(self@.children.take(i as int) == self@.children);
            Seq::filter_distributes_over_add(
                seq![self@.record],
                forest_nodes(self@.children),
                accepts,
            );
        }
    }
}

} // verus!
