//! The index as a whole: built once from the entries of a directory tree,
//! then searched as often as wanted.

use crate::filter::{parse_query, Filter};
use crate::helper::now;
use crate::trie::{inserted_all, records, EntryView, Record, SearchResult, TrieNode, TrieView};
use vstd::prelude::*;

verus! {

/// One entry of the filesystem, as the walk over a directory tree found it.
#[derive(Debug)]
pub struct Entry {
    /// The path, split into its components.
    pub segments: Vec<String>,
    pub is_file: bool,
    /// The length in bytes; 0 for a directory.
    pub size: u64,
    /// Whole seconds since the Unix epoch; negative before it.
    pub modified: i64,
    /// The path in one piece.
    pub full_path: String,
}

impl View for Entry {
    type V = EntryView;

    open spec fn view(&self) -> EntryView {
        EntryView {
            segments: self.segments.deep_view(),
            record: Record {
                path: self.full_path@,
                is_file: self.is_file,
                size: self.size,
                modified: self.modified,
            },
        }
    }
}

/// The views of a sequence of entries.
pub open spec fn entry_views(entries: Seq<Entry>) -> Seq<EntryView> {
    entries.map_values(|entry: Entry| entry@)
}

/// The hits of a query on a tree: the nodes whose path contains the search
/// text of the query, in pre-order, without those that the constraints of
/// the query reject.
pub open spec fn search_hits(tree: TrieView, query: Seq<char>) -> Seq<Record> {
    let parsed = parse_query(query);
    tree.matching(parsed.term).filter(|hit: Record| parsed.filter.accepts(hit))
}

/// A search returns what passes both tests and nothing else: a record is
/// among the hits of a query if and only if it is among the nodes whose path
/// contains the search text and the constraints of the query accept it.
pub proof fn lemma_search_hits(tree: TrieView, query: Seq<char>, hit: Record)
    ensures
        search_hits(tree, query).contains(hit) <==> tree.matching(parse_query(query).term).contains(
            hit,
        ) && parse_query(query).filter.accepts(hit),
{
    let parsed = parse_query(query);
    let accepts = |hit: Record| parsed.filter.accepts(hit);
    let found = tree.matching(parsed.term);
    let kept = search_hits(tree, query);
    if kept.contains(hit) {
        let k = choose|k: int| 0 <= k < kept.len() && kept[k] == hit;
        found.lemma_filter_pred(accepts, k);
        found.lemma_filter_contains_rev(accepts, hit);
    }
    if found.contains(hit) && parsed.filter.accepts(hit) {
        let k = choose|k: int| 0 <= k < found.len() && found[k] == hit;
        found.lemma_filter_contains(accepts, k);
    }
}

/// An index over the entries below one directory.
#[derive(Debug)]
pub struct FileExplorer {
    root: TrieNode,
}

impl View for FileExplorer {
    type V = TrieView;

    closed spec fn view(&self) -> TrieView {
        self.root@
    }
}

impl FileExplorer {
    /// An index that holds nothing but its root, which stands for the
    /// directory `.` and carries the time of the call.
    pub fn new() -> (explorer: Self)
        ensures
            explorer@ == TrieView::leaf(
                Record { path: "."@, is_file: false, size: 0, modified: explorer@.record.modified },
            ),
            explorer@.well_formed(),
    {
        Self::with_root_time(now())
    }

    /// An index that holds nothing but its root, which stands for the
    /// directory `.` and carries the given time.
    pub fn with_root_time(modified: i64) -> (explorer: Self)
        ensures
            explorer@ == TrieView::leaf(Record { path: "."@, is_file: false, size: 0, modified }),
            explorer@.well_formed(),
    {
        let path = ".".to_owned();
        FileExplorer { root: TrieNode::new(false, 0, modified, path) }
    }

    /// Inserts the entries found below a path, in the order in which the
    /// walk found them.
    pub fn build_from_path(&mut self, entries: &[Entry])
        ensures
            final(self)@ == inserted_all(old(self)@, entry_views(entries@)),
            old(self)@.well_formed() ==> final(self)@.well_formed(),
    {
        let mut i: usize = 0;
        assert(entry_views(entries@).take(0) == Seq::<EntryView>::empty());
        while i < entries.len()
            invariant
                i <= entries.len(),
                self@ == inserted_all(old(self)@, entry_views(entries@).take(i as int)),
                old(self)@.well_formed() ==> self@.well_formed(),
            decreases entries.len() - i,
        {
            let entry = &entries[i];
            self.root.insert(
                entry.segments.as_slice(),
                entry.is_file,
                entry.size,
                entry.modified,
                entry.full_path.clone(),
            );
            proof {
                let read = entry_views(entries@).take(i + 1);
                assert(read.drop_last() == entry_views(entries@).take(i as int));
                assert(read.last() == entry@);
            }
            i += 1;
        }
        assert(entry_views(entries@).take(entries.len() as int) == entry_views(entries@));
    }

    /// Answers a query: the nodes whose path contains the search text, in
    /// pre-order, that pass the constraints of the query. Empty where
    /// nothing matches.
    pub fn search(&self, query: &str) -> (results: Vec<SearchResult>)
        ensures
            records(results@) == search_hits(self@, query@),
    {
        let (filter, pattern) = Filter::parse(query);
        let mut found: Vec<SearchResult> = Vec::new();
        self.root.search_pattern(pattern.as_str(), &mut found);
        assert(records(found@) == self@.matching(pattern@)) by {
            assert(Seq::<Record>::empty() + self@.matching(pattern@) == self@.matching(pattern@));
        }
        retain_accepted(found, &filter)
    }
}

/// Keeps the hits that the filter accepts, in their order.
pub fn retain_accepted(found: Vec<SearchResult>, filter: &Filter) -> (kept: Vec<SearchResult>)
    ensures
        records(kept@) == records(found@).filter(|hit: Record| filter@.accepts(hit)),
{
    let ghost accepts = |hit: Record| filter@.accepts(hit);
    let ghost all = records(found@);
    let mut kept: Vec<SearchResult> = Vec::new();
    proof {
        reveal(Seq::filter);
        assert(all.take(0) == Seq::<Record>::empty());
    }
    for result in it: found
        invariant
            accepts == |hit: Record| filter@.accepts(hit),
            records(it.seq()) == all,
            records(kept@) == all.take(it.index()).filter(accepts),
    {
        proof {
            let read = all.take(it.index() + 1);
            assert(read.drop_last() == all.take(it.index()));
            assert(read.last() == result@);
            reveal(Seq::filter);
        }
        if filter.matches(&result) {
            kept.push(result);
        }
    }
    assert(all.take(all.len() as int) == all);
    kept
}

} // verus!
