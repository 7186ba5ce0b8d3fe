//! The query language: a query is a list of words, of which those that begin
//! with `@` constrain the hits and the others are the text to search for.

use crate::helper::{size_from_chars, size_from_text};
use crate::number::{parse_signed, signed_from_text};
use crate::path::{has_extension, path_has_extension};
use crate::text::{
    chars_of, push_chars, same_chars, split_whitespace, starts_with, string_of, tail_of, texts,
    words,
};
use crate::trie::{Record, SearchResult};
use vstd::prelude::*;

verus! {

/// Seconds in a year of 365 days.
pub const SECONDS_PER_YEAR: i64 = 31536000;

/// The year in which a time at or after the epoch lies, if every year had
/// 365 days: an approximation that runs ahead of the calendar by a day for
/// each leap year since 1970.
pub open spec fn approximate_year(modified: i64) -> int {
    1970 + modified / SECONDS_PER_YEAR
}

/// What a [`Filter`] stands for. A field that is `None` constrains nothing.
pub struct FilterView {
    pub is_file: Option<bool>,
    pub extension: Option<Seq<char>>,
    pub min_size: Option<u64>,
    pub max_size: Option<u64>,
    pub year: Option<i32>,
}

impl FilterView {
    /// The filter that constrains nothing.
    pub open spec fn unconstrained() -> FilterView {
        FilterView { is_file: None, extension: None, min_size: None, max_size: None, year: None }
    }

    /// The hit is of the wanted type: a file, or a directory.
    pub open spec fn type_matches(self, hit: Record) -> bool {
        self.is_file matches Some(wanted) ==> hit.is_file == wanted
    }

    /// The hit is a file whose path has the wanted extension, whatever the
    /// case of ASCII letters. No directory has an extension.
    pub open spec fn extension_matches(self, hit: Record) -> bool {
        self.extension matches Some(wanted) ==> hit.is_file && has_extension(hit.path, wanted)
    }

    /// The hit is a file of at least the wanted size. No directory has a size.
    pub open spec fn min_size_matches(self, hit: Record) -> bool {
        self.min_size matches Some(least) ==> hit.is_file && hit.size >= least
    }

    /// The hit is a file of at most the wanted size. No directory has a size.
    pub open spec fn max_size_matches(self, hit: Record) -> bool {
        self.max_size matches Some(most) ==> hit.is_file && hit.size <= most
    }

    /// The hit was modified in the wanted year, by the approximation of
    /// [`approximate_year`]. A time before the epoch passes for every year.
    pub open spec fn year_matches(self, hit: Record) -> bool {
        self.year matches Some(wanted) ==> (hit.modified >= 0 ==> approximate_year(hit.modified)
            == wanted)
    }

    /// The hit passes every constraint that is set.
    pub open spec fn accepts(self, hit: Record) -> bool {
        &&& self.type_matches(hit)
        &&& self.extension_matches(hit)
        &&& self.min_size_matches(hit)
        &&& self.max_size_matches(hit)
        &&& self.year_matches(hit)
    }
}

/// A filter without constraints accepts every hit.
pub proof fn lemma_unconstrained_accepts_all(hit: Record)
    ensures
        FilterView::unconstrained().accepts(hit),
{
}

/// What a query says: the constraints, and the text to search for.
pub struct QueryView {
    pub filter: FilterView,
    pub term: Seq<char>,
}

/// What a word that begins with `@size` does to the query. It needs at least
/// seven characters; the sixth is `>` for a least size or `<` for a greatest
/// size, and the rest is the size with its unit. A word of another shape is
/// dropped.
pub open spec fn apply_size_directive(query: QueryView, word: Seq<char>) -> QueryView {
    if word.len() < 7 {
        query
    } else {
        match size_from_text(word.skip(6)) {
            Some(size) => if word[5] == '>' {
                QueryView { filter: FilterView { min_size: Some(size), ..query.filter }, ..query }
            } else if word[5] == '<' {
                QueryView { filter: FilterView { max_size: Some(size), ..query.filter }, ..query }
            } else {
                query
            },
            None => query,
        }
    }
}

/// What a word that begins with `@` does to the query: it sets a constraint,
/// or is dropped where its payload is malformed, or, where it is no
/// directive at all, is added to the search text without a space before it.
pub open spec fn apply_directive(query: QueryView, word: Seq<char>) -> QueryView {
    if word == "@file"@ {
        QueryView { filter: FilterView { is_file: Some(true), ..query.filter }, ..query }
    } else if word == "@dir"@ || word == "@folder"@ {
        QueryView { filter: FilterView { is_file: Some(false), ..query.filter }, ..query }
    } else if "@ext:"@.is_prefix_of(word) {
        QueryView { filter: FilterView { extension: Some(word.skip(5)), ..query.filter }, ..query }
    } else if "@size"@.is_prefix_of(word) {
        apply_size_directive(query, word)
    } else if "@date:"@.is_prefix_of(word) {
        match signed_from_text(word.skip(6)) {
            Some(year) => QueryView {
                filter: FilterView { year: Some(year), ..query.filter },
                ..query
            },
            None => query,
        }
    } else {
        QueryView { term: query.term + word, ..query }
    }
}

/// What one word does to the query. A word that does not begin with `@` is
/// added to the search text, after a space if there is text already.
pub open spec fn apply_word(query: QueryView, word: Seq<char>) -> QueryView {
    if word.len() > 0 && word[0] == '@' {
        apply_directive(query, word)
    } else if query.term.len() > 0 {
        QueryView { term: query.term.push(' ') + word, ..query }
    } else {
        QueryView { term: word, ..query }
    }
}

/// What a list of words says, read from the first to the last.
pub open spec fn apply_words(words: Seq<Seq<char>>) -> QueryView
    decreases words.len(),
{
    if words.len() == 0 {
        QueryView { filter: FilterView::unconstrained(), term: Seq::empty() }
    } else {
        apply_word(apply_words(words.drop_last()), words.last())
    }
}

/// What a query says: what its words say, the words being what whitespace separates.
pub open spec fn parse_query(query: Seq<char>) -> QueryView {
    apply_words(split_whitespace(query))
}

/// The constraints of one query. A field that is `None` constrains nothing.
#[derive(Debug)]
pub struct Filter {
    pub is_file: Option<bool>,
    pub extension: Option<String>,
    pub min_size: Option<u64>,
    pub max_size: Option<u64>,
    pub year: Option<i32>,
}

impl View for Filter {
    type V = FilterView;

    open spec fn view(&self) -> FilterView {
        FilterView {
            is_file: self.is_file,
            extension: match self.extension {
                Some(wanted) => Some(wanted@),
                None => None,
            },
            min_size: self.min_size,
            max_size: self.max_size,
            year: self.year,
        }
    }
}

impl Filter {
    /// The filter that constrains nothing.
    pub fn new() -> (filter: Self)
        ensures
            filter@ == FilterView::unconstrained(),
    {
        Filter { is_file: None, extension: None, min_size: None, max_size: None, year: None }
    }

    fn apply_size(&mut self, word: &[char])
        ensures
            forall|term: Seq<char>|
                #[trigger] apply_size_directive(QueryView { filter: old(self)@, term }, word@) == (
                    QueryView { filter: final(self)@, term }),
    {
        if word.len() < 7 {
            return ;
        }
        let payload = tail_of(word, 6);
        match size_from_chars(payload.as_slice()) {
            Some(size) => {
                let sign = word[5];
                if sign == '>' {
                    self.min_size = Some(size);
                } else if sign == '<' {
                    self.max_size = Some(size);
                }
            },
            None => {},
        }
    }

    fn apply(&mut self, word: &[char], term: &mut String)
        ensures
            apply_word(QueryView { filter: old(self)@, term: old(term)@ }, word@) == (QueryView {
                filter: final(self)@,
                term: final(term)@,
            }),
    {
        let ghost before = QueryView { filter: self@, term: term@ };
        if word.len() > 0 && word[0] == '@' {
            if same_chars(word, chars_of("@file").as_slice()) {
                self.is_file = Some(true);
            } else if same_chars(word, chars_of("@dir").as_slice()) || same_chars(
                word,
                chars_of("@folder").as_slice(),
            ) {
                self.is_file = Some(false);
            } else if starts_with(word, chars_of("@ext:").as_slice()) {
                proof {
                    reveal_strlit("@ext:");
                }
                self.extension = Some(string_of(tail_of(word, 5).as_slice()));
            } else if starts_with(word, chars_of("@size").as_slice()) {
                self.apply_size(word);
                assert(QueryView { filter: self@, term: term@ } == apply_size_directive(
                    before,
                    word@,
                ));
            } else if starts_with(word, chars_of("@date:").as_slice()) {
                proof {
                    reveal_strlit("@date:");
                }
                match parse_signed(tail_of(word, 6).as_slice()) {
                    Some(year) => {
                        self.year = Some(year);
                    },
                    None => {},
                }
            } else {
                push_chars(term, word);
            }
        } else {
            if !term.as_str().is_empty() {
                term.push(' ');
            }
            push_chars(term, word);
            assert(Seq::<char>::empty() + word@ == word@);
        }
    }

    /// Reads a query: the constraints that its directives set, and the text
    /// to search for.
    pub fn parse(query: &str) -> (parsed: (Self, String))
        ensures
            parse_query(query@) == (QueryView { filter: parsed.0@, term: parsed.1@ }),
    {
        let text = chars_of(query);
        let found = words(text.as_slice());
        let mut filter = Filter::new();
        let mut term = String::new();
        let mut i: usize = 0;
        assert(texts(found@).take(0) == Seq::<Seq<char>>::empty());
        while i < found.len()
            invariant
                i <= found.len(),
                apply_words(texts(found@).take(i as int)) == (QueryView {
                    filter: filter@,
                    term: term@,
                }),
            decreases found.len() - i,
        {
            filter.apply(found[i].as_slice(), &mut term);
            proof {
                let read = texts(found@).take(i + 1);
                assert(read.drop_last() == texts(found@).take(i as int));
                assert(read.last() == found@[i as int]@);
            }
            i += 1;
        }
        assert(texts(found@).take(found.len() as int) == texts(found@));
        (filter, term)
    }

    /// Whether a hit passes every constraint that is set.
    pub fn matches(&self, result: &SearchResult) -> (passes: bool)
        ensures
            passes == self@.accepts(result@),
    {
        if let Some(is_file) = self.is_file {
            if result.is_file != is_file {
                return false;
            }
        }
        if let Some(wanted) = &self.extension {
            if !result.is_file || !path_has_extension(
                chars_of(result.path.as_str()).as_slice(),
                chars_of(wanted.as_str()).as_slice(),
            ) {
                return false;
            }
        }
        if let Some(least) = self.min_size {
            if !result.is_file || result.size < least {
                return false;
            }
        }
        if let Some(most) = self.max_size {
            if !result.is_file || result.size > most {
                return false;
            }
        }
        if let Some(year) = self.year {
            if result.modified >= 0 {
                let file_year: i64 = 1970 + result.modified / SECONDS_PER_YEAR;
                if file_year != year as i64 {
                    return false;
                }
            }
        }
        true
    }
}

} // verus!
