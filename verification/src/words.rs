//! The dictionary of words a first-round guess may be.

use vstd::prelude::*;
use crate::text::{
    chars_of, collect_range, normalize_word, pieces, split_range, texts, trim, trim_bounds,
    word_form,
};

verus! {

/// The words a guess may be.
#[derive(Debug, Clone)]
pub struct WordList {
    words: Vec<String>,
}

impl View for WordList {
    type V = Set<Seq<char>>;

    closed spec fn view(&self) -> Set<Seq<char>> {
        texts(self.words@).to_set()
    }
}

impl WordList {
    /// A list holding exactly the given words.
    pub fn from_words(words: Vec<String>) -> (list: WordList)
        ensures
            list@ == texts(words@).to_set(),
    {
        WordList { words }
    }

    /// Whether the list holds no word.
    pub fn is_empty(&self) -> (r: bool)
        ensures
            r == (self@ == Set::<Seq<char>>::empty()),
    {
        proof {
            if self.words@.len() > 0 {
                assert(self@.contains(self.words@[0]@)) by {
                    assert(texts(self.words@)[0] == self.words@[0]@);
                }
            } else {
                assert(self@ =~= Set::<Seq<char>>::empty());
            }
        }
        self.words.len() == 0
    }

    /// Whether `word` is in the list.
    pub fn contains(&self, word: &String) -> (r: bool)
        ensures
            r == self@.contains(word@),
    {
        let ghost v = texts(self.words@);
        let mut i: usize = 0;
        while i < self.words.len()
            invariant
                i <= self.words@.len(),
                v == texts(self.words@),
                forall|j: int| 0 <= j < i ==> v[j] != word@,
            decreases self.words@.len() - i,
        {
            if self.words[i] == *word {
                assert(v[i as int] == word@);
                return true;
            }
            i = i + 1;
        }
        assert(!v.contains(word@));
        false
    }
}

/// Why a dictionary cannot be used.
#[derive(Debug, Clone, Copy, PartialEq, Eq, Structural)]
pub enum DictionaryError {
    /// No line of the text gives a word.
    Empty,
}

/// The word a dictionary line gives: the trimmed line, unless it is empty or a `#`
/// comment, kept to its upper-cased ASCII letters when at least three remain.
pub open spec fn dictionary_entry(line: Seq<char>) -> Option<Seq<char>> {
    let t = trim(line);
    if t.len() == 0 || t[0] == '#' {
        None
    } else if word_form(t).len() >= 3 {
        Some(word_form(t))
    } else {
        None
    }
}

/// The words of a list of dictionary lines, in order.
pub open spec fn dictionary_entries(lines: Seq<Seq<char>>) -> Seq<Seq<char>>
    decreases lines.len(),
{
    if lines.len() == 0 {
        Seq::empty()
    } else {
        let rest = dictionary_entries(lines.drop_last());
        match dictionary_entry(lines.last()) {
            Some(w) => rest.push(w),
            None => rest,
        }
    }
}

/// The words a dictionary text gives, one line each.
pub open spec fn dictionary_words(raw: Seq<char>) -> Set<Seq<char>> {
    dictionary_entries(pieces(raw, '\n')).to_set()
}

/// The word a dictionary line gives, if any.
fn entry_of_line(line: &String) -> (r: Option<String>)
    ensures
        match r {
            Some(w) => dictionary_entry(line@) == Some(w@),
            None => dictionary_entry(line@) is None,
        },
{
    let chars = chars_of(line.as_str());
    let (start, end) = trim_bounds(&chars);
    if start == end || chars[start] == '#' {
        return None;
    }
    let trimmed = collect_range(&chars, start, end);
    let word = normalize_word(trimmed.as_str());
    if chars_of(word.as_str()).len() >= 3 {
        Some(word)
    } else {
        None
    }
}

/// The dictionary a text gives, one word per line (the parsing part of loading the
/// dictionary file); refused when no line gives a word.
pub fn allowed_words_from_text(raw: &str) -> (r: Result<WordList, DictionaryError>)
    ensures
        match r {
            Ok(list) => list@ == dictionary_words(raw@) && list@ != Set::<Seq<char>>::empty(),
            Err(e) => e == DictionaryError::Empty && dictionary_words(raw@) == Set::<
                Seq<char>,
            >::empty(),
        },
{
    let chars = chars_of(raw);
    let lines = split_range(&chars, 0, chars.len(), '\n');
    let ghost ls = pieces(raw@, '\n');
    assert(chars@.subrange(0, chars@.len() as int) =~= raw@);
    let mut words: Vec<String> = Vec::new();
    let mut i: usize = 0;
    assert(ls.take(0) =~= Seq::<Seq<char>>::empty());
    while i < lines.len()
        invariant
            i <= lines@.len() == ls.len(),
            ls == pieces(raw@, '\n'),
            forall|k: int| 0 <= k < lines@.len() ==> #[trigger] lines@[k]@ == ls[k],
            texts(words@) == dictionary_entries(ls.take(i as int)),
        decreases lines@.len() - i,
    {
        assert(ls.take(i + 1).drop_last() =~= ls.take(i as int));
        assert(ls.take(i + 1).last() == lines@[i as int]@);
        match entry_of_line(&lines[i]) {
            Some(w) => {
                let ghost before = words@;
                words.push(w);
                assert(texts(words@) =~= texts(before).push(w@));
            },
            None => {},
        }
        i = i + 1;
    }
    assert(ls.take(lines@.len() as int) =~= ls);
    let list = WordList::from_words(words);
    if list.is_empty() {
        Err(DictionaryError::Empty)
    } else {
        Ok(list)
    }
}

} // verus!
