//! Splitting text into words, sentences and paragraphs, with stopwords and
//! punctuation filtered out.

use vstd::prelude::*;
use unicode_segmentation::UnicodeSegmentation;
use crate::segment::{contains_string, copy_strings, trim, trim_spec};
use crate::text::{join_words, lower, lowercase, views};

verus! {

/// The pieces of a text between UAX#29 word boundaries.
pub uninterp spec fn word_bounds_of(s: Seq<char>) -> Seq<Seq<char>>;

/// The UAX#29 sentences of a text that hold an alphabetic or numeric character.
pub uninterp spec fn sentences_of(s: Seq<char>) -> Seq<Seq<char>>;

/// The number of extended grapheme clusters of a text.
pub uninterp spec fn grapheme_count_of(s: Seq<char>) -> nat;

/// Whether a regular expression compiles.
pub uninterp spec fn regex_compiles(pattern: Seq<char>) -> bool;

/// A text with every match of a regular expression replaced.
pub uninterp spec fn regex_replaced(pattern: Seq<char>, text: Seq<char>, rep: Seq<char>) -> Seq<
    char,
>;

/// The pieces of a text between the matches of a regular expression.
pub uninterp spec fn regex_pieces(pattern: Seq<char>, text: Seq<char>) -> Seq<Seq<char>>;

/// Relies on `UnicodeSegmentation::split_word_bounds`: the pieces between word
/// boundaries, which together make up the text.
#[verifier::external_body]
fn word_bounds(s: &str) -> (r: Vec<String>)
    ensures
        views(r@) == word_bounds_of(s@),
{
    s.split_word_bounds().map(|w| w.to_string()).collect()
}

/// Relies on `UnicodeSegmentation::unicode_sentences`.
#[verifier::external_body]
fn sentences(s: &str) -> (r: Vec<String>)
    ensures
        views(r@) == sentences_of(s@),
{
    s.unicode_sentences().map(|w| w.to_string()).collect()
}

/// Relies on `UnicodeSegmentation::graphemes` (extended clusters), counted.
#[verifier::external_body]
fn grapheme_count(s: &str) -> (r: usize)
    ensures
        r as nat == grapheme_count_of(s@),
{
    s.graphemes(true).count()
}

/// Relies on `regex::Regex::new` and `Regex::replace_all`: `None` when the
/// pattern does not compile.
#[verifier::external_body]
fn replace_all(pattern: &str, text: &str, rep: &str) -> (r: Option<String>)
    ensures
        r is Some <==> regex_compiles(pattern@),
        r matches Some(x) ==> x@ == regex_replaced(pattern@, text@, rep@),
{
    match regex::Regex::new(pattern) {
        Ok(re) => Some(re.replace_all(text, rep).into_owned()),
        Err(_) => None,
    }
}

/// Relies on `regex::Regex::new` and `Regex::split`: `None` when the pattern
/// does not compile.
#[verifier::external_body]
fn split_by(pattern: &str, text: &str) -> (r: Option<Vec<String>>)
    ensures
        r is Some <==> regex_compiles(pattern@),
        r matches Some(v) ==> views(v@) == regex_pieces(pattern@, text@),
{
    match regex::Regex::new(pattern) {
        Ok(re) => Some(re.split(text).map(|p| p.to_string()).collect()),
        Err(_) => None,
    }
}

/// Possessive endings, commas and full stops, which are removed from words.
pub const SPECIAL_CHARS: &'static str = "('s|,|\\.)";

/// Sentence-ending punctuation followed by a line break or tab.
pub const SENTENCE_SPACE: &'static str = "([\\.!?])[\\n\\t\\r]";

/// Line breaks.
pub const NEWLINES: &'static str = "(\\r|\\n|\\r\\n)";

/// The punctuation filtered out when none is given.
pub const DEFAULT_PUNCTUATION: [&'static str; 33] = [
    "!", "\"", "#", "$", "%", "&", "'", "(", ")", "*", "+", ",", ";", ".", "/", ":", ",", "<", "=",
    ">", "?", "@", "[", "\\", "]", "^", "_", "`", "{", "|", "}", "~", "-",
];

/// The views of a list of string slices.
pub open spec fn str_views(v: Seq<&str>) -> Seq<Seq<char>> {
    v.map_values(|s: &str| s@)
}

/// A word piece without its special substrings, when their pattern compiles.
pub open spec fn strip_special(t: Seq<char>) -> Seq<char> {
    if regex_compiles(SPECIAL_CHARS@) {
        regex_replaced(SPECIAL_CHARS@, t, ""@)
    } else {
        t
    }
}

/// A word piece trimmed, stripped of special substrings and lowercased.
pub open spec fn clean_word(w: Seq<char>) -> Seq<char> {
    lower(strip_special(trim_spec(w)))
}

/// Whether a cleaned word is kept: it is not empty, not a single grapheme that
/// is punctuation, and not a stopword.
pub open spec fn accepts(
    word: Seq<char>,
    graphemes: nat,
    stop: Set<Seq<char>>,
    punct: Set<Seq<char>>,
) -> bool {
    !(word.len() == 0 || (graphemes == 1 && punct.contains(word)) || stop.contains(word))
}

/// The cleaned words of `pieces` that are kept, in order.
pub open spec fn kept_words(
    pieces: Seq<Seq<char>>,
    stop: Set<Seq<char>>,
    punct: Set<Seq<char>>,
) -> Seq<Seq<char>>
    decreases pieces.len(),
{
    if pieces.len() == 0 {
        Seq::empty()
    } else {
        let prev = kept_words(pieces.drop_last(), stop, punct);
        let w = clean_word(pieces.last());
        if accepts(w, grapheme_count_of(w), stop, punct) {
            prev.push(w)
        } else {
            prev
        }
    }
}

/// The text that sentences are read from: each sentence-ending mark followed
/// by a line break or tab becomes a full stop.
pub open spec fn sentence_input(text: Seq<char>) -> Seq<char> {
    if regex_compiles(SENTENCE_SPACE@) {
        regex_replaced(SENTENCE_SPACE@, text, "."@)
    } else {
        text
    }
}

/// The pieces of a text between line breaks.
pub open spec fn paragraph_pieces(text: Seq<char>) -> Seq<Seq<char>> {
    if regex_compiles(NEWLINES@) {
        regex_pieces(NEWLINES@, text)
    } else {
        seq![text]
    }
}

/// A tokenizer over one text, with its stopwords and punctuation.
pub struct Tokenizer {
    text: String,
    stopwords: Vec<String>,
    punctuation: Vec<String>,
}

impl Tokenizer {
    pub closed spec fn text_view(&self) -> Seq<char> {
        self.text@
    }

    pub closed spec fn stop_set(&self) -> Set<Seq<char>> {
        views(self.stopwords@).to_set()
    }

    pub closed spec fn punct_set(&self) -> Set<Seq<char>> {
        views(self.punctuation@).to_set()
    }

    /// The words of a piece of text that are kept, in order.
    pub open spec fn words_in(&self, s: Seq<char>) -> Seq<Seq<char>> {
        kept_words(word_bounds_of(s), self.stop_set(), self.punct_set())
    }

    /// Each sentence of a piece of text as its kept words joined by spaces.
    pub open spec fn sentence_lines(&self, s: Seq<char>) -> Seq<Seq<char>> {
        sentences_of(s).map_values(|x: Seq<char>| join_words(self.words_in(x)))
    }

    /// A tokenizer over `text`; the punctuation is `DEFAULT_PUNCTUATION` when
    /// none is given.
    pub fn new(text: &str, stopwords: Vec<String>, punctuation: Option<Vec<String>>) -> (r: Self)
        ensures
            r.text_view() == text@,
            r.stop_set() == views(stopwords@).to_set(),
            r.punct_set() == match punctuation {
                Some(p) => views(p@).to_set(),
                None => str_views(DEFAULT_PUNCTUATION@).to_set(),
            },
    {
        let punct = match punctuation {
            Some(p) => p,
            None => {
                let mut v: Vec<String> = Vec::new();
                let mut i: usize = 0;
                while i < 33
                    invariant
                        0 <= i <= 33,
                        views(v@) == str_views(DEFAULT_PUNCTUATION@).subrange(0, i as int),
                    decreases 33 - i,
                {
                    let s = DEFAULT_PUNCTUATION[i].to_owned();
                    let ghost before = views(v@);
                    v.push(s);
                    assert(views(v@) =~= before.push(s@));
                    assert(str_views(DEFAULT_PUNCTUATION@).subrange(0, i + 1) =~= str_views(
                        DEFAULT_PUNCTUATION@,
                    ).subrange(0, i as int).push(DEFAULT_PUNCTUATION@[i as int]@));
                    i = i + 1;
                }
                assert(str_views(DEFAULT_PUNCTUATION@).subrange(0, 33) =~= str_views(
                    DEFAULT_PUNCTUATION@,
                ));
                v
            },
        };
        Tokenizer { text: text.to_owned(), stopwords, punctuation: punct }
    }

    /// Whether a cleaned word with the given number of graphemes is kept.
    pub fn accept_word(&self, word: &str, graphemes: usize) -> (r: bool)
        ensures
            r == accepts(word@, graphemes as nat, self.stop_set(), self.punct_set()),
    {
        let w = word.to_owned();
        if word.is_empty() {
            return false;
        }
        if graphemes == 1 && contains_string(&self.punctuation, &w) {
            return false;
        }
        !contains_string(&self.stopwords, &w)
    }

    /// The cleaned form of a word piece, if it is kept.
    fn process_word(&self, w: &str) -> (r: Option<String>)
        ensures
            r is Some <==> accepts(
                clean_word(w@),
                grapheme_count_of(clean_word(w@)),
                self.stop_set(),
                self.punct_set(),
            ),
            r matches Some(x) ==> x@ == clean_word(w@),
    {
        let t = trim(w);
        let stripped = match replace_all(SPECIAL_CHARS, t.as_str(), "") {
            Some(x) => x,
            None => t,
        };
        let word = lowercase(stripped.as_str());
        let g = grapheme_count(word.as_str());
        if self.accept_word(word.as_str(), g) {
            Some(word)
        } else {
            None
        }
    }

    /// The kept words of a piece of text, in order.
    fn words_of(&self, s: &str) -> (r: Vec<String>)
        ensures
            views(r@) == self.words_in(s@),
    {
        let pieces = word_bounds(s);
        self.words_from_pieces(&pieces)
    }

    /// The cleaned forms of the word pieces that are kept, in order.
    pub fn words_from_pieces(&self, pieces: &Vec<String>) -> (r: Vec<String>)
        ensures
            views(r@) == kept_words(views(pieces@), self.stop_set(), self.punct_set()),
    {
        let ghost pv = views(pieces@);
        let mut out: Vec<String> = Vec::new();
        let mut i: usize = 0;
        while i < pieces.len()
            invariant
                pv == views(pieces@),
                0 <= i <= pieces.len(),
                views(out@) == kept_words(pv.subrange(0, i as int), self.stop_set(), self.punct_set()),
            decreases pieces.len() - i,
        {
            let ghost next = pv.subrange(0, i + 1);
            assert(next.drop_last() =~= pv.subrange(0, i as int));
            assert(next.last() == pieces@[i as int]@);
            match self.process_word(pieces[i].as_str()) {
                Some(w) => {
                    let ghost before = views(out@);
                    out.push(w);
                    assert(views(out@) =~= before.push(w@));
                },
                None => {},
            }
            i = i + 1;
        }
        assert(pv.subrange(0, pieces.len() as int) =~= pv);
        out
    }

    /// Each sentence of a piece of text as its kept words joined by spaces.
    fn sentences_of_text(&self, s: &str) -> (r: Vec<String>)
        ensures
            views(r@) == self.sentence_lines(s@),
    {
        let ss = sentences(s);
        let ghost sv = views(ss@);
        let mut out: Vec<String> = Vec::new();
        let mut i: usize = 0;
        while i < ss.len()
            invariant
                sv == views(ss@),
                sv == sentences_of(s@),
                0 <= i <= ss.len(),
                views(out@) == self.sentence_lines(s@).subrange(0, i as int),
            decreases ss.len() - i,
        {
            let words = self.words_of(ss[i].as_str());
            let line = join_with_space(&words);
            let ghost before = views(out@);
            out.push(line);
            assert(views(out@) =~= before.push(line@));
            assert(self.sentence_lines(s@).subrange(0, i + 1) =~= self.sentence_lines(s@).subrange(
                0,
                i as int,
            ).push(join_words(self.words_in(sv[i as int]))));
            i = i + 1;
        }
        assert(self.sentence_lines(s@).subrange(0, ss.len() as int) =~= self.sentence_lines(s@));
        out
    }

    /// Each paragraph of `pieces` that is not blank, as its sentences joined
    /// by spaces.
    pub open spec fn paragraph_lines(&self, pieces: Seq<Seq<char>>) -> Seq<Seq<char>>
        decreases pieces.len(),
    {
        if pieces.len() == 0 {
            Seq::empty()
        } else {
            let prev = self.paragraph_lines(pieces.drop_last());
            let p = pieces.last();
            if trim_spec(p).len() == 0 {
                prev
            } else {
                prev.push(join_words(self.sentence_lines(p)))
            }
        }
    }

    /// The kept words of the text, in order.
    pub fn split_into_words(&self) -> (r: Vec<String>)
        ensures
            views(r@) == self.words_in(self.text_view()),
    {
        self.words_of(self.text.as_str())
    }

    /// Each sentence of the text as its kept words joined by spaces.
    pub fn split_into_sentences(&self) -> (r: Vec<String>)
        ensures
            views(r@) == self.sentence_lines(sentence_input(self.text_view())),
    {
        let input = match replace_all(SENTENCE_SPACE, self.text.as_str(), ".") {
            Some(x) => x,
            None => self.text.clone(),
        };
        self.sentences_of_text(input.as_str())
    }

    /// Each paragraph of the text that is not blank, as the sentence lines of
    /// its sentences joined by spaces.
    pub fn split_into_paragraphs(&self) -> (r: Vec<String>)
        ensures
            views(r@) == self.paragraph_lines(paragraph_pieces(self.text_view())),
    {
        let pieces = match split_by(NEWLINES, self.text.as_str()) {
            Some(v) => v,
            None => {
                let mut v: Vec<String> = Vec::new();
                v.push(self.text.clone());
                assert(views(v@) =~= seq![self.text@]);
                v
            },
        };
        let ghost pv = views(pieces@);
        let mut out: Vec<String> = Vec::new();
        let mut i: usize = 0;
        while i < pieces.len()
            invariant
                pv == views(pieces@),
                pv == paragraph_pieces(self.text_view()),
                0 <= i <= pieces.len(),
                views(out@) == self.paragraph_lines(pv.subrange(0, i as int)),
            decreases pieces.len() - i,
        {
            let ghost next = pv.subrange(0, i + 1);
            assert(next.drop_last() =~= pv.subrange(0, i as int));
            assert(next.last() == pieces@[i as int]@);
            if !trim(pieces[i].as_str()).as_str().is_empty() {
                let lines = self.sentences_of_text(pieces[i].as_str());
                let para = join_with_space(&lines);
                let ghost before = views(out@);
                out.push(para);
                assert(views(out@) =~= before.push(para@));
            }
            i = i + 1;
        }
        assert(pv.subrange(0, pieces.len() as int) =~= pv);
        out
    }
}

/// The strings joined with one space between each two.
pub fn join_with_space(v: &Vec<String>) -> (r: String)
    ensures
        r@ == join_words(views(v@)),
{
    let mut out = String::new();
    let mut i: usize = 0;
    while i < v.len()
        invariant
            0 <= i <= v.len(),
            out@ == join_words(views(v@).subrange(0, i as int)),
        decreases v.len() - i,
    {
        let ghost pre = views(v@).subrange(0, i as int);
        let ghost next = views(v@).subrange(0, i + 1);
        assert(next.drop_last() =~= pre);
        if i > 0 {
            out.push(' ');
        }
        crate::segment::append_str(&mut out, v[i].as_str());
        assert(out@ =~= join_words(next));
        i = i + 1;
    }
    assert(views(v@).subrange(0, v.len() as int) =~= views(v@));
    out
}

} // verus!
