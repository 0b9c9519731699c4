//! Text search: the words of a text, the reading of a query text, and the
//! test and the score of a message against a query.
//!
//! A query text is read like a web search: words that must all be found,
//! phrases in double quotes whose words must be found side by side, and a
//! dash in front of a word or a phrase that must not be found.

use vstd::prelude::*;

use crate::models::{views, Message, MessageView};
use crate::order::Ranked;
use crate::selection::{count_wanted, lemma_count_bounds};
use crate::text::{same_bytes, same_text};

verus! {

/// The byte `"` that opens and closes a phrase.
pub const QUOTE: u8 = 34;

/// The byte `-` that excludes what follows it.
pub const DASH: u8 = 45;

/// The weight of a word of the query that is found, unless told otherwise.
pub const TERM_WEIGHT: u32 = 2;

/// The weight of a phrase of the query that is found, unless told otherwise.
pub const PHRASE_WEIGHT: u32 = 4;

/// The byte is part of a word: a digit, a letter of the ASCII alphabet, or
/// a byte of a character beyond ASCII.
pub open spec fn is_word_byte(b: u8) -> bool {
    48 <= b <= 57 || 65 <= b <= 90 || 97 <= b <= 122 || b >= 128
}

/// The byte with an ASCII capital letter turned into its small letter.
pub open spec fn fold_byte(b: u8) -> u8 {
    if 65 <= b <= 90 {
        (b + 32) as u8
    } else {
        b
    }
}

/// The words of a text: its longest runs of word bytes, capitals folded.
pub open spec fn words(text: Seq<u8>) -> Seq<Seq<u8>>
    decreases text.len(),
{
    if text.len() == 0 {
        Seq::empty()
    } else {
        let rest = text.drop_last();
        let b = text.last();
        let found = words(rest);
        if !is_word_byte(b) {
            found
        } else if rest.len() > 0 && is_word_byte(rest.last()) {
            found.drop_last().push(found.last().push(fold_byte(b)))
        } else {
            found.push(seq![fold_byte(b)])
        }
    }
}

/// `phrase` stands in `doc` at the place `at`, word for word.
pub open spec fn occurs_at(phrase: Seq<Seq<u8>>, doc: Seq<Seq<u8>>, at: int) -> bool {
    &&& 0 <= at
    &&& at + phrase.len() <= doc.len()
    &&& forall|k: int| 0 <= k < phrase.len() ==> #[trigger] doc[at + k] == phrase[k]
}

/// The test that `phrase` stands in `doc` at a place.
pub open spec fn occurs_in(phrase: Seq<Seq<u8>>, doc: Seq<Seq<u8>>) -> spec_fn(int) -> bool {
    |at: int| occurs_at(phrase, doc, at)
}

/// The number of places of `doc` that `phrase` stands at.
pub open spec fn occurrences(phrase: Seq<Seq<u8>>, doc: Seq<Seq<u8>>) -> int {
    count_wanted(doc.len() as int, occurs_in(phrase, doc))
}

/// The weights that a score is made with.
#[derive(Clone, Copy, Debug, PartialEq, Eq, Structural)]
pub struct RankWeights {
    /// What each place counts that a single word of the query is found at.
    pub term: u32,
    /// What each place counts that a phrase of several words is found at.
    pub phrase: u32,
}

impl RankWeights {
    /// The weight of one place that `phrase` is found at.
    pub open spec fn of(self, phrase: Seq<Seq<u8>>) -> int {
        if phrase.len() <= 1 {
            self.term as int
        } else {
            self.phrase as int
        }
    }

    /// The weights 2 for a word and 4 for a phrase.
    pub fn standard() -> (weights: RankWeights)
        ensures
            weights == (RankWeights { term: TERM_WEIGHT, phrase: PHRASE_WEIGHT }),
    {
        RankWeights { term: TERM_WEIGHT, phrase: PHRASE_WEIGHT }
    }
}

/// What a query asks for: phrases that must all be found, and phrases of
/// which none may be found. A single word is a phrase of one word.
pub struct QueryView {
    pub required: Seq<Seq<Seq<u8>>>,
    pub excluded: Seq<Seq<Seq<u8>>>,
}

/// The sum, over the first `n` of the required phrases, of the phrase's
/// weight times the number of places it is found at.
pub open spec fn score(
    required: Seq<Seq<Seq<u8>>>,
    weights: RankWeights,
    doc: Seq<Seq<u8>>,
    n: int,
) -> int
    decreases n,
{
    if n <= 0 {
        0
    } else {
        score(required, weights, doc, n - 1) + weights.of(required[n - 1]) * occurrences(
            required[n - 1],
            doc,
        )
    }
}

impl QueryView {
    /// The query asks for nothing.
    pub open spec fn is_empty(self) -> bool {
        self.required.len() == 0 && self.excluded.len() == 0
    }

    /// A text with the words `doc` answers the query: the query asks for
    /// something, every required phrase is found, and no excluded one is.
    pub open spec fn matches(self, doc: Seq<Seq<u8>>) -> bool {
        &&& !self.is_empty()
        &&& forall|r: int|
            0 <= r < self.required.len() ==> occurrences(#[trigger] self.required[r], doc) > 0
        &&& forall|e: int|
            0 <= e < self.excluded.len() ==> occurrences(#[trigger] self.excluded[e], doc) == 0
    }

    /// The score of a text with the words `doc`: the weighted count of the
    /// places that required phrases are found at, held at the largest `u64`
    /// where it would go beyond.
    pub open spec fn rank(self, weights: RankWeights, doc: Seq<Seq<u8>>) -> int {
        let total = score(self.required, weights, doc, self.required.len() as int);
        if total > u64::MAX {
            u64::MAX as int
        } else {
            total
        }
    }
}

/// A score is never negative.
pub proof fn lemma_score_bounds(
    required: Seq<Seq<Seq<u8>>>,
    weights: RankWeights,
    doc: Seq<Seq<u8>>,
    n: int,
)
    ensures
        0 <= score(required, weights, doc, n),
    decreases n,
{
    if n > 0 {
        lemma_score_bounds(required, weights, doc, n - 1);
        lemma_count_bounds(doc.len() as int, occurs_in(required[n - 1], doc));
        assert(0 <= weights.of(required[n - 1]) * occurrences(required[n - 1], doc))
            by (nonlinear_arith)
            requires
                0 <= weights.of(required[n - 1]),
                0 <= occurrences(required[n - 1], doc),
        ;
    }
}

/// A word: one byte or more, each a digit, a small letter, or a byte of a
/// character beyond ASCII.
pub open spec fn is_word(word: Seq<u8>) -> bool {
    &&& word.len() > 0
    &&& forall|j: int|
        0 <= j < word.len() ==> is_word_byte(#[trigger] word[j]) && fold_byte(word[j]) == word[j]
}

/// What [`words`] finds in a text are words, and a text that ends in a word
/// byte has one.
pub proof fn law_words_are_words(text: Seq<u8>)
    ensures
        forall|k: int| 0 <= k < words(text).len() ==> is_word(#[trigger] words(text)[k]),
        text.len() > 0 && is_word_byte(text.last()) ==> words(text).len() > 0,
    decreases text.len(),
{
    if text.len() > 0 {
        let rest = text.drop_last();
        let b = text.last();
        let found = words(rest);
        let all = words(text);
        law_words_are_words(rest);
        if is_word_byte(b) {
            assert(is_word_byte(fold_byte(b)) && fold_byte(fold_byte(b)) == fold_byte(b));
            assert forall|k: int| 0 <= k < all.len() implies is_word(#[trigger] all[k]) by {
                if k < all.len() - 1 {
                    assert(all[k] == found[k]);
                } else if rest.len() > 0 && is_word_byte(rest.last()) {
                    let open = found.last();
                    assert(is_word(open));
                    assert(all[k] == open.push(fold_byte(b)));
                    assert forall|j: int| 0 <= j < all[k].len() implies is_word_byte(
                        #[trigger] all[k][j],
                    ) && fold_byte(all[k][j]) == all[k][j] by {
                        if j < open.len() {
                            assert(all[k][j] == open[j]);
                        }
                    }
                } else {
                    assert(all[k] == seq![fold_byte(b)]);
                }
            }
        }
    }
}

/// A text that answers a query with a required phrase has a score above
/// zero under weights above zero.
pub proof fn law_answer_scores(query: QueryView, weights: RankWeights, doc: Seq<Seq<u8>>)
    requires
        query.matches(doc),
        query.required.len() > 0,
        weights.term > 0,
        weights.phrase > 0,
    ensures
        query.rank(weights, doc) > 0,
{
    let n = query.required.len() as int;
    let last = query.required[n - 1];
    lemma_score_bounds(query.required, weights, doc, n - 1);
    assert(occurrences(last, doc) > 0);
    assert(weights.of(last) * occurrences(last, doc) > 0) by (nonlinear_arith)
        requires
            weights.of(last) > 0,
            occurrences(last, doc) > 0,
    ;
}

/// The state of reading a query text.
pub struct Parsing {
    /// The required phrases read so far.
    pub required: Seq<Seq<Seq<u8>>>,
    /// The excluded phrases read so far.
    pub excluded: Seq<Seq<Seq<u8>>>,
    /// The finished words of the phrase that is open.
    pub phrase: Seq<Seq<u8>>,
    /// The bytes of the word that is open.
    pub word: Seq<u8>,
    /// The reading is inside double quotes.
    pub quoted: bool,
    /// What is open is excluded.
    pub negated: bool,
    /// A dash was just read that excludes what starts next.
    pub dash: bool,
}

impl Parsing {
    /// The state before anything is read.
    pub open spec fn start() -> Parsing {
        Parsing {
            required: Seq::empty(),
            excluded: Seq::empty(),
            phrase: Seq::empty(),
            word: Seq::empty(),
            quoted: false,
            negated: false,
            dash: false,
        }
    }

    /// The state with `phrase` added to what the query asks for.
    pub open spec fn with_phrase(self, phrase: Seq<Seq<u8>>) -> Parsing {
        if self.negated {
            Parsing { excluded: self.excluded.push(phrase), ..self }
        } else {
            Parsing { required: self.required.push(phrase), ..self }
        }
    }

    /// The state after the open word, if there is one, has ended: inside
    /// quotes it joins the open phrase, outside it is a phrase of its own.
    pub open spec fn end_word(self) -> Parsing {
        if self.word.len() == 0 {
            self
        } else if self.quoted {
            Parsing { phrase: self.phrase.push(self.word), word: Seq::empty(), ..self }
        } else {
            Parsing { word: Seq::empty(), negated: false, ..self.with_phrase(seq![self.word]) }
        }
    }

    /// The state after the open phrase has ended.
    pub open spec fn end_phrase(self) -> Parsing {
        let ended = self.end_word();
        let added = if ended.phrase.len() == 0 {
            ended
        } else {
            ended.with_phrase(ended.phrase)
        };
        Parsing { phrase: Seq::empty(), quoted: false, negated: false, dash: false, ..added }
    }

    /// The state after the byte `b` is read.
    pub open spec fn step(self, b: u8) -> Parsing {
        if self.quoted {
            if b == QUOTE {
                self.end_phrase()
            } else if is_word_byte(b) {
                Parsing { word: self.word.push(fold_byte(b)), ..self }
            } else {
                self.end_word()
            }
        } else if is_word_byte(b) {
            Parsing {
                word: self.word.push(fold_byte(b)),
                negated: if self.word.len() == 0 {
                    self.dash
                } else {
                    self.negated
                },
                dash: false,
                ..self
            }
        } else {
            let ended = self.end_word();
            if b == QUOTE {
                Parsing { quoted: true, negated: self.dash, dash: false, ..ended }
            } else if b == DASH {
                Parsing { dash: self.word.len() == 0, ..ended }
            } else {
                Parsing { dash: false, ..ended }
            }
        }
    }

    /// What the query asks for when the text ends in this state: what is
    /// open ends too, a phrase even without its closing quote.
    pub open spec fn finish(self) -> QueryView {
        let ended = if self.quoted {
            self.end_phrase()
        } else {
            self.end_word()
        };
        QueryView { required: ended.required, excluded: ended.excluded }
    }
}

/// The state of reading after the first `n` bytes of `text`.
pub open spec fn parsing(text: Seq<u8>, n: int) -> Parsing
    decreases n,
{
    if n <= 0 {
        Parsing::start()
    } else {
        parsing(text, n - 1).step(text[n - 1])
    }
}

/// What the query text `text` asks for.
pub open spec fn parse(text: Seq<u8>) -> QueryView {
    parsing(text, text.len() as int).finish()
}

/// A run of words: a phrase of a query, or all the words of a text.
#[derive(Clone, Debug, PartialEq, Eq)]
pub struct Phrase {
    pub words: Vec<Vec<u8>>,
}

impl View for Phrase {
    type V = Seq<Seq<u8>>;

    open spec fn view(&self) -> Seq<Seq<u8>> {
        views(self.words@)
    }
}

/// A query: see [`QueryView`].
#[derive(Clone, Debug, PartialEq, Eq)]
pub struct SearchQuery {
    pub required: Vec<Phrase>,
    pub excluded: Vec<Phrase>,
}

impl View for SearchQuery {
    type V = QueryView;

    open spec fn view(&self) -> QueryView {
        QueryView { required: views(self.required@), excluded: views(self.excluded@) }
    }
}

/// The messages that a search looks at: those of one channel, those of one
/// user, those of one user in one channel, or all.
pub struct FilterView {
    pub channel_id: Option<Seq<char>>,
    pub user_id: Option<Seq<char>>,
}

impl FilterView {
    /// The search looks at `message`.
    pub open spec fn admits(self, message: MessageView) -> bool {
        &&& self.channel_id matches Some(c) ==> message.channel_id == c
        &&& self.user_id matches Some(u) ==> message.user_id == u
    }

    /// This filter asks for all that `wider` asks for, and maybe more.
    pub open spec fn narrows(self, wider: FilterView) -> bool {
        &&& wider.channel_id is Some ==> self.channel_id == wider.channel_id
        &&& wider.user_id is Some ==> self.user_id == wider.user_id
    }
}

/// The text in a text that may be absent.
pub open spec fn text_of(text: Option<&str>) -> Option<Seq<char>> {
    match text {
        Some(t) => Some(t@),
        None => None,
    }
}

/// A filter: see [`FilterView`].
#[derive(Clone, Copy, Debug, PartialEq, Eq)]
pub struct SearchFilter<'a> {
    pub channel_id: Option<&'a str>,
    pub user_id: Option<&'a str>,
}

impl<'a> View for SearchFilter<'a> {
    type V = FilterView;

    open spec fn view(&self) -> FilterView {
        FilterView { channel_id: text_of(self.channel_id), user_id: text_of(self.user_id) }
    }
}

impl<'a> SearchFilter<'a> {
    /// Whether the search looks at `message`.
    pub fn admits(&self, message: &Message) -> (yes: bool)
        ensures
            yes == self@.admits(message@),
    {
        let in_channel = match self.channel_id {
            Some(c) => same_text(message.channel_id.as_str(), c),
            None => true,
        };
        let by_user = match self.user_id {
            Some(u) => same_text(message.user_id.as_str(), u),
            None => true,
        };
        in_channel && by_user
    }
}

/// A message that a search found: its score and its place in the archive.
/// A hit comes before another with a lower score, and before one with the
/// same score at an earlier place.
#[derive(Clone, Copy, Debug, PartialEq, Eq, Structural)]
pub struct Hit {
    pub rank: u64,
    pub position: usize,
}

impl Ranked for Hit {
    open spec fn precedes(&self, other: &Self) -> bool {
        self.rank > other.rank || (self.rank == other.rank && self.position > other.position)
    }

    fn comes_before(&self, other: &Self) -> (first: bool) {
        self.rank > other.rank || (self.rank == other.rank && self.position > other.position)
    }

    proof fn lemma_precedes(a: &Self, b: &Self, c: &Self) {
    }
}

/// Whether the byte is part of a word.
fn word_byte(b: u8) -> (yes: bool)
    ensures
        yes == is_word_byte(b),
{
    (48 <= b && b <= 57) || (65 <= b && b <= 90) || (97 <= b && b <= 122) || b >= 128
}

/// The byte with an ASCII capital letter turned into its small letter.
fn folded(b: u8) -> (small: u8)
    ensures
        small == fold_byte(b),
{
    if 65 <= b && b <= 90 {
        b + 32
    } else {
        b
    }
}

/// The words of a text.
pub fn tokenize(text: &[u8]) -> (doc: Phrase)
    ensures
        doc@ == words(text@),
{
    let mut done: Vec<Vec<u8>> = Vec::new();
    let mut word: Vec<u8> = Vec::new();
    let mut i: usize = 0;
    assert(text@.take(0) =~= Seq::<u8>::empty());
    while i < text.len()
        invariant
            i <= text@.len(),
            i > 0 && is_word_byte(text@[i - 1]) ==> word@.len() > 0 && words(text@.take(i as int))
                == views(done@).push(word@),
            !(i > 0 && is_word_byte(text@[i - 1])) ==> word@.len() == 0 && words(
                text@.take(i as int),
            ) == views(done@),
        decreases text@.len() - i,
    {
        let b = text[i];
        let ghost seen = text@.take(i as int);
        let ghost next = text@.take(i + 1);
        let ghost listed = views(done@);
        proof {
            assert(next.drop_last() =~= seen);
            assert(next.last() == b);
            if i > 0 {
                assert(seen.last() == text@[i - 1]);
            }
        }
        if word_byte(b) {
            proof {
                if i > 0 && is_word_byte(text@[i - 1]) {
                    assert(listed.push(word@).drop_last() =~= listed);
                }
            }
            word.push(folded(b));
            proof {
                if !(i > 0 && is_word_byte(text@[i - 1])) {
                    assert(word@ =~= seq![fold_byte(b)]);
                }
            }
        } else if word.len() > 0 {
            done.push(word);
            word = Vec::new();
            assert(views(done@) =~= listed.push(done@[done@.len() - 1]@));
        }
        i = i + 1;
    }
    assert(text@.take(text@.len() as int) =~= text@);
    if word.len() > 0 {
        let ghost listed = views(done@);
        done.push(word);
        assert(views(done@) =~= listed.push(done@[done@.len() - 1]@));
    }
    Phrase { words: done }
}

/// Whether `phrase` stands in `doc` at the place `at`.
fn occurs_here(phrase: &Phrase, doc: &Phrase, at: usize) -> (yes: bool)
    requires
        at <= doc@.len(),
    ensures
        yes == occurs_at(phrase@, doc@, at as int),
{
    let length = phrase.words.len();
    let total = doc.words.len();
    if length > total - at {
        return false;
    }
    let mut k: usize = 0;
    while k < length
        invariant
            k <= length,
            length == phrase@.len(),
            at + length <= total,
            total == doc.words@.len(),
            doc@.len() == doc.words@.len(),
            forall|j: int| 0 <= j < k ==> #[trigger] doc@[at + j] == phrase@[j],
        decreases length - k,
    {
        if !same_bytes(doc.words[at + k].as_slice(), phrase.words[k].as_slice()) {
            assert(doc@[at + k] != phrase@[k as int]);
            return false;
        }
        k = k + 1;
    }
    true
}

/// The number of places of `doc` that `phrase` stands at.
pub fn count_occurrences(phrase: &Phrase, doc: &Phrase) -> (count: usize)
    ensures
        count == occurrences(phrase@, doc@),
{
    let ghost found = occurs_in(phrase@, doc@);
    let mut count: usize = 0;
    let mut at: usize = 0;
    while at < doc.words.len()
        invariant
            at <= doc@.len(),
            doc@.len() == doc.words@.len(),
            found == occurs_in(phrase@, doc@),
            count == count_wanted(at as int, found),
            count <= at,
        decreases doc@.len() - at,
    {
        if occurs_here(phrase, doc, at) {
            count = count + 1;
        }
        at = at + 1;
    }
    count
}

impl SearchQuery {
    /// Whether a text with the words `doc` answers the query.
    pub fn matches(&self, doc: &Phrase) -> (yes: bool)
        ensures
            yes == self@.matches(doc@),
    {
        if self.required.len() == 0 && self.excluded.len() == 0 {
            return false;
        }
        let mut r: usize = 0;
        while r < self.required.len()
            invariant
                r <= self.required@.len(),
                forall|j: int|
                    0 <= j < r ==> occurrences(#[trigger] self@.required[j], doc@) > 0,
            decreases self.required@.len() - r,
        {
            if count_occurrences(&self.required[r], doc) == 0 {
                assert(occurrences(self@.required[r as int], doc@) == 0);
                return false;
            }
            r = r + 1;
        }
        let mut e: usize = 0;
        while e < self.excluded.len()
            invariant
                e <= self.excluded@.len(),
                forall|j: int|
                    0 <= j < self.required@.len() ==> occurrences(
                        #[trigger] self@.required[j],
                        doc@,
                    ) > 0,
                forall|j: int|
                    0 <= j < e ==> occurrences(#[trigger] self@.excluded[j], doc@) == 0,
            decreases self.excluded@.len() - e,
        {
            if count_occurrences(&self.excluded[e], doc) != 0 {
                assert(occurrences(self@.excluded[e as int], doc@) != 0);
                return false;
            }
            e = e + 1;
        }
        true
    }

    /// The score of a text with the words `doc`.
    pub fn rank(&self, doc: &Phrase, weights: &RankWeights) -> (rank: u64)
        ensures
            rank == self@.rank(*weights, doc@),
    {
        let mut total: u128 = 0;
        let mut r: usize = 0;
        while r < self.required.len()
            invariant
                r <= self.required@.len(),
                total <= u64::MAX,
                0 <= score(self@.required, *weights, doc@, r as int),
                total == if score(self@.required, *weights, doc@, r as int) > u64::MAX {
                    u64::MAX as int
                } else {
                    score(self@.required, *weights, doc@, r as int)
                },
            decreases self.required@.len() - r,
        {
            let found = count_occurrences(&self.required[r], doc);
            let weight: u32 = if self.required[r].words.len() <= 1 {
                weights.term
            } else {
                weights.phrase
            };
            proof {
                assert(self@.required[r as int] == self.required@[r as int]@);
                assert(weight == weights.of(self@.required[r as int]));
                assert(0 <= weight * found <= 0xffff_ffff * 0xffff_ffff_ffff_ffff)
                    by (nonlinear_arith)
                    requires
                        0 <= weight <= 0xffff_ffff,
                        0 <= found <= 0xffff_ffff_ffff_ffff,
                ;
            }
            let gained: u128 = weight as u128 * found as u128;
            total = total + gained;
            if total > u64::MAX as u128 {
                total = u64::MAX as u128;
            }
            r = r + 1;
        }
        total as u64
    }

    /// What the query text asks for.
    pub fn parse(text: &[u8]) -> (query: SearchQuery)
        ensures
            query@ == parse(text@),
    {
        let mut state = Parser::start();
        let mut i: usize = 0;
        while i < text.len()
            invariant
                i <= text@.len(),
                state@ == parsing(text@, i as int),
            decreases text@.len() - i,
        {
            state = state.step(text[i]);
            i = i + 1;
        }
        state.finish()
    }
}

/// The state of reading a query text; see [`Parsing`].
struct Parser {
    required: Vec<Phrase>,
    excluded: Vec<Phrase>,
    phrase: Vec<Vec<u8>>,
    word: Vec<u8>,
    quoted: bool,
    negated: bool,
    dash: bool,
}

impl View for Parser {
    type V = Parsing;

    closed spec fn view(&self) -> Parsing {
        Parsing {
            required: views(self.required@),
            excluded: views(self.excluded@),
            phrase: views(self.phrase@),
            word: self.word@,
            quoted: self.quoted,
            negated: self.negated,
            dash: self.dash,
        }
    }
}

impl Parser {
    fn start() -> (state: Parser)
        ensures
            state@ == Parsing::start(),
    {
        let state = Parser {
            required: Vec::new(),
            excluded: Vec::new(),
            phrase: Vec::new(),
            word: Vec::new(),
            quoted: false,
            negated: false,
            dash: false,
        };
        assert(views(state.required@) =~= Seq::<Seq<Seq<u8>>>::empty());
        assert(views(state.excluded@) =~= Seq::<Seq<Seq<u8>>>::empty());
        assert(views(state.phrase@) =~= Seq::<Seq<u8>>::empty());
        state
    }

    fn with_phrase(self, words: Vec<Vec<u8>>) -> (state: Parser)
        ensures
            state@ == self@.with_phrase(views(words@)),
    {
        let Parser { mut required, mut excluded, phrase, word, quoted, negated, dash } = self;
        let ghost asked = views(required@);
        let ghost barred = views(excluded@);
        let added = Phrase { words };
        if negated {
            excluded.push(added);
            assert(views(excluded@) =~= barred.push(added@));
        } else {
            required.push(added);
            assert(views(required@) =~= asked.push(added@));
        }
        Parser { required, excluded, phrase, word, quoted, negated, dash }
    }

    fn end_word(self) -> (state: Parser)
        ensures
            state@ == self@.end_word(),
    {
        if self.word.len() == 0 {
            return self;
        }
        if self.quoted {
            let Parser { required, excluded, mut phrase, word, quoted, negated, dash } = self;
            let ghost listed = views(phrase@);
            phrase.push(word);
            assert(views(phrase@) =~= listed.push(word@));
            Parser { required, excluded, phrase, word: Vec::new(), quoted, negated, dash }
        } else {
            let Parser { required, excluded, phrase, word, quoted, negated, dash } = self;
            let ghost only = word@;
            let mut words: Vec<Vec<u8>> = Vec::new();
            words.push(word);
            assert(views(words@) =~= seq![only]);
            let rest = Parser {
                required,
                excluded,
                phrase,
                word: Vec::new(),
                quoted,
                negated,
                dash,
            };
            let added = rest.with_phrase(words);
            let Parser { required, excluded, phrase, word, quoted, negated, dash } = added;
            Parser { required, excluded, phrase, word, quoted, negated: false, dash }
        }
    }

    fn end_phrase(self) -> (state: Parser)
        ensures
            state@ == self@.end_phrase(),
    {
        let ghost wanted = self@.end_phrase();
        let ended = self.end_word();
        let ghost open = ended@;
        if ended.phrase.len() == 0 {
            let Parser { required, excluded, phrase, word, quoted, negated, dash } = ended;
            assert(views(phrase@) =~= Seq::<Seq<u8>>::empty());
            Parser { required, excluded, phrase, word, quoted: false, negated: false, dash: false }
        } else {
            let Parser { required, excluded, phrase, word, quoted, negated, dash } = ended;
            let rest = Parser {
                required,
                excluded,
                phrase: Vec::new(),
                word,
                quoted,
                negated,
                dash,
            };
            assert(views(rest.phrase@) =~= Seq::<Seq<u8>>::empty());
            let added = rest.with_phrase(phrase);
            assert(added@.required == open.with_phrase(open.phrase).required);
            assert(added@.excluded == open.with_phrase(open.phrase).excluded);
            let Parser { required, excluded, phrase, word, quoted, negated, dash } = added;
            let state = Parser {
                required,
                excluded,
                phrase,
                word,
                quoted: false,
                negated: false,
                dash: false,
            };
            assert(state@.phrase == wanted.phrase);
            assert(state@.word == wanted.word);
            state
        }
    }

    fn step(self, b: u8) -> (state: Parser)
        ensures
            state@ == self@.step(b),
    {
        if self.quoted {
            if b == QUOTE {
                self.end_phrase()
            } else if word_byte(b) {
                let Parser { required, excluded, phrase, mut word, quoted, negated, dash } = self;
                word.push(folded(b));
                Parser { required, excluded, phrase, word, quoted, negated, dash }
            } else {
                self.end_word()
            }
        } else if word_byte(b) {
            let Parser { required, excluded, phrase, mut word, quoted, negated, dash } = self;
            let starts = word.len() == 0;
            word.push(folded(b));
            Parser {
                required,
                excluded,
                phrase,
                word,
                quoted,
                negated: if starts {
                    dash
                } else {
                    negated
                },
                dash: false,
            }
        } else {
            let apart = self.word.len() == 0;
            let before = self.dash;
            let ended = self.end_word();
            let Parser { required, excluded, phrase, word, quoted, negated, dash } = ended;
            if b == QUOTE {
                Parser { required, excluded, phrase, word, quoted: true, negated: before, dash: false }
            } else if b == DASH {
                Parser { required, excluded, phrase, word, quoted, negated, dash: apart }
            } else {
                Parser { required, excluded, phrase, word, quoted, negated, dash: false }
            }
        }
    }

    fn finish(self) -> (query: SearchQuery)
        ensures
            query@ == self@.finish(),
    {
        let ended = if self.quoted {
            self.end_phrase()
        } else {
            self.end_word()
        };
        SearchQuery { required: ended.required, excluded: ended.excluded }
    }
}

} // verus!
