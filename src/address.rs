//! From a raw citation to structured citations: the book abbreviation at its
//! front, the tokens of its address, and the state machine over those tokens.

pub use crate::roman_numerals::convert_str_to_address_num;
use vstd::prelude::*;
use crate::book_linking::{split_leading, Library};
use crate::roman_numerals::number_of;
use crate::scriptureregex::{candidates_in, find_scripture_in_text};
use crate::text::{
    contains_string, decimal_of, i16_text,
    alphanumeric, chars_of, is_alphanumeric, lemma_run_len, push_char, run_len, string_of,
    string_views, trim, trim_range,
};

verus! {

/// Separator characters of an address: hyphen, en dash, em dash, colon, period,
/// comma, semicolon and space.
pub open spec fn is_separator(c: char) -> bool {
    c == '-' || c == '\u{2013}' || c == '\u{2014}' || c == ':' || c == '.' || c == ','
        || c == ';' || c == ' '
}

/// The token for the text between two separators: that text trimmed, or none
/// when it is blank.
pub open spec fn content_piece(s: Seq<char>) -> Seq<Seq<char>> {
    if trim(s).len() == 0 {
        Seq::empty()
    } else {
        seq![trim(s)]
    }
}

/// The token for a separator: the character alone; a space gives none.
pub open spec fn separator_piece(c: char) -> Seq<Seq<char>> {
    if c == ' ' {
        Seq::empty()
    } else {
        seq![seq![c]]
    }
}

/// Where a separator at `p` ends: one following space belongs to it.
pub open spec fn separator_end(s: Seq<char>, p: int) -> int {
    if p + 1 < s.len() && s[p + 1] == ' ' {
        p + 2
    } else {
        p + 1
    }
}

/// Tokens of `s` from position `p` on, where the pending content began at `start`.
pub open spec fn tokens_from(s: Seq<char>, start: int, p: int) -> Seq<Seq<char>>
    recommends
        0 <= start <= p <= s.len(),
    decreases s.len() - p,
{
    if p >= s.len() {
        content_piece(s.subrange(start, s.len() as int))
    } else if is_separator(s[p]) {
        content_piece(s.subrange(start, p)) + separator_piece(s[p]) + tokens_from(
            s,
            separator_end(s, p),
            separator_end(s, p),
        )
    } else {
        tokens_from(s, start, p + 1)
    }
}

/// The tokens of an address, in order: trimmed non-blank runs between separators,
/// and each separator other than a space.
pub open spec fn tokenize(s: Seq<char>) -> Seq<Seq<char>> {
    tokens_from(s, 0, 0)
}

fn is_separator_char(c: char) -> (r: bool)
    ensures
        r == is_separator(c),
{
    c == '-' || c == '\u{2013}' || c == '\u{2014}' || c == ':' || c == '.' || c == ',' || c == ';'
        || c == ' '
}

fn push_content(result: &mut Vec<String>, v: &Vec<char>, from: usize, to: usize)
    requires
        from <= to <= v@.len(),
    ensures
        string_views(final(result)@) == string_views(old(result)@) + content_piece(
            v@.subrange(from as int, to as int),
        ),
{
    let (a, b) = trim_range(v, from, to);
    if a < b {
        let t = string_of(v, a, b);
        result.push(t);
        assert(string_views(result@) =~= string_views(old(result)@) + content_piece(
            v@.subrange(from as int, to as int),
        ));
    } else {
        assert(string_views(result@) =~= string_views(old(result)@) + content_piece(
            v@.subrange(from as int, to as int),
        ));
    }
}

/// Splits an address into its tokens: `"vi. 1; vii. 3"` gives
/// `["vi", ".", "1", ";", "vii", ".", "3"]`.
pub fn split_keep(text: &str) -> (r: Vec<String>)
    ensures
        string_views(r@) == tokenize(text@),
{
    let v = chars_of(text);
    let n = v.len();
    let mut result: Vec<String> = Vec::new();
    let mut start: usize = 0;
    let mut p: usize = 0;
    assert(string_views(result@) + tokens_from(v@, 0, 0) =~= tokenize(v@));
    while p < n
        invariant
            n == v@.len(),
            v@ == text@,
            start <= p <= n,
            string_views(result@) + tokens_from(v@, start as int, p as int) == tokenize(v@),
        decreases n - p,
    {
        if is_separator_char(v[p]) {
            let ghost before = string_views(result@);
            let ghost e = separator_end(v@, p as int);
            push_content(&mut result, &v, start, p);
            if v[p] != ' ' {
                let t = string_of(&v, p, p + 1);
                assert(t@ =~= seq![v@[p as int]]);
                result.push(t);
            }
            let e2 = if p + 1 < n && v[p + 1] == ' ' {
                p + 2
            } else {
                p + 1
            };
            assert(string_views(result@) =~= before + content_piece(
                v@.subrange(start as int, p as int),
            ) + separator_piece(v@[p as int]));
            assert(e2 == e);
            assert(before + tokens_from(v@, start as int, p as int) =~= string_views(result@)
                + tokens_from(v@, e, e));
            start = e2;
            p = e2;
        } else {
            p = p + 1;
        }
    }
    let ghost before = string_views(result@);
    push_content(&mut result, &v, start, n);
    assert(string_views(result@) =~= tokenize(v@));
    result
}

/// A character of a word in a book abbreviation: alphanumeric, or an underscore.
pub open spec fn is_word(c: char) -> bool {
    alphanumeric(c) || c == '_'
}

/// Number of word characters at the front of `s`.
pub open spec fn word_run(s: Seq<char>) -> int {
    run_len(s, |c: char| is_word(c))
}

/// One to three copies of `one`, optionally followed by `five`.
pub open spec fn small_roman(s: Seq<char>, one: char, five: char) -> bool {
    &&& 1 <= s.len() <= 4
    &&& forall|i: int| 0 <= i < s.len() - 1 ==> #[trigger] s[i] == one
    &&& (s.last() == one && s.len() <= 3) || (s.last() == five && s.len() >= 2)
}

/// A book number as it may stand before an abbreviation: `I{1,3}V?`, `i{1,3}v?`
/// or one to three ASCII digits.
pub open spec fn is_book_number(s: Seq<char>) -> bool {
    ||| small_roman(s, 'I', 'V')
    ||| small_roman(s, 'i', 'v')
    ||| (1 <= s.len() <= 3 && forall|i: int| 0 <= i < s.len() ==> '0' <= #[trigger] s[i] <= '9')
}

/// End of the book abbreviation at the front of a citation, or `None` when it
/// does not start with one. The abbreviation is a word, or a book number, a
/// space and a word (read so when the whole first word is a book number followed
/// by a space and a word), or a space and a word; then one more character unless
/// the text ends or a newline follows.
pub open spec fn book_abbr_end(s: Seq<char>) -> Option<int> {
    let w = word_run(s);
    let body = if w > 0 && is_book_number(s.take(w)) && w + 1 < s.len() && s[w] == ' '
        && is_word(s[w + 1]) {
        Some(w + 1 + word_run(s.skip(w + 1)))
    } else if w > 0 {
        Some(w)
    } else if s.len() > 1 && s[0] == ' ' && is_word(s[1]) {
        Some(1 + word_run(s.skip(1)))
    } else {
        None
    };
    match body {
        Some(e) => Some(
            if e < s.len() && s[e] != '\n' {
                e + 1
            } else {
                e
            },
        ),
        None => None,
    }
}

fn is_word_char(c: char) -> (r: bool)
    ensures
        r == is_word(c),
{
    is_alphanumeric(c) || c == '_'
}

fn word_run_from(v: &Vec<char>, from: usize) -> (r: usize)
    requires
        from <= v@.len(),
    ensures
        from + r <= v@.len(),
        r == word_run(v@.skip(from as int)),
{
    let mut i = from;
    while i < v.len() && is_word_char(v[i])
        invariant
            from <= i <= v@.len(),
            forall|j: int| from <= j < i ==> is_word(#[trigger] v@[j]),
        decreases v@.len() - i,
    {
        i = i + 1;
    }
    proof {
        let t = v@.skip(from as int);
        assert forall|j: int| 0 <= j < i - from implies (|c: char| is_word(c))(#[trigger] t[j]) by {
            assert(t[j] == v@[from + j]);
        }
        if i < v@.len() {
            assert(t[i - from] == v@[i as int]);
        }
        lemma_run_len(t, |c: char| is_word(c), i - from);
    }
    i - from
}

fn small_roman_exec(v: &Vec<char>, len: usize, one: char, five: char) -> (r: bool)
    requires
        len <= v@.len(),
    ensures
        r == small_roman(v@.take(len as int), one, five),
{
    let ghost s = v@.take(len as int);
    if len < 1 || len > 4 {
        return false;
    }
    let mut i: usize = 0;
    while i + 1 < len
        invariant
            1 <= len <= 4,
            len <= v@.len(),
            s == v@.take(len as int),
            i < len,
            forall|j: int| 0 <= j < i ==> #[trigger] s[j] == one,
        decreases len - i,
    {
        if v[i] != one {
            assert(s[i as int] != one);
            return false;
        }
        i = i + 1;
    }
    let last = v[len - 1];
    assert(s.last() == last);
    (last == one && len <= 3) || (last == five && len >= 2)
}

fn is_book_number_exec(v: &Vec<char>, len: usize) -> (r: bool)
    requires
        len <= v@.len(),
    ensures
        r == is_book_number(v@.take(len as int)),
{
    if small_roman_exec(v, len, 'I', 'V') || small_roman_exec(v, len, 'i', 'v') {
        return true;
    }
    if len < 1 || len > 3 {
        return false;
    }
    let ghost s = v@.take(len as int);
    let mut i: usize = 0;
    while i < len
        invariant
            len <= v@.len(),
            s == v@.take(len as int),
            !small_roman(s, 'I', 'V'),
            !small_roman(s, 'i', 'v'),
            i <= len,
            forall|j: int| 0 <= j < i ==> '0' <= #[trigger] s[j] <= '9',
        decreases len - i,
    {
        if !('0' <= v[i] && v[i] <= '9') {
            assert(s[i as int] == v@[i as int]);
            return false;
        }
        i = i + 1;
    }
    true
}

/// Where the book abbreviation at the front of `v` ends.
fn book_abbr_end_exec(v: &Vec<char>) -> (r: Option<usize>)
    ensures
        r is Some <==> book_abbr_end(v@) is Some,
        r is Some ==> r->0 as int == book_abbr_end(v@)->0 && r->0 <= v@.len(),
{
    let n = v.len();
    let w = word_run_from(v, 0);
    assert(v@.skip(0) =~= v@);
    let body: usize;
    if w > 0 && is_book_number_exec(v, w) && w + 1 < n && v[w] == ' ' && is_word_char(v[w + 1]) {
        body = w + 1 + word_run_from(v, w + 1);
    } else if w > 0 {
        body = w;
    } else if n > 1 && v[0] == ' ' && is_word_char(v[1]) {
        body = 1 + word_run_from(v, 1);
    } else {
        return None;
    }
    if body < n && v[body] != '\n' {
        Some(body + 1)
    } else {
        Some(body)
    }
}

/// The book abbreviation at the front of a citation, with what follows it up
/// to one character: `"II Sam. iv. 3, 2"` gives `"II Sam."`.
pub fn grab_book_abbr(scripture_string: &str) -> (r: Option<String>)
    ensures
        match book_abbr_end(scripture_string@) {
            Some(e) => r matches Some(t) && t@ == scripture_string@.take(e),
            None => r is None,
        },
{
    let v = chars_of(scripture_string);
    match book_abbr_end_exec(&v) {
        Some(e) => {
            assert(v@.subrange(0, e as int) =~= v@.take(e as int));
            Some(string_of(&v, 0, e))
        },
        None => None,
    }
}

/// `s` with its periods left out.
pub open spec fn without_periods(s: Seq<char>) -> Seq<char> {
    s.filter(|c: char| c != '.')
}

/// Splits a citation into its book abbreviation, periods left out, and its
/// address: `"II Sam. iv. 3, 2"` gives `("II Sam", " iv. 3, 2")`.
pub fn cleaned_book_abbr(scripture_string: &str) -> (r: (String, String))
    requires
        book_abbr_end(scripture_string@) is Some,
    ensures
        r.0@ == without_periods(scripture_string@.take(book_abbr_end(scripture_string@)->0)),
        r.1@ == scripture_string@.skip(book_abbr_end(scripture_string@)->0),
{
    let v = chars_of(scripture_string);
    let e = match book_abbr_end_exec(&v) {
        Some(e) => e,
        None => 0,
    };
    let mut book = String::new();
    let mut i: usize = 0;
    proof {
        reveal(Seq::filter);
        assert(v@.take(0).filter(|c: char| c != '.') =~= Seq::<char>::empty());
    }
    while i < e
        invariant
            e <= v@.len(),
            i <= e,
            book@ == without_periods(v@.take(i as int)),
        decreases e - i,
    {
        proof {
            reveal(Seq::filter);
            assert(v@.take(i + 1).drop_last() =~= v@.take(i as int));
        }
        if v[i] != '.' {
            push_char(&mut book, v[i]);
        }
        i = i + 1;
    }
    assert(v@.subrange(e as int, v@.len() as int) =~= v@.skip(e as int));
    (book, string_of(&v, e, v.len()))
}

/// A structured citation: book, start chapter and verse, end chapter and verse.
#[derive(Clone, Debug)]
pub struct ScriptureCitation {
    pub book: String,
    pub start_chap: Option<i16>,
    pub start_verse: Option<i16>,
    pub end_chap: Option<i16>,
    pub end_verse: Option<i16>,
}

/// What a citation holds, with the book as characters.
pub struct CitationView {
    pub book: Seq<char>,
    pub start_chap: Option<i16>,
    pub start_verse: Option<i16>,
    pub end_chap: Option<i16>,
    pub end_verse: Option<i16>,
}

impl View for ScriptureCitation {
    type V = CitationView;

    open spec fn view(&self) -> CitationView {
        CitationView {
            book: self.book@,
            start_chap: self.start_chap,
            start_verse: self.start_verse,
            end_chap: self.end_chap,
            end_verse: self.end_verse,
        }
    }
}

/// The views of a sequence of citations.
pub open spec fn citation_views(v: Seq<ScriptureCitation>) -> Seq<CitationView> {
    v.map_values(|c: ScriptureCitation| c@)
}

/// A citation of `book` with only its start chapter set.
pub open spec fn fresh(book: Seq<char>, start: Option<i16>) -> CitationView {
    CitationView {
        book: book,
        start_chap: start,
        start_verse: None,
        end_chap: None,
        end_verse: None,
    }
}

/// Text after an optional number: a separator and its decimal form, or nothing.
pub open spec fn number_part(sep: Seq<char>, n: Option<i16>) -> Seq<char> {
    match n {
        Some(x) => sep + decimal_of(x as int),
        None => Seq::empty(),
    }
}

/// How a citation is shown: `"{book} {start_chap}: {start_verse} - {end_chap}: {end_verse}"`,
/// each number with its separator only when it is set.
pub open spec fn display_of(c: CitationView) -> Seq<char> {
    c.book + number_part(seq![' '], c.start_chap) + number_part(seq![':', ' '], c.start_verse)
        + number_part(seq![' ', '-', ' '], c.end_chap) + number_part(seq![':', ' '], c.end_verse)
}

fn push_number(s: &mut String, sep: &Vec<char>, n: Option<i16>)
    ensures
        final(s)@ == old(s)@ + number_part(sep@, n),
{
    match n {
        Some(x) => {
            let mut i: usize = 0;
            while i < sep.len()
                invariant
                    i <= sep@.len(),
                    s@ == old(s)@ + sep@.take(i as int),
                decreases sep@.len() - i,
            {
                push_char(s, sep[i]);
                assert(sep@.take(i + 1) =~= sep@.take(i as int).push(sep@[i as int]));
                i = i + 1;
            }
            assert(sep@.take(sep@.len() as int) =~= sep@);
            let digits = i16_text(x);
            s.append(digits.as_str());
            assert(s@ =~= old(s)@ + number_part(sep@, n));
        },
        None => {
            assert(s@ =~= old(s)@ + number_part(sep@, n));
        },
    }
}

impl ScriptureCitation {
    /// A citation of `name` with only its start chapter set.
    pub fn new(name: &String, start_chap: Option<i16>) -> (r: ScriptureCitation)
        ensures
            r@ == fresh(name@, start_chap),
    {
        ScriptureCitation {
            book: name.clone(),
            start_chap: start_chap,
            start_verse: None,
            end_chap: None,
            end_verse: None,
        }
    }

    /// A copy of this citation.
    pub fn duplicate(&self) -> (r: ScriptureCitation)
        ensures
            r@ == self@,
    {
        ScriptureCitation {
            book: self.book.clone(),
            start_chap: self.start_chap,
            start_verse: self.start_verse,
            end_chap: self.end_chap,
            end_verse: self.end_verse,
        }
    }

    /// The citation as shown to a reader, e.g. `"2 Samuel 4: 3 - 4: 4"`.
    pub fn display_text(&self) -> (r: String)
        ensures
            r@ == display_of(self@),
    {
        let mut s = self.book.clone();
        let space = vec![' '];
        let colon = vec![':', ' '];
        let dash = vec![' ', '-', ' '];
        push_number(&mut s, &space, self.start_chap);
        push_number(&mut s, &colon, self.start_verse);
        push_number(&mut s, &dash, self.end_chap);
        push_number(&mut s, &colon, self.end_verse);
        s
    }
}

/// The states of the citation state machine: what the previous token was.
#[derive(PartialEq, Eq, Structural, Clone, Copy, Debug)]
pub enum Address {
    Book,
    Chapter,
    Verse,
    ChapterRange,
    Range,
    Addition,
    Divider,
    Error,
}

/// Which part of the current citation a number sets.
#[derive(PartialEq, Eq, Structural, Clone, Copy, Debug)]
pub enum CitationParts {
    StartChap,
    Verse,
    EndChap,
}

/// A range token: hyphen, en dash or em dash.
pub open spec fn is_range_token(t: Seq<char>) -> bool {
    t == seq!['-'] || t == seq!['\u{2013}'] || t == seq!['\u{2014}']
}

/// The verse rule: the first number sets the start verse; a later one sets the
/// end verse, and the end chapter to the start chapter when it is unset.
pub open spec fn with_verse(c: CitationView, n: Option<i16>) -> CitationView {
    if c.start_verse is None {
        CitationView {
            book: c.book,
            start_chap: c.start_chap,
            start_verse: n,
            end_chap: c.end_chap,
            end_verse: c.end_verse,
        }
    } else {
        CitationView {
            book: c.book,
            start_chap: c.start_chap,
            start_verse: c.start_verse,
            end_chap: if c.end_chap is None {
                c.start_chap
            } else {
                c.end_chap
            },
            end_verse: n,
        }
    }
}

/// `c` with the part `part` set from the number `n`.
pub open spec fn updated(c: CitationView, part: CitationParts, n: Option<i16>) -> CitationView {
    match part {
        CitationParts::StartChap => CitationView {
            book: c.book,
            start_chap: n,
            start_verse: c.start_verse,
            end_chap: c.end_chap,
            end_verse: c.end_verse,
        },
        CitationParts::Verse => with_verse(c, n),
        CitationParts::EndChap => CitationView {
            book: c.book,
            start_chap: c.start_chap,
            start_verse: c.start_verse,
            end_chap: n,
            end_verse: c.end_verse,
        },
    }
}

/// What the state machine holds: the book, the dividers, the citation in
/// progress and the citations finished so far.
pub struct ListView {
    pub book: Seq<char>,
    pub dividers: Seq<Seq<char>>,
    pub current: Option<CitationView>,
    pub done: Seq<CitationView>,
}

/// The citation in progress, or a new one of the book when there is none.
pub open spec fn or_fresh(l: ListView) -> CitationView {
    match l.current {
        Some(c) => c,
        None => fresh(l.book, None),
    }
}

/// `l` with `c` as the citation in progress.
pub open spec fn with_current(l: ListView, c: CitationView) -> ListView {
    ListView { book: l.book, dividers: l.dividers, current: Some(c), done: l.done }
}

/// `l` with the dividers `d`.
pub open spec fn with_dividers(l: ListView, d: Seq<Seq<char>>) -> ListView {
    ListView { book: l.book, dividers: d, current: l.current, done: l.done }
}

/// `l` with the finished citations `done`.
pub open spec fn with_done(l: ListView, done: Seq<CitationView>) -> ListView {
    ListView { book: l.book, dividers: l.dividers, current: l.current, done: done }
}

/// The citation in progress with `part` set from the number `n`.
pub open spec fn update_current(l: ListView, part: CitationParts, n: Option<i16>) -> ListView {
    with_current(l, updated(or_fresh(l), part, n))
}

/// The lookahead token is one of the dividers; `None` (the end) is not.
pub open spec fn next_is_divider(l: ListView, next: Option<Seq<char>>) -> bool {
    match next {
        Some(t) => l.dividers.contains(t),
        None => false,
    }
}

/// After a chapter number: a range token opens a chapter range; the first
/// divider seen narrows the dividers to itself; with one divider, another token
/// opens an addition.
pub open spec fn after_chapter(l: ListView, tok: Seq<char>) -> (Address, ListView) {
    if is_range_token(tok) {
        (Address::ChapterRange, l)
    } else if l.dividers.len() == 3 {
        (Address::Divider, with_dividers(l, seq![tok]))
    } else if l.dividers.len() == 1 && !l.dividers.contains(tok) {
        (Address::Addition, l)
    } else if l.dividers.contains(tok) {
        (Address::Divider, l)
    } else {
        (Address::Error, l)
    }
}

/// After a range token: the number is an end chapter when a divider follows or
/// no start verse is set, else a verse.
pub open spec fn after_range(l: ListView, tok: Seq<char>, next: Option<Seq<char>>) -> (Address, ListView) {
    if next_is_divider(l, next) || or_fresh(l).start_verse is None {
        (Address::Chapter, update_current(l, CitationParts::EndChap, number_of(tok)))
    } else {
        (Address::Verse, update_current(l, CitationParts::Verse, number_of(tok)))
    }
}

/// After an addition token: the citation in progress is finished and a new one
/// begun, at the number as chapter when a divider follows, else at the number as
/// verse of the previous end chapter (or start chapter).
pub open spec fn after_addition(l: ListView, tok: Seq<char>, next: Option<Seq<char>>) -> (Address, ListView) {
    let prev = or_fresh(l);
    let pushed = with_done(l, l.done.push(prev));
    if next_is_divider(l, next) {
        (Address::Chapter, with_current(pushed, fresh(l.book, number_of(tok))))
    } else {
        let chapter = if prev.end_chap is Some {
            prev.end_chap
        } else {
            prev.start_chap
        };
        (Address::Verse, with_current(pushed, with_verse(fresh(l.book, chapter), number_of(tok))))
    }
}

/// One transition of the state machine on token `tok` with lookahead `next`.
pub open spec fn step(state: Address, l: ListView, tok: Seq<char>, next: Option<Seq<char>>) -> (Address, ListView) {
    match state {
        Address::Book => (
            Address::Chapter,
            update_current(l, CitationParts::StartChap, number_of(tok)),
        ),
        Address::Chapter => after_chapter(l, tok),
        Address::ChapterRange => (
            Address::Chapter,
            update_current(l, CitationParts::EndChap, number_of(tok)),
        ),
        Address::Divider => (Address::Verse, update_current(l, CitationParts::Verse, number_of(tok))),
        Address::Verse => if is_range_token(tok) {
            (Address::Range, l)
        } else {
            (Address::Addition, l)
        },
        Address::Range => after_range(l, tok, next),
        Address::Addition => after_addition(l, tok, next),
        Address::Error => (Address::Error, l),
    }
}

/// The token after position `i`, if any.
pub open spec fn lookahead(toks: Seq<Seq<char>>, i: int) -> Option<Seq<char>> {
    if i + 1 < toks.len() {
        Some(toks[i + 1])
    } else {
        None
    }
}

/// The state machine run over `toks` from position `i`.
pub open spec fn walk(state: Address, l: ListView, toks: Seq<Seq<char>>, i: int) -> ListView
    decreases toks.len() - i,
{
    if i >= toks.len() {
        l
    } else {
        let (s2, l2) = step(state, l, toks[i], lookahead(toks, i));
        walk(s2, l2, toks, i + 1)
    }
}

/// After the last token the citation in progress, if any, is finished too.
pub open spec fn finished(l: ListView) -> ListView {
    match l.current {
        Some(c) => with_done(l, l.done.push(c)),
        None => l,
    }
}

/// The normalised book query of a citation and its leading number.
pub open spec fn book_query(text: Seq<char>) -> (Option<i16>, Seq<char>) {
    split_leading(without_periods(text.take(book_abbr_end(text)->0)))
}

/// The address part of a citation, after its book abbreviation.
pub open spec fn address_of(text: Seq<char>) -> Seq<char> {
    text.skip(book_abbr_end(text)->0)
}

/// The book of a citation resolves in `library` to at least one canonical name.
pub open spec fn book_resolves(library: Library, text: Seq<char>) -> bool {
    book_abbr_end(text) is Some && exists|s: Seq<char>|
        library.resolves(book_query(text).1, book_query(text).0, s)
}

/// The dividers before any has been seen: colon, period and comma.
pub open spec fn initial_dividers() -> Seq<Seq<char>> {
    seq![seq![':'], seq!['.'], seq![',']]
}

/// The state machine of a fresh list for `book`.
pub open spec fn initial_list(book: Seq<char>) -> ListView {
    ListView { book: book, dividers: initial_dividers(), current: None, done: Seq::empty() }
}

/// `out` is what parsing `text` against `library` gives: nothing when the book
/// does not resolve, else the citations of the machine run over the address for
/// one of the canonical names it resolves to.
pub open spec fn parses_to(library: Library, text: Seq<char>, out: Seq<CitationView>) -> bool {
    if book_resolves(library, text) {
        exists|b: Seq<char>|
            library.resolves(book_query(text).1, book_query(text).0, b) && out == finished(
                walk(Address::Book, initial_list(b), tokenize(address_of(text)), 0),
            ).done
    } else {
        out == Seq::<CitationView>::empty()
    }
}

/// The state of parsing one citation text: the resolved book, the dividers in
/// force, the citation in progress and the finished citations.
pub struct CitationList {
    pub book: Option<String>,
    pub dividers: Vec<String>,
    pub curr_citation: Option<ScriptureCitation>,
    pub scrip_vec: Vec<ScriptureCitation>,
}

impl View for CitationList {
    type V = ListView;

    open spec fn view(&self) -> ListView {
        ListView {
            book: match self.book {
                Some(b) => b@,
                None => Seq::empty(),
            },
            dividers: string_views(self.dividers@),
            current: match self.curr_citation {
                Some(c) => Some(c@),
                None => None,
            },
            done: citation_views(self.scrip_vec@),
        }
    }
}

fn is_range_string(t: &String) -> (r: bool)
    ensures
        r == is_range_token(t@),
{
    let v = chars_of(t.as_str());
    if v.len() != 1 {
        return false;
    }
    let c = v[0];
    assert(v@ =~= seq![c]);
    c == '-' || c == '\u{2013}' || c == '\u{2014}'
}

fn next_divider(dividers: &Vec<String>, next: Option<&String>) -> (r: bool)
    ensures
        r == match next {
            Some(t) => string_views(dividers@).contains(t@),
            None => false,
        },
{
    match next {
        Some(t) => contains_string(dividers, t),
        None => false,
    }
}

impl CitationList {
    /// A list with no book, the initial dividers, and no citations.
    pub fn new() -> (r: CitationList)
        ensures
            r.book is None,
            r@ == initial_list(Seq::empty()),
    {
        let mut dividers: Vec<String> = Vec::new();
        dividers.push(String::from_str(":"));
        dividers.push(String::from_str("."));
        dividers.push(String::from_str(","));
        proof {
            reveal_strlit(":");
            reveal_strlit(".");
            reveal_strlit(",");
            assert(":"@ =~= seq![':']);
            assert("."@ =~= seq!['.']);
            assert(","@ =~= seq![',']);
            assert(string_views(dividers@) =~= initial_dividers());
        }
        let r = CitationList {
            book: None,
            dividers: dividers,
            curr_citation: None,
            scrip_vec: Vec::new(),
        };
        assert(citation_views(r.scrip_vec@) =~= Seq::<CitationView>::empty());
        r
    }

    fn current_or_fresh(&self) -> (r: ScriptureCitation)
        ensures
            r@ == or_fresh(self@),
    {
        match &self.curr_citation {
            Some(c) => c.duplicate(),
            None => match &self.book {
                Some(b) => ScriptureCitation::new(b, None),
                None => ScriptureCitation::new(&String::new(), None),
            },
        }
    }

    /// Which state follows a chapter number, given the token after it.
    fn chapter_previous(&mut self, element: &String) -> (r: Address)
        ensures
            (r, final(self)@) == after_chapter(old(self)@, element@),
            final(self).book == old(self).book,
    {
        if is_range_string(element) {
            return Address::ChapterRange;
        }
        if self.dividers.len() == 3 {
            let mut narrowed: Vec<String> = Vec::new();
            narrowed.push(element.clone());
            self.dividers = narrowed;
            assert(string_views(self.dividers@) =~= seq![element@]);
            return Address::Divider;
        }
        let inside = contains_string(&self.dividers, element);
        if self.dividers.len() == 1 && !inside {
            return Address::Addition;
        }
        if inside {
            return Address::Divider;
        }
        Address::Error
    }

    /// Sets a part of the citation in progress (a new one when there is none)
    /// from the number that `element` reads as.
    fn update_curr_citation(&mut self, citation_part: CitationParts, element: &String)
        ensures
            final(self)@ == update_current(old(self)@, citation_part, number_of(element@)),
            final(self).book == old(self).book,
    {
        let mut citation = self.current_or_fresh();
        let num = convert_str_to_address_num(element);
        match citation_part {
            CitationParts::StartChap => {
                citation.start_chap = num;
            },
            CitationParts::Verse => {
                if citation.start_verse.is_none() {
                    citation.start_verse = num;
                } else {
                    if citation.end_chap.is_none() {
                        citation.end_chap = citation.start_chap;
                    }
                    citation.end_verse = num;
                }
            },
            CitationParts::EndChap => {
                citation.end_chap = num;
            },
        }
        self.curr_citation = Some(citation);
    }

    /// A number after a range token: an end chapter or an end verse.
    fn handeling_ranges(&mut self, next_element: Option<&String>, curr_element: &String) -> (r: Address)
        ensures
            (r, final(self)@) == after_range(
                old(self)@,
                curr_element@,
                match next_element {
                    Some(t) => Some(t@),
                    None => None,
                },
            ),
            final(self).book == old(self).book,
    {
        let curr = self.current_or_fresh();
        if next_divider(&self.dividers, next_element) || curr.start_verse.is_none() {
            self.update_curr_citation(CitationParts::EndChap, curr_element);
            return Address::Chapter;
        }
        self.update_curr_citation(CitationParts::Verse, curr_element);
        Address::Verse
    }

    /// A number after an addition token: finishes the citation in progress and
    /// begins the next one.
    fn handeling_additions(&mut self, next_element: Option<&String>, curr_element: &String) -> (r: Address)
        ensures
            (r, final(self)@) == after_addition(
                old(self)@,
                curr_element@,
                match next_element {
                    Some(t) => Some(t@),
                    None => None,
                },
            ),
            final(self).book == old(self).book,
    {
        let prev_citation = self.current_or_fresh();
        let ghost old_done = citation_views(self.scrip_vec@);
        let is_divider = next_divider(&self.dividers, next_element);
        let chapter = if prev_citation.end_chap.is_none() {
            prev_citation.start_chap
        } else {
            prev_citation.end_chap
        };
        self.scrip_vec.push(prev_citation);
        assert(citation_views(self.scrip_vec@) =~= old_done.push(or_fresh(old(self)@)));
        let book = match &self.book {
            Some(b) => b.clone(),
            None => String::new(),
        };
        let num = convert_str_to_address_num(curr_element);
        if is_divider {
            self.curr_citation = Some(ScriptureCitation::new(&book, num));
            return Address::Chapter;
        }
        let mut add_citation = ScriptureCitation::new(&book, chapter);
        add_citation.start_verse = num;
        self.curr_citation = Some(add_citation);
        Address::Verse
    }

    /// One transition of the state machine.
    fn advance(&mut self, state: Address, element: &String, next_element: Option<&String>) -> (r: Address)
        ensures
            (r, final(self)@) == step(
                state,
                old(self)@,
                element@,
                match next_element {
                    Some(t) => Some(t@),
                    None => None,
                },
            ),
            final(self).book == old(self).book,
    {
        match state {
            Address::Book => {
                self.update_curr_citation(CitationParts::StartChap, element);
                Address::Chapter
            },
            Address::Chapter => self.chapter_previous(element),
            Address::ChapterRange => {
                self.update_curr_citation(CitationParts::EndChap, element);
                Address::Chapter
            },
            Address::Divider => {
                self.update_curr_citation(CitationParts::Verse, element);
                Address::Verse
            },
            Address::Range => self.handeling_ranges(next_element, element),
            Address::Addition => self.handeling_additions(next_element, element),
            Address::Verse => {
                if is_range_string(element) {
                    Address::Range
                } else {
                    Address::Addition
                }
            },
            Address::Error => Address::Error,
        }
    }

    /// Parses one citation text: resolves its book abbreviation in `library`
    /// and runs the state machine over the tokens of its address, starting from
    /// this list's dividers and citations, then finishes the citation in
    /// progress. When the book does not resolve, the citations are cleared and
    /// nothing else changes. When it resolves to several canonical names, one
    /// of them is used (the first that `Library::match_book` lists).
    pub fn insert(&mut self, scripture_string: &str, library: &Library)
        requires
            library.wf(),
        ensures
            !book_resolves(*library, scripture_string@) ==> final(self)@ == with_done(
                old(self)@,
                Seq::empty(),
            ) && final(self).book == old(self).book,
            book_resolves(*library, scripture_string@) ==> (final(self).book matches Some(b)
                && library.resolves(
                book_query(scripture_string@).1,
                book_query(scripture_string@).0,
                b@,
            ) && final(self)@ == finished(
                walk(
                    Address::Book,
                    ListView {
                        book: b@,
                        dividers: old(self)@.dividers,
                        current: old(self)@.current,
                        done: old(self)@.done,
                    },
                    tokenize(address_of(scripture_string@)),
                    0,
                ),
            )),
    {
        let v = chars_of(scripture_string);
        if book_abbr_end_exec(&v).is_none() {
            self.scrip_vec = Vec::new();
            assert(citation_views(self.scrip_vec@) =~= Seq::<CitationView>::empty());
            return;
        }
        let (book_name, cit_address) = cleaned_book_abbr(scripture_string);
        let scripture_books = library.match_book(book_name.as_str());
        if scripture_books.len() == 0 {
            assert forall|s: Seq<char>|
                !library.resolves(
                    book_query(scripture_string@).1,
                    book_query(scripture_string@).0,
                    s,
                ) by {
                if library.resolves(book_query(scripture_string@).1, book_query(scripture_string@).0, s) {
                    assert(string_views(scripture_books@).contains(s));
                }
            }
            self.scrip_vec = Vec::new();
            assert(citation_views(self.scrip_vec@) =~= Seq::<CitationView>::empty());
            return;
        }
        let book = scripture_books[0].clone();
        assert(string_views(scripture_books@)[0] == book@);
        assert(string_views(scripture_books@).contains(book@));
        assert(library.resolves(book_query(scripture_string@).1, book_query(scripture_string@).0, book@));
        assert(book_resolves(*library, scripture_string@));
        self.book = Some(book);
        let address_vec = split_keep(cit_address.as_str());
        let ghost toks = string_views(address_vec@);
        let ghost start = self@;
        let mut prev_element = Address::Book;
        let mut num: usize = 0;
        while num < address_vec.len()
            invariant
                toks == string_views(address_vec@),
                num <= address_vec@.len(),
                self.book == Some(book),
                walk(prev_element, self@, toks, num as int) == walk(Address::Book, start, toks, 0),
            decreases address_vec@.len() - num,
        {
            let next_element = if num + 1 < address_vec.len() {
                Some(&address_vec[num + 1])
            } else {
                None
            };
            assert(toks[num as int] == address_vec@[num as int]@);
            if num + 1 < address_vec.len() {
                assert(toks[num + 1] == address_vec@[num + 1]@);
            }
            prev_element = self.advance(prev_element, &address_vec[num], next_element);
            num = num + 1;
        }
        let ghost before = self@;
        assert(before == walk(Address::Book, start, toks, 0));
        assert(toks == tokenize(address_of(scripture_string@)));
        match &self.curr_citation {
            Some(c) => {
                let last = c.duplicate();
                self.scrip_vec.push(last);
                assert(citation_views(self.scrip_vec@) =~= before.done.push(last@));
            },
            None => {},
        }
    }
}

/// Parses one citation text against `library` into its structured citations.
pub fn parse(scripture_string: &str, library: &Library) -> (r: Vec<ScriptureCitation>)
    requires
        library.wf(),
    ensures
        parses_to(*library, scripture_string@, citation_views(r@)),
{
    let mut scriptures = CitationList::new();
    scriptures.insert(scripture_string, library);
    scriptures.scrip_vec
}

/// Finds the candidate citations in a text and parses each against `library`:
/// one list of citations per candidate, in order.
pub fn parse_text(text: &str, library: &Library) -> (r: Vec<Vec<ScriptureCitation>>)
    requires
        library.wf(),
    ensures
        r@.len() == candidates_in(text@).len(),
        forall|i: int|
            0 <= i < r@.len() ==> parses_to(
                *library,
                candidates_in(text@)[i],
                citation_views(#[trigger] r@[i]@),
            ),
{
    let candidates = find_scripture_in_text(text);
    let mut all: Vec<Vec<ScriptureCitation>> = Vec::new();
    let mut i: usize = 0;
    while i < candidates.len()
        invariant
            library.wf(),
            string_views(candidates@) == candidates_in(text@),
            i <= candidates@.len(),
            all@.len() == i,
            forall|j: int|
                0 <= j < i ==> parses_to(
                    *library,
                    candidates_in(text@)[j],
                    citation_views(#[trigger] all@[j]@),
                ),
        decreases candidates@.len() - i,
    {
        assert(string_views(candidates@)[i as int] == candidates@[i as int]@);
        let found = parse(candidates[i].as_str(), library);
        all.push(found);
        i = i + 1;
    }
    all
}

/// When the book of a citation resolves to exactly one canonical name, parsing
/// it gives one result: the forward parse is deterministic for a fixed catalog.
pub proof fn lemma_parse_deterministic(
    library: Library,
    text: Seq<char>,
    name: Seq<char>,
    out1: Seq<CitationView>,
    out2: Seq<CitationView>,
)
    requires
        forall|s: Seq<char>|
            library.resolves(book_query(text).1, book_query(text).0, s) <==> s == name,
        parses_to(library, text, out1),
        parses_to(library, text, out2),
    ensures
        out1 == out2,
{
}

} // verus!
