//! The book catalog: normalised book names, abbreviation matching and the
//! library that resolves a free-text abbreviation to canonical names.

use std::collections::HashMap;
use vstd::prelude::*;
use crate::roman_numerals::roman_value_of;
use crate::text::{
    chars_of, is_digit, lemma_run_len, lowercase, lowercase_of, parse_i16, parsed_i16, run_len,
    string_of, string_views, trim, trim_range, contains_string,
};

verus! {

broadcast use {vstd::std_specs::hash::group_hash_axioms, vstd::utf8::char_u32_cast};

/// A letter that may spell a leading roman book number.
pub open spec fn is_iv(c: char) -> bool {
    c == 'i' || c == 'v' || c == 'I' || c == 'V'
}

/// Number of ASCII digits at the front of `s`.
pub open spec fn digit_run(s: Seq<char>) -> int {
    run_len(s, |c: char| is_digit(c))
}

/// Number of letters among `ivIV` at the front of `s`.
pub open spec fn iv_run(s: Seq<char>) -> int {
    run_len(s, |c: char| is_iv(c))
}

/// A roman leading number: letters among `ivIV`, followed by a space.
pub open spec fn has_roman_prefix(s: Seq<char>) -> bool {
    digit_run(s) == 0 && iv_run(s) > 0 && iv_run(s) < s.len() && s[iv_run(s)] == ' '
}

/// Where the leading number of a book name ends, its space included; 0 when there is
/// none. A leading number is one or more ASCII digits with an optional space, or
/// letters among `ivIV` followed by a space.
pub open spec fn numeral_prefix_end(s: Seq<char>) -> int {
    let d = digit_run(s);
    if d > 0 {
        if d < s.len() && s[d] == ' ' {
            d + 1
        } else {
            d
        }
    } else if has_roman_prefix(s) {
        iv_run(s) + 1
    } else {
        0
    }
}

/// Value of the leading number, when there is one and it fits in an `i16`.
pub open spec fn numeral_prefix_value(s: Seq<char>) -> Option<i16> {
    if digit_run(s) > 0 {
        parsed_i16(s.take(digit_run(s)))
    } else if has_roman_prefix(s) {
        roman_value_of(s.take(iv_run(s)))
    } else {
        None
    }
}

/// A book name split into its leading number and the rest, lowercased and trimmed.
/// Without a (representable) leading number the whole name is normalised.
pub open spec fn split_leading(s: Seq<char>) -> (Option<i16>, Seq<char>) {
    match numeral_prefix_value(s) {
        Some(v) => (Some(v), trim(lowercase_of(s.skip(numeral_prefix_end(s))))),
        None => (None, lowercase_of(trim(s))),
    }
}

fn digit_run_exec(v: &Vec<char>) -> (r: usize)
    ensures
        r == digit_run(v@),
        r <= v@.len(),
{
    let mut i: usize = 0;
    while i < v.len() && '0' as u32 <= v[i] as u32 && v[i] as u32 <= '9' as u32
        invariant
            i <= v@.len(),
            forall|j: int| 0 <= j < i ==> is_digit(#[trigger] v@[j]),
        decreases v@.len() - i,
    {
        i = i + 1;
    }
    proof {
        lemma_run_len(v@, |c: char| is_digit(c), i as int);
    }
    i
}

fn iv_run_exec(v: &Vec<char>) -> (r: usize)
    ensures
        r == iv_run(v@),
        r <= v@.len(),
{
    let mut i: usize = 0;
    while i < v.len() && (v[i] == 'i' || v[i] == 'v' || v[i] == 'I' || v[i] == 'V')
        invariant
            i <= v@.len(),
            forall|j: int| 0 <= j < i ==> is_iv(#[trigger] v@[j]),
        decreases v@.len() - i,
    {
        i = i + 1;
    }
    proof {
        lemma_run_len(v@, |c: char| is_iv(c), i as int);
    }
    i
}

/// Splits a book name into its leading number and the normalised rest
/// (lowercased, trimmed): `"ii Samuel"` gives `(Some(2), "samuel")`.
pub fn book_split(book_name: &str) -> (r: (Option<i16>, String))
    ensures
        r.0 == split_leading(book_name@).0,
        r.1@ == split_leading(book_name@).1,
{
    let v = chars_of(book_name);
    let n = v.len();
    let d = digit_run_exec(&v);
    let value: Option<i16>;
    let end: usize;
    if d > 0 {
        value = parse_i16(book_name.substring_char(0, d));
        end = if d < n && v[d] == ' ' {
            d + 1
        } else {
            d
        };
    } else {
        let r = iv_run_exec(&v);
        if r > 0 && r < n && v[r] == ' ' {
            value = crate::roman_numerals::roman_value(book_name.substring_char(0, r));
            end = r + 1;
        } else {
            value = None;
            end = 0;
        }
    }
    proof {
        assert(v@.take(d as int) =~= v@.subrange(0, d as int));
        assert(v@.take(iv_run(v@)) =~= v@.subrange(0, iv_run(v@)));
    }
    match value {
        Some(x) => {
            let lowered = lowercase(book_name.substring_char(end, n));
            assert(v@.skip(end as int) =~= v@.subrange(end as int, n as int));
            let w = chars_of(lowered.as_str());
            let (a, b) = trim_range(&w, 0, w.len());
            assert(w@.subrange(0, w@.len() as int) =~= w@);
            (Some(x), string_of(&w, a, b))
        },
        None => {
            let (a, b) = trim_range(&v, 0, n);
            assert(v@.subrange(0, n as int) =~= v@);
            (None, lowercase(book_name.substring_char(a, b)))
        },
    }
}

/// Positions at which `c` occurs in `s`, in increasing order.
pub open spec fn occurrences(s: Seq<char>, c: char) -> Seq<usize>
    decreases s.len(),
{
    if s.len() == 0 {
        seq![]
    } else {
        let prev = occurrences(s.drop_last(), c);
        if s.last() == c {
            prev.push((s.len() - 1) as usize)
        } else {
            prev
        }
    }
}

/// Every position in `s` is at least `bound`.
pub open spec fn all_at_least(s: Seq<usize>, bound: int) -> bool {
    forall|j: int| 0 <= j < s.len() ==> #[trigger] s[j] as int >= bound
}

/// The letter walk of abbreviation matching: each character of `q` must occur in
/// `name`, with all its occurrences at or after the cursor `last`, which then
/// moves to its last occurrence.
pub open spec fn letter_walk(name: Seq<char>, q: Seq<char>, last: int) -> bool
    decreases q.len(),
{
    if q.len() == 0 {
        true
    } else {
        let occ = occurrences(name, q[0]);
        occ.len() > 0 && all_at_least(occ, last) && letter_walk(
            name,
            q.drop_first(),
            occ.last() as int,
        )
    }
}

/// Whether the normalised query `q` with leading number `qnum` abbreviates the book
/// name `name` with leading number `num`: the numbers agree, and `q` is a prefix of
/// `name` or passes the letter walk.
pub open spec fn abbreviates(name: Seq<char>, num: Option<i16>, q: Seq<char>, qnum: Option<i16>) -> bool {
    qnum == num && (q.is_prefix_of(name) || letter_walk(name, q, 0))
}

/// A catalog entry: one accepted spelling of a book, normalised, with the index of
/// where each character occurs in it.
pub struct Book {
    pub num: Option<i16>,
    pub sort_on: Option<char>,
    pub name: String,
    pub canonical_name: String,
    pub idx: HashMap<u32, Vec<usize>>,
}

/// What a catalog entry says, without its index.
pub struct BookView {
    pub num: Option<i16>,
    pub name: Seq<char>,
    pub canonical: Seq<char>,
}

/// The entry that `Book::new(spelling, canonical)` builds.
pub open spec fn book_view_of(spelling: Seq<char>, canonical: Seq<char>) -> BookView {
    BookView {
        num: split_leading(spelling).0,
        name: split_leading(spelling).1,
        canonical: canonical,
    }
}

impl View for Book {
    type V = BookView;

    open spec fn view(&self) -> BookView {
        BookView { num: self.num, name: self.name@, canonical: self.canonical_name@ }
    }
}

/// The key under which a character is indexed: its scalar value.
pub open spec fn key_of(c: char) -> u32 {
    c as u32
}

fn char_key(c: char) -> (r: u32)
    ensures
        r == key_of(c),
{
    c as u32
}

/// Distinct characters have distinct keys.
proof fn lemma_key_injective(c: char, d: char)
    requires
        c != d,
    ensures
        key_of(c) != key_of(d),
{
}

proof fn lemma_occurrences(s: Seq<char>, c: char)
    requires
        s.len() <= usize::MAX,
    ensures
        forall|j: int|
            0 <= j < occurrences(s, c).len() ==> (#[trigger] occurrences(s, c)[j] as int) < s.len()
                && s[occurrences(s, c)[j] as int] == c,
        forall|j: int, k: int|
            0 <= j < k < occurrences(s, c).len() ==> #[trigger] occurrences(s, c)[j]
                < #[trigger] occurrences(s, c)[k],
        s.contains(c) <==> occurrences(s, c).len() > 0,
    decreases s.len(),
{
    if s.len() > 0 {
        let p = s.drop_last();
        lemma_occurrences(p, c);
        let prev = occurrences(p, c);
        let occ = occurrences(s, c);
        assert forall|j: int| 0 <= j < prev.len() implies (#[trigger] prev[j] as int) < s.len() - 1
            && s[prev[j] as int] == c by {
            assert(p[prev[j] as int] == s[prev[j] as int]);
        }
        if s.last() == c {
            assert(occ == prev.push((s.len() - 1) as usize));
            assert forall|j: int| 0 <= j < occ.len() implies (#[trigger] occ[j] as int) < s.len()
                && s[occ[j] as int] == c by {
                if j < prev.len() {
                    assert(occ[j] == prev[j]);
                }
            }
            assert forall|j: int, k: int| 0 <= j < k < occ.len() implies #[trigger] occ[j]
                < #[trigger] occ[k] by {
                assert(occ[j] == prev[j]);
                if k < prev.len() {
                    assert(occ[k] == prev[k]);
                }
            }
        } else {
            assert(occ == prev);
            if s.contains(c) {
                let i = choose|i: int| 0 <= i < s.len() && s[i] == c;
                assert(p[i] == c);
            }
        }
        if occ.len() > 0 {
            assert(s[occ[0] as int] == c);
        }
    }
}

impl Book {
    /// The index agrees with the name, and `sort_on` is the name's first character.
    pub open spec fn wf(&self) -> bool {
        &&& self.sort_on == (if self.name@.len() > 0 {
            Some(self.name@[0])
        } else {
            None::<char>
        })
        &&& forall|c: char| #[trigger] self.idx@.contains_key(key_of(c)) <==> self.name@.contains(c)
        &&& forall|c: char|
            self.idx@.contains_key(key_of(c)) ==> #[trigger] self.idx@[key_of(c)]@ == occurrences(
                self.name@,
                c,
            )
    }

    /// Builds the entry for one spelling of the book named `canonical_name`.
    pub fn new(name_str: &str, canonical_name: &str) -> (r: Book)
        ensures
            r.wf(),
            r@ == book_view_of(name_str@, canonical_name@),
    {
        let (num, name) = book_split(name_str);
        let v = chars_of(name.as_str());
        let mut idx: HashMap<u32, Vec<usize>> = HashMap::new();
        let mut i: usize = 0;
        while i < v.len()
            invariant
                i <= v@.len(),
                forall|c: char| #[trigger] idx@.contains_key(key_of(c)) <==> v@.take(i as int).contains(c),
                forall|c: char|
                    idx@.contains_key(key_of(c)) ==> #[trigger] idx@[key_of(c)]@ == occurrences(
                        v@.take(i as int),
                        c,
                    ),
            decreases v@.len() - i,
        {
            let c = v[i];
            let key = char_key(c);
            let ghost m0 = idx@;
            let mut list = match idx.remove(&key) {
                Some(l) => l,
                None => Vec::new(),
            };
            list.push(i);
            idx.insert(key, list);
            proof {
                let t = v@.take(i as int);
                let t2 = v@.take(i + 1);
                assert(t2.drop_last() =~= t);
                assert(t2.last() == c);
                assert(idx@ == m0.remove(key).insert(key, list));
                assert forall|d: char| #[trigger] idx@.contains_key(key_of(d)) <==> t2.contains(d) by {
                    if d == c {
                        assert(t2[i as int] == c);
                    } else {
                        lemma_key_injective(c, d);
                        assert(idx@.contains_key(key_of(d)) == m0.contains_key(key_of(d)));
                        if t.contains(d) {
                            let j = choose|j: int| 0 <= j < t.len() && t[j] == d;
                            assert(t2[j] == d);
                        } else if t2.contains(d) {
                            let j = choose|j: int| 0 <= j < t2.len() && t2[j] == d;
                            assert(t[j] == d);
                        }
                    }
                }
                assert forall|d: char| idx@.contains_key(key_of(d)) implies #[trigger] idx@[key_of(d)]@
                    == occurrences(t2, d) by {
                    if d != c {
                        lemma_key_injective(c, d);
                        assert(m0.contains_key(key_of(d)));
                        assert(idx@[key_of(d)] == m0[key_of(d)]);
                        assert(occurrences(t2, d) == occurrences(t, d));
                    } else {
                        assert(occurrences(t2, d) == occurrences(t, d).push(i));
                        if m0.contains_key(key) {
                            assert(m0[key_of(c)]@ == occurrences(t, c));
                        } else {
                            assert(!t.contains(c));
                            lemma_occurrences(t, c);
                            assert(occurrences(t, c).len() == 0);
                            assert(occurrences(t, c) =~= seq![]);
                        }
                    }
                }
            }
            i = i + 1;
        }
        assert(v@.take(v@.len() as int) =~= v@);
        let sort_on = if v.len() > 0 {
            Some(v[0])
        } else {
            None
        };
        Book {
            num: num,
            sort_on: sort_on,
            name: name,
            canonical_name: String::from_str(canonical_name),
            idx: idx,
        }
    }

    fn ordered_name_match(&self, q: &Vec<char>, name: &Vec<char>) -> (r: bool)
        requires
            name@ == self.name@,
        ensures
            r == q@.is_prefix_of(self.name@),
    {
        if q.len() > name.len() {
            return false;
        }
        let mut i: usize = 0;
        while i < q.len()
            invariant
                name@ == self.name@,
                q@.len() <= name@.len(),
                i <= q@.len(),
                forall|j: int| 0 <= j < i ==> q@[j] == name@[j],
            decreases q@.len() - i,
        {
            if q[i] != name[i] {
                assert(name@.subrange(0, q@.len() as int)[i as int] != q@[i as int]);
                assert(!(q@ =~= name@.subrange(0, q@.len() as int)));
                return false;
            }
            i = i + 1;
        }
        assert(name@.subrange(0, q@.len() as int) =~= q@);
        true
    }

    /// Whether the normalised abbreviation `other_name`, with leading number
    /// `other_num`, names this book.
    pub fn name_match(&self, other_name: &str, other_num: &Option<i16>) -> (r: bool)
        requires
            self.wf(),
        ensures
            r == abbreviates(self.name@, self.num, other_name@, *other_num),
    {
        if *other_num != self.num {
            return false;
        }
        let q = chars_of(other_name);
        let name = chars_of(self.name.as_str());
        if self.ordered_name_match(&q, &name) {
            return true;
        }
        let mut last: usize = 0;
        let mut i: usize = 0;
        assert(q@.skip(0) =~= q@);
        let nlen = name.len();
        while i < q.len()
            invariant
                self.wf(),
                name@ == self.name@,
                nlen == name@.len(),
                !other_name@.is_prefix_of(self.name@),
                *other_num == self.num,
                q@ == other_name@,
                i <= q@.len(),
                letter_walk(self.name@, q@, 0) == letter_walk(self.name@, q@.skip(i as int), last as int),
            decreases q@.len() - i,
        {
            let c = q[i];
            let ghost rest = q@.skip(i as int);
            assert(rest[0] == c);
            assert(rest.drop_first() =~= q@.skip(i + 1));
            proof {
                lemma_occurrences(self.name@, c);
            }
            assert(name@.len() <= usize::MAX);
            let key = char_key(c);
            match self.idx.get(&key) {
                None => {
                    assert(!self.name@.contains(c));
                    return false;
                },
                Some(list) => {
                    let ghost occ = occurrences(self.name@, c);
                    assert(self.idx@.contains_key(key_of(c)));
                    assert(self.idx@[key_of(c)]@ == occ);
                    let ghost last0 = last as int;
                    let mut j: usize = 0;
                    while j < list.len()
                        invariant
                            occ == occurrences(self.name@, c),
                            rest.len() > 0,
                            rest[0] == c,
                            letter_walk(self.name@, q@, 0) == letter_walk(self.name@, rest, last0),
                            q@ == other_name@,
                            !other_name@.is_prefix_of(self.name@),
                            *other_num == self.num,
                            list@ == occ,
                            occ.len() > 0,
                            forall|a: int, b: int| 0 <= a < b < occ.len() ==> #[trigger] occ[a] < #[trigger] occ[b],
                            j <= occ.len(),
                            last == if j == 0 {
                                last0
                            } else {
                                occ[j - 1] as int
                            },
                            forall|k: int| 0 <= k < j ==> #[trigger] occ[k] as int >= last0,
                        decreases occ.len() - j,
                    {
                        if last > list[j] {
                            assert(!all_at_least(occ, last0)) by {
                                if j > 0 {
                                    assert(occ[j - 1] < occ[j as int]);
                                }
                            }
                            assert(!letter_walk(self.name@, rest, last0));
                            return false;
                        }
                        last = list[j];
                        j = j + 1;
                    }
                },
            }
            i = i + 1;
        }
        assert(q@.skip(q@.len() as int) =~= Seq::<char>::empty());
        true
    }
}

/// Among the first `upto` entries of `bucket`, one with canonical name `s` is
/// abbreviated by `q` with number `n`.
pub open spec fn resolves_within(bucket: Seq<Book>, upto: int, q: Seq<char>, n: Option<i16>, s: Seq<char>) -> bool {
    exists|j: int|
        0 <= j < upto && #[trigger] bucket[j].canonical_name@ == s && abbreviates(
            bucket[j].name@,
            bucket[j].num,
            q,
            n,
        )
}

/// An entry with view `bv` is filed under key `k`: its name starts with the
/// character keyed `k`.
pub open spec fn filed_under(bv: BookView, k: u32) -> bool {
    bv.name.len() > 0 && key_of(bv.name[0]) == k
}

/// The entries of `s` that are filed under key `k`, in order.
pub open spec fn filed(s: Seq<BookView>, k: u32) -> Seq<BookView> {
    s.filter(|bv: BookView| filed_under(bv, k))
}

/// The entry for a later field of a catalog line: none when the field is empty.
pub open spec fn spelling_entry(field: Seq<char>, canonical: Seq<char>) -> Seq<BookView> {
    if field.len() == 0 {
        Seq::empty()
    } else {
        seq![book_view_of(field, canonical)]
    }
}

/// Entries for the comma-separated fields of `s` from position `p` on, where the
/// current field began at `start`; each names the book `canonical`.
pub open spec fn spelling_entries(s: Seq<char>, start: int, p: int, canonical: Seq<char>) -> Seq<BookView>
    recommends
        0 <= start <= p <= s.len(),
    decreases s.len() - p,
{
    if p >= s.len() {
        spelling_entry(s.subrange(start, s.len() as int), canonical)
    } else if s[p] == ',' {
        spelling_entry(s.subrange(start, p), canonical) + spelling_entries(
            s,
            p + 1,
            p + 1,
            canonical,
        )
    } else {
        spelling_entries(s, start, p + 1, canonical)
    }
}

/// The entries of one catalog line: its first comma-separated field is the
/// canonical name and gives the first entry; each later non-empty field is
/// another accepted spelling of that book.
pub open spec fn line_entries(line: Seq<char>) -> Seq<BookView> {
    let e = run_len(line, |c: char| c != ',');
    let canonical = line.take(e);
    seq![book_view_of(canonical, canonical)] + if e < line.len() {
        spelling_entries(line, e + 1, e + 1, canonical)
    } else {
        Seq::empty()
    }
}

/// A line ended by a newline, without the carriage return before it.
pub open spec fn without_cr(l: Seq<char>) -> Seq<char> {
    if l.len() > 0 && l.last() == '\r' {
        l.drop_last()
    } else {
        l
    }
}

/// Entries of the catalog lines of `s` from position `p` on, where the current
/// line began at `start`. Lines end at `\n` (a `\r` before it is dropped); text
/// after the last newline is a last line when it is not empty.
pub open spec fn text_entries(s: Seq<char>, start: int, p: int) -> Seq<BookView>
    recommends
        0 <= start <= p <= s.len(),
    decreases s.len() - p,
{
    if p >= s.len() {
        if start < s.len() {
            line_entries(s.subrange(start, s.len() as int))
        } else {
            Seq::empty()
        }
    } else if s[p] == '\n' {
        line_entries(without_cr(s.subrange(start, p))) + text_entries(s, p + 1, p + 1)
    } else {
        text_entries(s, start, p + 1)
    }
}

/// The entries of a whole catalog text, line by line.
pub open spec fn catalog_entries(text: Seq<char>) -> Seq<BookView> {
    text_entries(text, 0, 0)
}

proof fn lemma_filed_push(s: Seq<BookView>, bv: BookView, k: u32)
    ensures
        filed(s.push(bv), k) == filed(s, k) + if filed_under(bv, k) {
            seq![bv]
        } else {
            Seq::empty()
        },
{
    reveal(Seq::filter);
    assert(s.push(bv).drop_last() =~= s);
    if filed_under(bv, k) {
        assert(filed(s.push(bv), k) =~= filed(s, k) + seq![bv]);
    } else {
        assert(filed(s.push(bv), k) =~= filed(s, k) + Seq::<BookView>::empty());
    }
}

/// The catalog: entries grouped by the first character of their normalised name,
/// each group in the order the entries were added.
pub struct Library {
    pub items: HashMap<u32, Vec<Book>>,
}

impl Library {
    /// The entries whose normalised name starts with the character keyed `k`.
    pub open spec fn bucket(&self, k: u32) -> Seq<Book> {
        if self.items@.contains_key(k) {
            self.items@[k]@
        } else {
            Seq::empty()
        }
    }

    /// The views of the entries filed under `k`.
    pub open spec fn bucket_views(&self, k: u32) -> Seq<BookView> {
        self.bucket(k).map_values(|b: Book| b@)
    }

    /// Every entry is well formed and filed under the key of its first character.
    pub open spec fn wf(&self) -> bool {
        forall|k: u32, i: int|
            0 <= i < self.bucket(k).len() ==> (#[trigger] self.bucket(k)[i]).wf()
                && self.bucket(k)[i].sort_on is Some && key_of(self.bucket(k)[i].sort_on->0) == k
    }

    /// The normalised query `q` with number `n` resolves to the canonical name `s`:
    /// some entry filed under the first character of `q` has that canonical name
    /// and is abbreviated by `q`.
    pub open spec fn resolves(&self, q: Seq<char>, n: Option<i16>, s: Seq<char>) -> bool {
        q.len() > 0 && resolves_within(
            self.bucket(key_of(q[0])),
            self.bucket(key_of(q[0])).len() as int,
            q,
            n,
            s,
        )
    }

    /// An empty catalog.
    pub fn new() -> (r: Library)
        ensures
            r.wf(),
            forall|k: u32| #[trigger] r.bucket(k) == Seq::<Book>::empty(),
    {
        Library { items: HashMap::new() }
    }

    /// Files `book` under the first character of its normalised name; an entry
    /// with an empty name is not filed.
    pub fn add(&mut self, book: Book)
        requires
            old(self).wf(),
            book.wf(),
        ensures
            final(self).wf(),
            forall|k: u32|
                #[trigger] final(self).bucket(k) == if book.sort_on is Some && k == key_of(
                    book.sort_on->0,
                ) {
                    old(self).bucket(k).push(book)
                } else {
                    old(self).bucket(k)
                },
    {
        match book.sort_on {
            None => {},
            Some(c) => {
                let key = char_key(c);
                let ghost m0 = self.items@;
                let mut list = match self.items.remove(&key) {
                    Some(l) => l,
                    None => Vec::new(),
                };
                let ghost before = list@;
                assert(before == old(self).bucket(key));
                list.push(book);
                self.items.insert(key, list);
                assert(self.items@ == m0.remove(key).insert(key, list));
                assert forall|k: u32, i: int|
                    0 <= i < self.bucket(k).len() implies (#[trigger] self.bucket(k)[i]).wf()
                        && self.bucket(k)[i].sort_on is Some && key_of(
                        self.bucket(k)[i].sort_on->0,
                    ) == k by {
                    if k == key {
                        assert(self.bucket(k) == before.push(book));
                        if i < before.len() {
                            assert(self.bucket(k)[i] == old(self).bucket(k)[i]);
                        }
                    } else {
                        assert(self.bucket(k) == old(self).bucket(k));
                    }
                }
            },
        }
    }

    fn add_entry(&mut self, book: Book, added: Ghost<Seq<BookView>>, start: Ghost<spec_fn(u32) -> Seq<BookView>>)
        requires
            old(self).wf(),
            book.wf(),
            forall|k: u32| #[trigger] old(self).bucket_views(k) == start@(k) + filed(added@, k),
        ensures
            final(self).wf(),
            forall|k: u32| #[trigger] final(self).bucket_views(k) == start@(k) + filed(added@.push(book@), k),
    {
        let ghost bv = book@;
        self.add(book);
        assert forall|k: u32| #[trigger] self.bucket_views(k) == start@(k) + filed(added@.push(bv), k) by {
            lemma_filed_push(added@, bv, k);
            if filed_under(bv, k) {
                assert(self.bucket_views(k) =~= old(self).bucket_views(k).push(bv));
            } else {
                assert(self.bucket_views(k) =~= old(self).bucket_views(k));
            }
            assert(self.bucket_views(k) =~= start@(k) + filed(added@.push(bv), k));
        }
    }

    /// Adds the entries of one catalog line: the first comma-separated field is
    /// the canonical name, and it and each later non-empty field become entries
    /// for that book, in order.
    pub fn add_line(&mut self, line: &str)
        requires
            old(self).wf(),
        ensures
            final(self).wf(),
            forall|k: u32|
                #[trigger] final(self).bucket_views(k) == old(self).bucket_views(k) + filed(
                    line_entries(line@),
                    k,
                ),
    {
        let v = chars_of(line);
        let n = v.len();
        let ghost start = |k: u32| old(self).bucket_views(k);
        let mut e: usize = 0;
        while e < n && v[e] != ','
            invariant
                e <= n == v@.len(),
                forall|j: int| 0 <= j < e ==> (#[trigger] v@[j]) != ',',
            decreases n - e,
        {
            e = e + 1;
        }
        proof {
            lemma_run_len(v@, |c: char| c != ',', e as int);
        }
        let canonical = string_of(&v, 0, e);
        assert(canonical@ == v@.take(e as int));
        let first = Book::new(canonical.as_str(), canonical.as_str());
        proof {
            reveal(Seq::filter);
            assert forall|k: u32| #[trigger] self.bucket_views(k) == start(k) + filed(Seq::empty(), k) by {
                assert(filed(Seq::<BookView>::empty(), k) =~= Seq::<BookView>::empty());
                assert(self.bucket_views(k) =~= start(k) + Seq::<BookView>::empty());
            }
        }
        self.add_entry(first, Ghost(Seq::empty()), Ghost(start));
        let ghost added: Seq<BookView> = seq![book_view_of(canonical@, canonical@)];
        assert(Seq::<BookView>::empty().push(book_view_of(canonical@, canonical@)) =~= added);
        if e < n {
            let mut field_start: usize = e + 1;
            let mut p: usize = e + 1;
            while p < n
                invariant
                    n == v@.len(),
                    v@ == line@,
                    e < n,
                    canonical@ == v@.take(e as int),
                    e + 1 <= field_start <= p <= n,
                    self.wf(),
                    forall|k: u32| #[trigger] self.bucket_views(k) == start(k) + filed(added, k),
                    added + spelling_entries(v@, field_start as int, p as int, canonical@)
                        == seq![book_view_of(canonical@, canonical@)] + spelling_entries(
                        v@,
                        e + 1,
                        e + 1,
                        canonical@,
                    ),
                decreases n - p,
            {
                if v[p] == ',' {
                    let ghost before = added;
                    if field_start < p {
                        let field = string_of(&v, field_start, p);
                        let b = Book::new(field.as_str(), canonical.as_str());
                        self.add_entry(b, Ghost(added), Ghost(start));
                        proof {
                            added = added.push(book_view_of(field@, canonical@));
                        }
                    }
                    assert(added =~= before + spelling_entry(
                        v@.subrange(field_start as int, p as int),
                        canonical@,
                    ));
                    field_start = p + 1;
                }
                p = p + 1;
            }
            let ghost before = added;
            if field_start < n {
                let field = string_of(&v, field_start, n);
                let b = Book::new(field.as_str(), canonical.as_str());
                self.add_entry(b, Ghost(added), Ghost(start));
                proof {
                    added = added.push(book_view_of(field@, canonical@));
                }
            }
            assert(added =~= before + spelling_entry(
                v@.subrange(field_start as int, n as int),
                canonical@,
            ));
            assert(added =~= line_entries(line@));
        } else {
            assert(added =~= line_entries(line@));
        }
    }

    /// The catalog of a text of lines, each line as `add_line` reads it.
    pub fn create(contents: &str) -> (r: Library)
        ensures
            r.wf(),
            forall|k: u32| #[trigger] r.bucket_views(k) == filed(catalog_entries(contents@), k),
    {
        let mut library = Library::new();
        let v = chars_of(contents);
        let n = v.len();
        let mut start: usize = 0;
        let mut p: usize = 0;
        let ghost mut added: Seq<BookView> = Seq::empty();
        proof {
            reveal(Seq::filter);
            assert forall|k: u32| #[trigger] library.bucket_views(k) == filed(added, k) by {
                assert(library.bucket_views(k) =~= filed(added, k));
            }
        }
        while p < n
            invariant
                n == v@.len(),
                v@ == contents@,
                start <= p <= n,
                library.wf(),
                forall|k: u32| #[trigger] library.bucket_views(k) == filed(added, k),
                added + text_entries(v@, start as int, p as int) == catalog_entries(v@),
            decreases n - p,
        {
            if v[p] == '\n' {
                let end = if p > start && v[p - 1] == '\r' {
                    p - 1
                } else {
                    p
                };
                let line = string_of(&v, start, end);
                assert(line@ == without_cr(v@.subrange(start as int, p as int))) by {
                    if p > start && v@[p - 1] == '\r' {
                        assert(v@.subrange(start as int, p as int).drop_last() =~= line@);
                    }
                }
                let ghost before = added;
                library.add_line(line.as_str());
                proof {
                    added = added + line_entries(line@);
                    assert forall|k: u32| #[trigger] library.bucket_views(k) == filed(added, k) by {
                        Seq::filter_distributes_over_add(before, line_entries(line@), |bv: BookView| filed_under(bv, k));
                    }
                    assert(added + text_entries(v@, p + 1, p + 1) =~= before + text_entries(v@, start as int, p as int));
                }
                start = p + 1;
            }
            p = p + 1;
        }
        if start < n {
            let line = string_of(&v, start, n);
            let ghost before = added;
            library.add_line(line.as_str());
            proof {
                added = added + line_entries(line@);
                assert forall|k: u32| #[trigger] library.bucket_views(k) == filed(added, k) by {
                    Seq::filter_distributes_over_add(before, line_entries(line@), |bv: BookView| filed_under(bv, k));
                }
            }
            assert(added =~= catalog_entries(v@));
        } else {
            assert(added =~= catalog_entries(v@));
        }
        library
    }

    /// The canonical names of the entries that `book_to_match` abbreviates, each
    /// once, in catalog order. The query is split and normalised as a book name is,
    /// and only entries filed under its first character are tried; an empty query
    /// resolves to nothing.
    pub fn match_book(&self, book_to_match: &str) -> (r: Vec<String>)
        requires
            self.wf(),
        ensures
            string_views(r@).no_duplicates(),
            forall|s: Seq<char>|
                string_views(r@).contains(s) <==> self.resolves(
                    split_leading(book_to_match@).1,
                    split_leading(book_to_match@).0,
                    s,
                ),
    {
        let (num, other) = book_split(book_to_match);
        let mut found: Vec<String> = Vec::new();
        let q = chars_of(other.as_str());
        if q.len() == 0 {
            assert(string_views(found@) =~= Seq::<Seq<char>>::empty());
            return found;
        }
        let key = char_key(q[0]);
        match self.items.get(&key) {
            None => {
                assert(string_views(found@) =~= Seq::<Seq<char>>::empty());
                assert(self.bucket(key) =~= Seq::<Book>::empty());
                found
            },
            Some(bucket) => {
                assert(bucket@ == self.bucket(key));
                let mut i: usize = 0;
                assert(string_views(found@) =~= Seq::<Seq<char>>::empty());
                while i < bucket.len()
                    invariant
                        bucket@ == self.bucket(key),
                        key == key_of(q@[0]),
                        q@ == other@,
                        self.wf(),
                        i <= bucket@.len(),
                        string_views(found@).no_duplicates(),
                        forall|s: Seq<char>|
                            string_views(found@).contains(s) <==> resolves_within(
                                bucket@,
                                i as int,
                                other@,
                                num,
                                s,
                            ),
                    decreases bucket@.len() - i,
                {
                    let b = &bucket[i];
                    assert(b.wf());
                    let ghost old_found = string_views(found@);
                    if b.name_match(other.as_str(), &num) && !contains_string(
                        &found,
                        &b.canonical_name,
                    ) {
                        found.push(b.canonical_name.clone());
                        assert(string_views(found@) =~= old_found.push(b.canonical_name@));
                        assert forall|x: int, y: int|
                            0 <= x < y < string_views(found@).len() implies string_views(found@)[x]
                            != string_views(found@)[y] by {
                            if y == old_found.len() {
                                assert(old_found[x] == string_views(found@)[x]);
                            }
                        }
                    }
                    assert forall|s: Seq<char>|
                        string_views(found@).contains(s) <==> resolves_within(
                            bucket@,
                            i + 1,
                            other@,
                            num,
                            s,
                        ) by {
                        if resolves_within(bucket@, i + 1, other@, num, s) && !resolves_within(
                            bucket@,
                            i as int,
                            other@,
                            num,
                            s,
                        ) {
                            let j = choose|j: int|
                                0 <= j < i + 1 && #[trigger] bucket@[j].canonical_name@ == s
                                    && abbreviates(bucket@[j].name@, bucket@[j].num, other@, num);
                            assert(j == i);
                            if string_views(found@) != old_found {
                                assert(string_views(found@)[old_found.len() as int] == s);
                            }
                        }
                        if resolves_within(bucket@, i as int, other@, num, s) {
                            let j = choose|j: int|
                                0 <= j < i && #[trigger] bucket@[j].canonical_name@ == s
                                    && abbreviates(bucket@[j].name@, bucket@[j].num, other@, num);
                            assert(bucket@[j].canonical_name@ == s);
                        }
                        if string_views(found@).contains(s) && !old_found.contains(s) {
                            let j = choose|j: int| 0 <= j < string_views(found@).len() && string_views(found@)[j] == s;
                            if j < old_found.len() {
                                assert(old_found[j] == s);
                            }
                            assert(bucket@[i as int].canonical_name@ == s);
                        }
                        if old_found.contains(s) {
                            let j = choose|j: int| 0 <= j < old_found.len() && old_found[j] == s;
                            assert(string_views(found@)[j] == s);
                        }
                    }
                    i = i + 1;
                }
                found
            },
        }
    }
}

/// Every entry of a catalog is found again from its own normalised name and
/// leading number: the query resolves to the entry's canonical name.
pub proof fn lemma_entry_resolves_to_its_book(library: Library, k: u32, i: int)
    requires
        library.wf(),
        0 <= i < library.bucket(k).len(),
    ensures
        library.resolves(
            library.bucket(k)[i].name@,
            library.bucket(k)[i].num,
            library.bucket(k)[i].canonical_name@,
        ),
{
    let b = library.bucket(k)[i];
    lemma_book_matches_own_name(b);
    assert(b.name@.len() > 0);
    assert(key_of(b.name@[0]) == k);
}

/// A book always matches its own full normalised name with its own leading
/// number: the name is a prefix of itself.
pub proof fn lemma_book_matches_own_name(b: Book)
    requires
        b.wf(),
    ensures
        abbreviates(b.name@, b.num, b.name@, b.num),
{
    assert(b.name@.is_prefix_of(b.name@)) by {
        assert(b.name@.take(b.name@.len() as int) =~= b.name@);
    }
}

} // verus!
