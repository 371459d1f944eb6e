//! The broad pattern that locates candidate citations in free text, built
//! from small alternation groups.

use itertools::Itertools;
use vstd::prelude::*;
use crate::text::string_views;

verus! {

/// The parts joined with `sep` between each two.
pub open spec fn join(parts: Seq<Seq<char>>, sep: Seq<char>) -> Seq<char>
    decreases parts.len(),
{
    if parts.len() == 0 {
        Seq::empty()
    } else if parts.len() == 1 {
        parts[0]
    } else {
        join(parts.drop_last(), sep) + sep + parts.last()
    }
}

/// Relies on `Itertools::intersperse`: the items in order with `sep` between each
/// two (collected into one string).
#[verifier::external_body]
fn interspersed(options: Vec<String>, sep: String) -> (r: String)
    ensures
        r@ == join(string_views(options@), sep@),
{
    Itertools::intersperse(options.into_iter(), sep).collect()
}

/// An alternation group: `(a|b|c)`.
pub open spec fn group_of(parts: Seq<Seq<char>>) -> Seq<char> {
    "("@ + join(parts, "|"@) + ")"@
}

/// An optional group: `(a|b|c)?`.
pub open spec fn maybe_of(parts: Seq<Seq<char>>) -> Seq<char> {
    group_of(parts) + "?"@
}

/// A repeated group: `(a|b|c)+`.
pub open spec fn some_of(parts: Seq<Seq<char>>) -> Seq<char> {
    group_of(parts) + "+"@
}

/// The pattern of a chapter or verse number: up to three digits, an optional
/// part letter (`a` to `e`) with an optional Greek sub-part, and an optional
/// "following" mark `f` or `ff`.
pub open spec fn number_pattern() -> Seq<char> {
    "\\d{1,3}"@ + maybe_of(
        seq![group_of(seq!["a"@, "b"@, "c"@, "d"@, "e"@]) + maybe_of(seq!["\u{3b1}"@, "\u{3b2}"@, "\u{3b3}"@, "\u{3b4}"@])],
    ) + "(f{1,2}.?)?"@
}

/// The pattern of a candidate citation: an optional book number, a book word,
/// an address of two numbers (or roman numerals) with a divider, an optional
/// range, and any further separated numbers.
pub open spec fn citation_pattern() -> Seq<char> {
    let cvn = number_pattern();
    let roman = "[ivxlc]+"@;
    let book_num = group_of(
        seq![group_of(seq!["I{1,3}"@, "i{1,3}"@, "\\d{1,3}"@]) + maybe_of(seq!["\\s"@])],
    );
    let address = group_of(seq![cvn, roman]) + "[:,.]"@ + maybe_of(seq![" "@]) + cvn;
    let end_range = group_of(seq!["-"@, "\u{2013}"@]) + cvn + maybe_of(seq!["[:,.]"@, cvn]);
    let additional = some_of(
        seq!["[:,;.\\-]"@ + maybe_of(seq!["\\s"@]) + group_of(seq![cvn, roman])],
    );
    book_num + "?"@ + "\\w+.?"@ + "\\s"@ + address + maybe_of(seq![end_range]) + maybe_of(
        seq![additional],
    )
}

/// Wraps the options in an alternation group: `["a", "b", "c"]` gives `"(a|b|c)"`.
pub fn regroup(options: Vec<String>) -> (r: String)
    ensures
        r@ == group_of(string_views(options@)),
{
    let mut combined_group = String::from_str("(");
    let grouped = interspersed(options, String::from_str("|"));
    combined_group.append(grouped.as_str());
    combined_group.append(")");
    combined_group
}

/// A group builder: an alternation group followed by a fixed suffix.
pub struct Group {
    pub addition: String,
}

impl Group {
    /// The group of `x` followed by the suffix: with suffix `"?"`,
    /// `["a", "b", "c"]` gives `"(a|b|c)?"`.
    pub fn apply(&self, x: Vec<String>) -> (r: String)
        ensures
            r@ == group_of(string_views(x@)) + self.addition@,
    {
        let mut combined_group = regroup(x);
        combined_group.append(self.addition.as_str());
        combined_group
    }
}

/// A group builder with the suffix `addition`.
pub fn create_group(addition: String) -> (r: Group)
    ensures
        r.addition@ == addition@,
{
    Group { addition }
}

proof fn lemma_views(v: Seq<String>)
    ensures
        v.len() == 1 ==> string_views(v) == seq![v[0]@],
        v.len() == 2 ==> string_views(v) == seq![v[0]@, v[1]@],
        v.len() == 3 ==> string_views(v) == seq![v[0]@, v[1]@, v[2]@],
{
    if v.len() == 1 {
        assert(string_views(v) =~= seq![v[0]@]);
    }
    if v.len() == 2 {
        assert(string_views(v) =~= seq![v[0]@, v[1]@]);
    }
    if v.len() == 3 {
        assert(string_views(v) =~= seq![v[0]@, v[1]@, v[2]@]);
    }
}

/// The strings of `old_vec` as owned strings.
pub fn vec_string(old_vec: Vec<&str>) -> (r: Vec<String>)
    ensures
        string_views(r@) == old_vec@.map_values(|s: &str| s@),
{
    let mut new_vec: Vec<String> = Vec::new();
    let mut i: usize = 0;
    while i < old_vec.len()
        invariant
            i <= old_vec@.len(),
            new_vec@.len() == i,
            forall|j: int| 0 <= j < i ==> #[trigger] new_vec@[j]@ == old_vec@[j]@,
        decreases old_vec@.len() - i,
    {
        new_vec.push(String::from_str(old_vec[i]));
        i = i + 1;
    }
    assert(string_views(new_vec@) =~= old_vec@.map_values(|s: &str| s@));
    new_vec
}

/// The pattern of a chapter or verse number.
pub fn number_subparts() -> (r: String)
    ensures
        r@ == number_pattern(),
{
    let maybe = create_group(String::from_str("?"));
    let mut three_digits = String::from_str("\\d{1,3}");
    let verse_parts = vec!["a", "b", "c", "d", "e"];
    let sub_parts = vec!["\u{3b1}", "\u{3b2}", "\u{3b3}", "\u{3b4}"];
    assert(verse_parts@.map_values(|s: &str| s@) =~= seq!["a"@, "b"@, "c"@, "d"@, "e"@]);
    assert(sub_parts@.map_values(|s: &str| s@) =~= seq!["\u{3b1}"@, "\u{3b2}"@, "\u{3b3}"@, "\u{3b4}"@]);
    let mut part_group = regroup(vec_string(verse_parts));
    part_group.append(maybe.apply(vec_string(sub_parts)).as_str());
    let parts = vec![part_group];
    proof {
        lemma_views(parts@);
    }
    three_digits.append(maybe.apply(parts).as_str());
    let range = "(f{1,2}.?)?";
    three_digits.append(range);
    three_digits
}

/// The pattern that locates candidate citations in free text.
pub fn regex_creator() -> (r: String)
    ensures
        r@ == citation_pattern(),
{
    let maybe = create_group(String::from_str("?"));
    let some = create_group(String::from_str("+"));

    let word = String::from_str("\\w+.?");
    let roman_numerals = String::from_str("[ivxlc]+");

    let book_num_roman = String::from_str("I{1,3}");
    let lower_book_num_roman = String::from_str("i{1,3}");
    let three_digits = String::from_str("\\d{1,3}");
    let book_num_vec = vec![book_num_roman, lower_book_num_roman, three_digits.clone()];
    proof {
        lemma_views(book_num_vec@);
    }
    let mut book_num = regroup(book_num_vec);
    let space_class = vec![String::from_str("\\s")];
    proof {
        lemma_views(space_class@);
    }
    book_num.append(maybe.apply(space_class).as_str());
    let book_num_group = vec![book_num];
    proof {
        lemma_views(book_num_group@);
    }
    book_num = regroup(book_num_group);

    let chap_verse_num = number_subparts();
    let number_or_roman = vec![chap_verse_num.clone(), roman_numerals.clone()];
    proof {
        lemma_views(number_or_roman@);
    }
    let mut address = regroup(number_or_roman);
    let seperators = String::from_str("[:,.]");
    address.append(seperators.as_str());
    let space = vec![String::from_str(" ")];
    proof {
        lemma_views(space@);
    }
    address.append(maybe.apply(space).as_str());
    address.append(chap_verse_num.as_str());

    let dashes = vec![String::from_str("-"), String::from_str("\u{2013}")];
    proof {
        lemma_views(dashes@);
    }
    let mut end_range = regroup(dashes);
    end_range.append(chap_verse_num.as_str());
    let range_end = vec![seperators.clone(), chap_verse_num.clone()];
    proof {
        lemma_views(range_end@);
    }
    end_range.append(maybe.apply(range_end).as_str());

    let mut citation = book_num;
    citation.append("?");
    citation.append(word.as_str());
    citation.append("\\s");
    citation.append(address.as_str());
    let end_ranges = vec![end_range];
    proof {
        lemma_views(end_ranges@);
    }
    citation.append(maybe.apply(end_ranges).as_str());

    let mut additional_address = String::from_str("[:,;.\\-]");
    let space_class2 = vec![String::from_str("\\s")];
    proof {
        lemma_views(space_class2@);
    }
    additional_address.append(maybe.apply(space_class2).as_str());
    let number_or_roman2 = vec![chap_verse_num.clone(), roman_numerals.clone()];
    proof {
        lemma_views(number_or_roman2@);
    }
    additional_address.append(regroup(number_or_roman2).as_str());
    let additional = vec![additional_address];
    proof {
        lemma_views(additional@);
    }
    additional_address = some.apply(additional);

    let more = vec![additional_address];
    proof {
        lemma_views(more@);
    }
    citation.append(maybe.apply(more).as_str());
    citation
}

/// Name for what compiling `pattern` and listing its matches in `text` gives:
/// the text of each successive non-overlapping match, leftmost first, or `None`
/// when the pattern does not compile.
pub uninterp spec fn regex_matches_of(pattern: Seq<char>, text: Seq<char>) -> Option<Seq<Seq<char>>>;

/// The texts held by an optional list of strings.
pub open spec fn found_views(r: Option<Vec<String>>) -> Option<Seq<Seq<char>>> {
    match r {
        Some(v) => Some(string_views(v@)),
        None => None,
    }
}

/// Relies on `regex::Regex::new`, which compiles a pattern (failing on bad syntax
/// or a size limit), and on `Regex::find_iter`, which yields the successive
/// non-overlapping matches in the text; each match is taken as its text.
#[verifier::external_body]
fn regex_find_all(pattern: &str, text: &str) -> (r: Option<Vec<String>>)
    ensures
        found_views(r) == regex_matches_of(pattern@, text@),
{
    match regex::Regex::new(pattern) {
        Ok(re) => Some(re.find_iter(text).map(|m| m.as_str().to_string()).collect()),
        Err(_) => None,
    }
}

/// The candidate citations in `text`: the matches of the citation pattern, in
/// order of their position.
pub open spec fn candidates_in(text: Seq<char>) -> Seq<Seq<char>> {
    match regex_matches_of(citation_pattern(), text) {
        Some(m) => m,
        None => Seq::empty(),
    }
}

/// The substrings of `text` that may be citations, in order.
pub fn find_scripture_in_text(text: &str) -> (r: Vec<String>)
    ensures
        string_views(r@) == candidates_in(text@),
{
    let regex_string = regex_creator();
    match regex_find_all(regex_string.as_str(), text) {
        Some(found) => found,
        None => {
            let none: Vec<String> = Vec::new();
            assert(string_views(none@) =~= Seq::<Seq<char>>::empty());
            none
        },
    }
}

} // verus!
