use scripcit::address::{
    cleaned_book_abbr, convert_str_to_address_num, grab_book_abbr, parse, parse_text, split_keep,
    CitationList, ScriptureCitation,
};
use scripcit::book_linking::Library;

fn catalog() -> Library {
    let mut library = Library::new();
    let lines = [
        "Genesis,Gen,Ge,Gn",
        "1 Samuel,1 Sam,I Sam,1Sa",
        "2 Samuel,2 Sam,II Sam,2Sa",
        "1 Corinthians,1 Cor,I Cor",
        "Isaiah,Isa,Is",
        "John,Jn,Jhn",
    ];
    for line in lines.iter() {
        library.add_line(line);
    }
    library
}

fn citation(
    book: &str,
    start_chap: Option<i16>,
    start_verse: Option<i16>,
    end_chap: Option<i16>,
    end_verse: Option<i16>,
) -> ScriptureCitation {
    ScriptureCitation {
        book: String::from(book),
        start_chap,
        start_verse,
        end_chap,
        end_verse,
    }
}

fn same(a: &ScriptureCitation, b: &ScriptureCitation) -> bool {
    a.book == b.book
        && a.start_chap == b.start_chap
        && a.start_verse == b.start_verse
        && a.end_chap == b.end_chap
        && a.end_verse == b.end_verse
}

#[test]
fn retrive_book_match() {
    let scrip_string = "II Sam. iv. 3, 2";
    let mat = grab_book_abbr(scrip_string);
    let book = mat.unwrap();

    assert_eq!(book, String::from("II Sam."));
}

#[test]
fn cleaning_abbr() {
    let scrip_string = "II Sam. iv. 3, 2";
    let (book_name, address) = cleaned_book_abbr(scrip_string);

    assert_eq!((book_name, address), (String::from("II Sam"), String::from(" iv. 3, 2")));
}

#[test]
fn test_address_split() {
    let text = "vi. 1; vii. 3";
    let res_vec = split_keep(text);

    println!("{:?}", res_vec);
    assert_eq!(vec!["vi", ".", "1", ";", "vii", ".", "3"], res_vec);
}

#[test]
fn string_to_num_test() {
    let num: i16 = 4;
    let value = String::from("iv");
    let new_value = convert_str_to_address_num(&value);
    assert_eq!(num, new_value.unwrap());
}

#[test]
fn test_verse_range() {
    let test = "II Sam. iv. 3-4";
    let mut scriptures = CitationList::new();
    let library = catalog();
    scriptures.insert(test, &library);
    let should_value = citation("2 Samuel", Some(4), Some(3), Some(4), Some(4));
    let script = scriptures.scrip_vec[0].clone();
    println!("Should: {:?}", should_value);
    println!("Script: {:?}", script);
    assert_eq!(should_value.book, script.book);
    assert_eq!(should_value.start_chap, script.start_chap);
    assert_eq!(should_value.start_verse, script.start_verse);
    assert_eq!(should_value.end_chap, script.end_chap);
    assert_eq!(should_value.end_verse, script.end_verse);
    assert_eq!(scriptures.scrip_vec.len(), 1);
}

#[test]
fn test_verse_addition() {
    let test = "II Sam. 1:3, 4";
    let mut scriptures = CitationList::new();
    let library = catalog();
    scriptures.insert(test, &library);
    let should_vec = vec![
        citation("2 Samuel", Some(1), Some(3), None, None),
        citation("2 Samuel", Some(1), Some(4), None, None),
    ];
    assert_eq!(should_vec[0].start_chap, scriptures.scrip_vec[0].start_chap);
    assert_eq!(should_vec[0].start_verse, scriptures.scrip_vec[0].start_verse);
    assert_eq!(scriptures.scrip_vec.len(), 2);
    assert!(same(&should_vec[0], &scriptures.scrip_vec[0]));
    assert!(same(&should_vec[1], &scriptures.scrip_vec[1]));
}

#[test]
fn test_isa() {
    let test = "Isa. 3:1";
    let mut scriptures = CitationList::new();
    let library = catalog();
    scriptures.insert(test, &library);
    let should = citation("Isaiah", Some(3), Some(1), None, None);
    println!("{:?}", scriptures.scrip_vec);
    assert_eq!(should.book, scriptures.scrip_vec[0].book);
    assert!(same(&should, &scriptures.scrip_vec[0]));
    assert_eq!(scriptures.scrip_vec.len(), 1);
}

#[test]
fn unresolved_book_gives_no_citations() {
    let library = catalog();
    assert_eq!(parse("Xyz. 3:1", &library).len(), 0);
    assert_eq!(parse(". 3:1", &library).len(), 0);
    assert_eq!(parse("", &library).len(), 0);
    let mut scriptures = CitationList::new();
    scriptures.insert("Isa. 3:1", &library);
    scriptures.insert("Xyz. 3:1", &library);
    assert_eq!(scriptures.scrip_vec.len(), 0);
}

#[test]
fn chapter_only_and_chapter_range() {
    let library = catalog();
    let r = parse("Gen 5", &library);
    assert_eq!(r.len(), 1);
    assert!(same(&r[0], &citation("Genesis", Some(5), None, None, None)));
    let r = parse("Gen 5-7", &library);
    assert_eq!(r.len(), 1);
    assert!(same(&r[0], &citation("Genesis", Some(5), None, Some(7), None)));
}

#[test]
fn cross_chapter_range_keeps_end_chapter() {
    let library = catalog();
    let r = parse("Gen 3:1-4:5", &library);
    assert_eq!(r.len(), 1);
    assert!(same(&r[0], &citation("Genesis", Some(3), Some(1), Some(4), Some(5))));
}

#[test]
fn additions_inherit_chapter_and_start_new_chapters() {
    let library = catalog();
    let r = parse("1 Cor. 4:3, 5, 6-7; 5:1-4", &library);
    assert_eq!(r.len(), 4);
    assert!(same(&r[0], &citation("1 Corinthians", Some(4), Some(3), None, None)));
    assert!(same(&r[1], &citation("1 Corinthians", Some(4), Some(5), None, None)));
    assert!(same(&r[2], &citation("1 Corinthians", Some(4), Some(6), Some(4), Some(7))));
    assert!(same(&r[3], &citation("1 Corinthians", Some(5), Some(1), Some(5), Some(4))));
}

#[test]
fn roman_chapters_with_period_divider() {
    let library = catalog();
    let r = parse("II Sam. vi. 1; vii. 3", &library);
    assert_eq!(r.len(), 2);
    assert!(same(&r[0], &citation("2 Samuel", Some(6), Some(1), None, None)));
    assert!(same(&r[1], &citation("2 Samuel", Some(7), Some(3), None, None)));
}

#[test]
fn parse_is_repeatable() {
    let library = catalog();
    let a = parse("II Sam. iv. 3-4", &library);
    let b = parse("II Sam. iv. 3-4", &library);
    assert_eq!(a.len(), b.len());
    for i in 0..a.len() {
        assert!(same(&a[i], &b[i]));
    }
}

#[test]
fn display_text_shows_set_parts() {
    let c = citation("2 Samuel", Some(4), Some(3), Some(4), Some(4));
    assert_eq!(c.display_text(), "2 Samuel 4: 3 - 4: 4");
    let c = citation("Isaiah", Some(3), Some(1), None, None);
    assert_eq!(c.display_text(), "Isaiah 3: 1");
    let c = citation("Genesis", Some(12), None, None, None);
    assert_eq!(c.display_text(), "Genesis 12");
    let c = ScriptureCitation::new(&String::from("John"), None);
    assert_eq!(c.display_text(), "John");
}

#[test]
fn tokenizer_edge_cases() {
    assert_eq!(split_keep(""), Vec::<String>::new());
    assert_eq!(split_keep(" 3:1"), vec!["3", ":", "1"]);
    assert_eq!(split_keep("3 \u{2013} 4"), vec!["3", "\u{2013}", "4"]);
    assert_eq!(split_keep("3\u{2014}4, \t"), vec!["3", "\u{2014}", "4", ","]);
    assert_eq!(split_keep("1 3"), vec!["1", "3"]);
    assert_eq!(split_keep("12a;"), vec!["12a", ";"]);
}

#[test]
fn book_abbreviation_forms() {
    assert_eq!(grab_book_abbr("Isa. 3:1"), Some(String::from("Isa.")));
    assert_eq!(grab_book_abbr("1 Cor. 4:3"), Some(String::from("1 Cor.")));
    assert_eq!(grab_book_abbr("1234 Kings 3"), Some(String::from("1234 ")));
    assert_eq!(grab_book_abbr(" Sam 3"), Some(String::from(" Sam ")));
    assert_eq!(grab_book_abbr("Gen"), Some(String::from("Gen")));
    assert_eq!(grab_book_abbr("Gen\n3"), Some(String::from("Gen")));
    assert_eq!(grab_book_abbr(". 3:1"), None);
    assert_eq!(grab_book_abbr(""), None);
}

#[test]
fn candidates_are_found_and_parsed() {
    let library = catalog();
    let text = "As written in Isa. 3:1 and again in II Sam. 1:3, 4 we read.";
    let found = parse_text(text, &library);
    let candidates = scripcit::scriptureregex::find_scripture_in_text(text);
    assert_eq!(found.len(), candidates.len());
    assert!(candidates.len() >= 2);
    let all: Vec<ScriptureCitation> = found.into_iter().flatten().collect();
    assert!(all.iter().any(|c| same(c, &citation("Isaiah", Some(3), Some(1), None, None))));
    assert!(all.iter().any(|c| same(c, &citation("2 Samuel", Some(1), Some(4), None, None))));
}
