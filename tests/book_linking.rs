use scripcit::book_linking::{book_split, Book, Library};

fn catalog() -> Library {
    let mut library = Library::new();
    let lines = [
        "Genesis,Gen,Ge,Gn",
        "Exodus,Exod,Ex",
        "Judges,Judg,Jdg,Jg",
        "1 Samuel,1 Sam,I Sam,1Sa",
        "2 Samuel,2 Sam,II Sam,2Sa",
        "1 Kings,1 Kgs,I Kings",
        "2 Kings,2 Kgs,II Kings",
        "Isaiah,Isa,Is",
        "John,Jn,Jhn",
        "Jonah,Jon",
    ];
    for line in lines.iter() {
        library.add_line(line);
    }
    library
}

#[test]
fn book_linking_consec_abbrev_match_test() {
    let nbook = Book::new("Genesis", "Genesis");
    let (num, abbrev) = book_split("Gen");
    assert_eq!(nbook.name_match(&abbrev, &num), true);
}

#[test]
fn book_linking_irregular_abbrev_match_test() {
    let nbook = Book::new("John", "John");
    let (num, abbrev) = book_split("Jn");
    assert!(nbook.name_match(&abbrev, &num));
    let (nnum, nabbrev) = book_split("Joh");
    assert!(nbook.name_match(&nabbrev, &nnum));
    let (wnum, wabbrev) = book_split("Jdg");
    assert_eq!(nbook.name_match(&wabbrev, &wnum), false);
}

#[test]
fn match_book_and_title() {
    let (num, abbrev) = book_split("2 Kgs");
    let book = Book::new("2 Kings", "2 Kings");
    assert!(book.name_match(&abbrev, &num));
}

#[test]
fn book_split_test() {
    let book = "ii Samuel";
    let (num, name) = book_split(book);
    assert_eq!(num, Some(2));
    assert_eq!(name, "samuel");
}

#[test]
fn archive_search_test() {
    let library = catalog();
    let abbrev = "ii Sam";
    let expected_return = vec![String::from("2 Samuel")];
    let actual_return = library.match_book(abbrev);
    let (num, nab) = book_split(abbrev);
    println!("{}, {}", num.unwrap(), nab);
    println!("{:?}", actual_return);
    assert_eq!(actual_return, expected_return);
}

#[test]
fn kings_archive_search_test() {
    let library = catalog();
    let abbrev = "2Kng";
    let expected_return = vec![String::from("2 Kings")];
    let actual_return = library.match_book(abbrev);
    let (num, nab) = book_split(abbrev);
    println!("{}, {}", num.unwrap(), nab);
    println!("{:?}", actual_return);
    assert_eq!(actual_return, expected_return);
}

#[test]
fn isa_search() {
    let library = catalog();
    let abbrev = "Isa";
    let expected_return = vec![String::from("Isaiah")];
    let actual_return = library.match_book(abbrev);
    assert_eq!(actual_return, expected_return);
}

#[test]
fn split_without_leading_number() {
    assert_eq!(book_split("Genesis"), (None, String::from("genesis")));
    assert_eq!(book_split("  GENESIS "), (None, String::from("genesis")));
    assert_eq!(book_split("2Kng"), (Some(2), String::from("kng")));
    assert_eq!(book_split("IV Kings"), (Some(4), String::from("kings")));
    assert_eq!(book_split("iii  John "), (Some(3), String::from("john")));
}

#[test]
fn split_leading_number_edge_cases() {
    // a digit run too large for the number type is no leading number
    assert_eq!(book_split("99999 Kings"), (None, String::from("99999 kings")));
    // roman letters without a following space are part of the name
    assert_eq!(book_split("Isa"), (None, String::from("isa")));
    // the roman reading is the one of the numerals crate, not the strict form
    assert_eq!(book_split("iiii Kings"), (Some(4), String::from("kings")));
    assert_eq!(book_split(""), (None, String::from("")));
}

#[test]
fn book_matches_its_own_name() {
    for name in ["Genesis", "2 Samuel", "Song of Solomon", "III John", "Abba"].iter() {
        let book = Book::new(name, name);
        assert!(book.name_match(&book.name, &book.num));
    }
}

#[test]
fn number_mismatch_rejects() {
    let book = Book::new("2 Kings", "2 Kings");
    let (num, abbrev) = book_split("1 Kgs");
    assert!(!book.name_match(&abbrev, &num));
    let (num, abbrev) = book_split("Kgs");
    assert!(!book.name_match(&abbrev, &num));
}

#[test]
fn repeated_letter_abbreviation_is_rejected() {
    // "gns": the `n` of "genesis" is at 2, but `s` occurs at 4 and 6, both after it: accepted.
    let book = Book::new("Genesis", "Genesis");
    assert!(book.name_match("gns", &None));
    // "gs" then "e": `e` occurs at 1 and 3, below the cursor left at 6 by `s`: rejected.
    assert!(!book.name_match("gse", &None));
    // "exs" on "exodus": fine; "eod" on "exodus": `o` at 2, `d` at 3.
    let exodus = Book::new("Exodus", "Exodus");
    assert!(exodus.name_match("eod", &None));
    // "jdg" on "judges": `d` at 2, `g` at 3: accepted.
    let judges = Book::new("Judges", "Judges");
    assert!(judges.name_match("jdg", &None));
}

#[test]
fn book_index_positions() {
    let book = Book::new("Genesis", "Genesis");
    assert_eq!(book.name, "genesis");
    assert_eq!(book.sort_on, Some('g'));
    assert_eq!(book.idx.get(&('e' as u32)), Some(&vec![1, 3]));
    assert_eq!(book.idx.get(&('s' as u32)), Some(&vec![4, 6]));
    assert_eq!(book.idx.get(&('x' as u32)), None);
    assert_eq!(book.canonical_name, "Genesis");
}

#[test]
fn catalog_lines_file_entries_by_first_letter() {
    let mut library = Library::new();
    library.add_line("2 Samuel,2 Sam,,II Sam");
    let bucket = library.items.get(&('s' as u32)).unwrap();
    assert_eq!(bucket.len(), 3);
    for b in bucket.iter() {
        assert_eq!(b.canonical_name, "2 Samuel");
        assert_eq!(b.num, Some(2));
    }
    assert_eq!(bucket[0].name, "samuel");
    assert_eq!(bucket[1].name, "sam");
    assert_eq!(bucket[2].name, "sam");
    library.add_line("Exodus");
    assert_eq!(library.items.get(&('e' as u32)).unwrap().len(), 1);
}

#[test]
fn catalog_text_lines() {
    let library = Library::create("Genesis,Gen\r\nExodus,Ex\n\nJohn,Jn\n");
    let g = library.items.get(&('g' as u32)).unwrap();
    assert_eq!(g.len(), 2);
    assert_eq!(g[0].name, "genesis");
    assert_eq!(g[1].name, "gen");
    assert_eq!(g[1].canonical_name, "Genesis");
    assert_eq!(library.items.get(&('e' as u32)).unwrap().len(), 2);
    assert_eq!(library.items.get(&('j' as u32)).unwrap().len(), 2);
    assert_eq!(library.items.len(), 3);
    assert_eq!(library.match_book("Jn"), vec![String::from("John")]);
    let empty = Library::create("");
    assert_eq!(empty.items.len(), 0);
}

#[test]
fn match_book_dedups_and_misses() {
    let library = catalog();
    assert_eq!(library.match_book("Gen"), vec![String::from("Genesis")]);
    assert_eq!(library.match_book("Xyz"), Vec::<String>::new());
    assert_eq!(library.match_book(""), Vec::<String>::new());
    assert_eq!(library.match_book("1 Sam"), vec![String::from("1 Samuel")]);
    let jo = library.match_book("Jo");
    assert_eq!(jo, vec![String::from("John"), String::from("Jonah")]);
}
