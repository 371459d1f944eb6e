use scripcit::scriptureregex::{
    create_group, find_scripture_in_text, number_subparts, regex_creator, regroup, vec_string,
};

#[test]
fn it_works() {
    assert_eq!(2 + 2, 4);
}

#[test]
fn test_group() {
    let regex_frag = vec![String::from("a"), String::from("b"), String::from("c")];
    assert_eq!(regroup(regex_frag), "(a|b|c)");
}

#[test]
fn test_maybe() {
    let regex_frag = vec![String::from("a"), String::from("b"), String::from("c")];
    let maybe = create_group(String::from("?"));
    assert_eq!("(a|b|c)?", maybe.apply(regex_frag));
}

#[test]
fn test_some() {
    let regex_frag = vec![String::from("a"), String::from("b"), String::from("c")];
    let some = create_group(String::from("+"));
    assert_eq!(some.apply(regex_frag), "(a|b|c)+");
}

#[test]
fn group_edge_cases() {
    assert_eq!(regroup(Vec::new()), "()");
    assert_eq!(regroup(vec![String::from("x")]), "(x)");
    assert_eq!(vec_string(vec!["a", "b"]), vec![String::from("a"), String::from("b")]);
}

#[test]
fn number_pattern_text() {
    assert_eq!(
        number_subparts(),
        "\\d{1,3}((a|b|c|d|e)(\u{3b1}|\u{3b2}|\u{3b3}|\u{3b4})?)?(f{1,2}.?)?"
    );
}

#[test]
fn citation_pattern_text() {
    let n = number_subparts();
    let expected = format!(
        "((I{{1,3}}|i{{1,3}}|\\d{{1,3}})(\\s)?)?\\w+.?\\s({n}|[ivxlc]+)[:,.]( )?{n}((-|\u{2013}){n}([:,.]|{n})?)?(([:,;.\\-](\\s)?({n}|[ivxlc]+))+)?",
        n = n
    );
    assert_eq!(regex_creator(), expected);
}

#[test]
fn candidates_in_text() {
    let found = find_scripture_in_text("See Isa. 3:1 here.");
    assert_eq!(found, vec![String::from("Isa. 3:1")]);
    assert_eq!(find_scripture_in_text("no citations at all"), Vec::<String>::new());
}
