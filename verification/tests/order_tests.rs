use lexicc::lex_le_bytes;
use lexicc::sort_names;

fn name(s: &str) -> Vec<u8> {
    s.as_bytes().to_vec()
}

#[test]
fn compare_is_lexicographic() {
    assert!(lex_le_bytes(&name("a"), &name("b")));
    assert!(!lex_le_bytes(&name("b"), &name("a")));
    assert!(lex_le_bytes(&name("a"), &name("a")));
    assert!(lex_le_bytes(&name("a"), &name("ab")));
    assert!(!lex_le_bytes(&name("ab"), &name("a")));
    assert!(lex_le_bytes(&name(""), &name("a")));
    assert!(lex_le_bytes(&name("2021-01-02"), &name("2021-01-10")));
}

#[test]
fn sort_orders_any_enumeration() {
    let listing = vec![name("c"), name("a"), name("b")];
    let sorted = sort_names(listing);
    assert_eq!(sorted, vec![name("a"), name("b"), name("c")]);

    let other_enumeration = vec![name("b"), name("c"), name("a")];
    let sorted_again = sort_names(other_enumeration);
    assert_eq!(sorted_again, vec![name("a"), name("b"), name("c")]);
}

#[test]
fn sort_timestamp_prefixed_names() {
    let listing = vec![
        name("2021-06-01T10-00-00"),
        name("2021-06-01T09-59-59"),
        name("2020-12-31T23-59-59"),
    ];
    let sorted = sort_names(listing);
    assert_eq!(
        sorted,
        vec![
            name("2020-12-31T23-59-59"),
            name("2021-06-01T09-59-59"),
            name("2021-06-01T10-00-00"),
        ]
    );
}

#[test]
fn sort_empty_listing() {
    let sorted = sort_names(Vec::new());
    assert!(sorted.is_empty());
}

#[test]
fn sort_single_item() {
    let sorted = sort_names(vec![name("only")]);
    assert_eq!(sorted, vec![name("only")]);
}

#[test]
fn sort_keeps_equal_names() {
    let listing = vec![name("x"), name("a"), name("x")];
    let sorted = sort_names(listing);
    assert_eq!(sorted, vec![name("a"), name("x"), name("x")]);
}
