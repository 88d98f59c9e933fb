use regexp::strsplit::{until_char, StrSplit};
use regexp::strtok::{strtok, strtokn};

#[test]
fn until_char_test() {
    assert_eq!(until_char("hello world", 'o'), "hell");
}

#[test]
fn lib_it_works() {
    let mut x = "Hello world";
    let hello = strtok(&mut x, ' ');
    assert_eq!(hello, "Hello");
    assert_eq!(x, "world");
}

#[test]
fn test_strtokn() {
    let mut x = "- This, a sample string.";
    let delimters = [" ", ",", ".", "-"];

    let mut tok = strtokn(&mut x, &delimters);
    assert_eq!(tok, "This");
    assert_eq!(x, " a sample string.");

    tok = strtokn(&mut x, &delimters);
    assert_eq!(tok, "a");
    assert_eq!(x, "sample string.");

    tok = strtokn(&mut x, &delimters);
    assert_eq!(tok, "sample");
    assert_eq!(x, "string.");

    tok = strtokn(&mut x, &delimters);
    assert_eq!(tok, "string");
    assert_eq!(x, "");

    tok = strtokn(&mut x, &delimters);
    assert_eq!(tok, "");
    assert_eq!(x, "");
}

#[test]
fn split_words() {
    let haystack = "a b c d e";
    let mut letters = StrSplit::new(haystack, " ");
    let mut pieces: Vec<&str> = Vec::new();
    while let Some(piece) = letters.next() {
        pieces.push(piece);
    }
    assert_eq!(pieces, vec!["a", "b", "c", "d", "e"]);
}

#[test]
fn split_keeps_empty_tail() {
    let haystack = "a b c d ";
    let mut letters = StrSplit::new(haystack, " ");
    let mut pieces: Vec<&str> = Vec::new();
    while let Some(piece) = letters.next() {
        pieces.push(piece);
    }
    assert_eq!(pieces, vec!["a", "b", "c", "d", ""]);
}

#[test]
fn until_char_whole_when_absent() {
    assert_eq!(until_char("hello", 'z'), "hello");
    assert_eq!(until_char("", 'z'), "");
}

#[test]
fn strtok_without_delimiter_drains() {
    let mut x = "token";
    assert_eq!(strtok(&mut x, ','), "token");
    assert_eq!(x, "");
    assert_eq!(strtok(&mut x, ','), "");
}
