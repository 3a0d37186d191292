use bytes::Bytes;
use rust_git::error::GitError;
use rust_git::key_value_list_message::{
    KeyValuePair, KeyValuePairEntry, KeyValuePairKey, KeyValuePairList,
};

fn pair(key: &str, values: &[&str]) -> KeyValuePair {
    KeyValuePair {
        key: key.to_string(),
        values: values.iter().map(|v| Bytes::from(v.to_string())).collect(),
    }
}

fn parse(text: &str) -> Result<KeyValuePairList, GitError> {
    KeyValuePairList::from(Bytes::from(text.to_string()))
}

#[test]
fn parses_two_pairs() {
    let output = parse("firstkey firstvalue\nsecondkey secondvalue\n").unwrap();
    let expected = KeyValuePairList {
        data: vec![pair("firstkey", &["firstvalue"]), pair("secondkey", &["secondvalue"])],
        contents: None,
    };
    assert_eq!(output, expected);
    assert_eq!(
        output.get(KeyValuePairKey::Key("firstkey".to_string())),
        Some(KeyValuePairEntry::Singleton(Bytes::from("firstvalue")))
    );
    assert_eq!(output.get(KeyValuePairKey::Key("thirdkey".to_string())), None);
    assert_eq!(output.get(KeyValuePairKey::Contents), None);
}

#[test]
fn parses_continuation_lines_and_body() {
    let output = parse(
        "firstkey firstvalue\n continuation of value\n further continuation\nsecondkey secondvalue\n\ncontents here",
    )
    .unwrap();
    let expected = KeyValuePairList {
        data: vec![
            pair("firstkey", &["firstvalue\ncontinuation of value\nfurther continuation"]),
            pair("secondkey", &["secondvalue"]),
        ],
        contents: Some(Bytes::from("contents here")),
    };
    assert_eq!(output, expected);
    assert_eq!(
        output.get(KeyValuePairKey::Contents),
        Some(KeyValuePairEntry::Singleton(Bytes::from("contents here")))
    );
}

#[test]
fn writes_continuation_lines_and_body() {
    let list = KeyValuePairList {
        data: vec![
            pair("firstkey", &["firstvalue\ncontinued first value"]),
            pair("secondkey", &["secondvalue"]),
        ],
        contents: Some(Bytes::from("and now the contents")),
    };
    let expected =
        "firstkey firstvalue\n continued first value\nsecondkey secondvalue\n\nand now the contents";
    assert_eq!(list.into_string(), Ok(expected.to_string()));
    assert_eq!(list.into_bytes(), Bytes::from(expected));
}

#[test]
fn continuation_survives_a_round_trip() {
    let input = "k v\n continued\n";
    let list = parse(input).unwrap();
    assert_eq!(list.data, vec![pair("k", &["v\ncontinued"])]);
    assert_eq!(list.contents, None);
    assert_eq!(list.into_bytes(), Bytes::from(input));
}

#[test]
fn repeated_keys_collect_their_values_in_order() {
    let list = parse("a 1\nb 2\na 3\na 4\n").unwrap();
    assert_eq!(list.data, vec![pair("a", &["1", "3", "4"]), pair("b", &["2"])]);
    assert_eq!(
        list.get(KeyValuePairKey::Key("a".to_string())),
        Some(KeyValuePairEntry::List(vec![
            Bytes::from("1"),
            Bytes::from("3"),
            Bytes::from("4")
        ]))
    );
    assert_eq!(list.into_bytes(), Bytes::from("a 1\na 3\na 4\nb 2\n"));
}

#[test]
fn insert_pair_promotes_a_single_value_to_a_list() {
    let mut list = KeyValuePairList::new();
    list.insert_pair("parent".to_string(), Bytes::from("one"));
    assert_eq!(
        list.get(KeyValuePairKey::Key("parent".to_string())),
        Some(KeyValuePairEntry::Singleton(Bytes::from("one")))
    );
    list.insert_pair("tree".to_string(), Bytes::from("t"));
    list.insert_pair("parent".to_string(), Bytes::from("two"));
    assert_eq!(
        list.get(KeyValuePairKey::Key("parent".to_string())),
        Some(KeyValuePairEntry::List(vec![Bytes::from("one"), Bytes::from("two")]))
    );
    assert_eq!(list.data, vec![pair("parent", &["one", "two"]), pair("tree", &["t"])]);
}

#[test]
fn insert_contents_replaces_the_body() {
    let mut list = KeyValuePairList::new();
    list.insert_contents(Bytes::from("first"));
    list.insert_contents(Bytes::from("second"));
    assert_eq!(list.contents, Some(Bytes::from("second")));
    assert_eq!(list.into_bytes(), Bytes::from("\nsecond"));
}

#[test]
fn message_without_multi_line_values_round_trips() {
    let mut list = KeyValuePairList::new();
    list.insert_pair("tree".to_string(), Bytes::from("abc"));
    list.insert_pair("parent".to_string(), Bytes::from("first parent"));
    list.insert_pair("parent".to_string(), Bytes::from("second parent"));
    list.insert_pair("author".to_string(), Bytes::from("A U Thor <a@example.com>"));
    list.insert_contents(Bytes::from("A message.\n\nWith two paragraphs.\n"));
    assert_eq!(KeyValuePairList::from(list.into_bytes()), Ok(list));
}

#[test]
fn message_with_multi_line_values_round_trips() {
    let mut list = KeyValuePairList::new();
    list.insert_pair("gpgsig".to_string(), Bytes::from("line one\nline two\n\n last\n"));
    list.insert_pair("tree".to_string(), Bytes::from(" leading space"));
    list.insert_contents(Bytes::from(""));
    let wire = list.into_bytes();
    assert_eq!(
        wire,
        Bytes::from("gpgsig line one\n line two\n \n  last\n \ntree  leading space\n\n")
    );
    assert_eq!(KeyValuePairList::from(wire), Ok(list));
}

#[test]
fn empty_input_is_the_empty_message() {
    assert_eq!(parse(""), Ok(KeyValuePairList::new()));
    assert_eq!(KeyValuePairList::new().into_bytes(), Bytes::from(""));
}

#[test]
fn message_may_be_a_body_alone() {
    let list = parse("\njust a body\nwith two lines").unwrap();
    assert_eq!(list.data, vec![]);
    assert_eq!(list.contents, Some(Bytes::from("just a body\nwith two lines")));
    let empty_body = parse("k v\n\n").unwrap();
    assert_eq!(empty_body.contents, Some(Bytes::from("")));
}

#[test]
fn first_line_may_have_an_empty_key() {
    let list = parse(" v\nk w\n").unwrap();
    assert_eq!(list.data, vec![pair("", &["v"]), pair("k", &["w"])]);
    assert_eq!(KeyValuePairList::from(list.into_bytes()), Ok(list));
}

#[test]
fn line_without_a_space_is_malformed() {
    assert_eq!(parse("key\nfoo bar\n"), Err(GitError::Format));
    assert_eq!(parse("a 1\nnospace\n"), Err(GitError::Format));
    assert_eq!(parse("abc"), Err(GitError::Format));
}

#[test]
fn value_without_a_line_break_is_malformed() {
    assert_eq!(parse("k v"), Err(GitError::Format));
    assert_eq!(parse("k v\n continued"), Err(GitError::Format));
}

#[test]
fn key_that_is_not_text_is_malformed() {
    let input = Bytes::from(vec![0xff, 0xfe, b' ', b'v', b'\n']);
    assert_eq!(KeyValuePairList::from(input), Err(GitError::Format));
}

#[test]
fn value_may_be_any_bytes_but_text_needs_utf8() {
    let input = Bytes::from(vec![b'k', b' ', 0xff, 0x00, b'\n']);
    let list = KeyValuePairList::from(input.clone()).unwrap();
    assert_eq!(list.data[0].values, vec![Bytes::from(vec![0xff, 0x00])]);
    assert_eq!(list.into_bytes(), input);
    assert_eq!(list.into_string(), Err(GitError::Format));
}
