use stash::{Tag, TagParseError, UniqueStash};

#[test]
fn text_of_a_tag() {
    assert_eq!(Tag::new(909, 990).to_string(), "909/990");
    assert_eq!(Tag::new(0, 0).to_string(), "0/0");
    assert_eq!(Tag::new(10, 7).to_string(), "10/7");
    assert_eq!(
        Tag::new(usize::MAX, u64::MAX).to_string(),
        format!("{}/{}", usize::MAX, u64::MAX)
    );
}

#[test]
fn text_round_trip() {
    let tags = [
        Tag::new(0, 0),
        Tag::new(1, 0),
        Tag::new(0, 1),
        Tag::new(9, 10),
        Tag::new(10, 9),
        Tag::new(100, 1000),
        Tag::new(123456789, 9876543210),
        Tag::new(usize::MAX, u64::MAX),
        Tag::new(usize::MAX - 1, u64::MAX - 1),
    ];
    for tag in tags {
        assert_eq!(Tag::parse(&tag.to_string()), Ok(tag));
        assert_eq!(tag.to_string().parse::<Tag>(), Ok(tag));
    }
}

#[test]
fn text_of_parsed_is_the_text() {
    for text in ["0/0", "909/990", "18446744073709551615/18446744073709551615", "7/100"] {
        assert_eq!(Tag::parse(text).unwrap().to_string(), text);
    }
    assert_eq!(Tag::parse("909/990"), Ok(Tag::new(909, 990)));
}

#[test]
fn malformed_text_is_rejected() {
    let bad = [
        "",
        "/",
        "1",
        "1/",
        "/1",
        "1/2/3",
        "1//2",
        "01/2",
        "1/02",
        "00/0",
        "0/00",
        "+1/2",
        "1/+2",
        "-1/2",
        " 1/2",
        "1/2 ",
        "1 /2",
        "1/ 2",
        "a/b",
        "1/2a",
        "0x1/2",
        "1.0/2",
        "1\\2",
        "18446744073709551616/0",
        "0/18446744073709551616",
        "99999999999999999999999999/1",
        "\u{661}/\u{662}",
        "1/2\n",
    ];
    for text in bad {
        assert_eq!(Tag::parse(text), Err(TagParseError), "{:?}", text);
        assert!(text.parse::<Tag>().is_err(), "{:?}", text);
    }
}

#[test]
fn parse_error_says_what_failed() {
    assert_eq!(TagParseError.message(), "failed to parse tag");
    assert_eq!(Tag::parse("x").unwrap_err().message(), "failed to parse tag");
}

#[test]
fn tags_compare_by_offset_then_version() {
    assert!(Tag::new(0, 5) < Tag::new(1, 0));
    assert!(Tag::new(1, 0) < Tag::new(1, 1));
    assert_eq!(Tag::new(2, 3), Tag::new(2, 3));
    assert_eq!(Tag::new(2, 3).offset(), 2);
    assert_eq!(Tag::new(2, 3).version(), 3);
}

#[test]
fn parsed_tag_opens_the_slot() {
    let mut stash = UniqueStash::new();
    stash.put("zero");
    let tag = stash.put("one");
    assert_eq!(tag.to_string(), "1/0");
    assert_eq!(stash.take(Tag::parse("1/0").unwrap()), Some("one"));
    assert_eq!(stash.take(Tag::parse("1/0").unwrap()), None);
    assert_eq!(stash.put("two").to_string(), "1/1");
}
