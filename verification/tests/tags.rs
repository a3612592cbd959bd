use cartographer::assets::{Tags, TagsError};

const TAGS: &str = "GBR; Great Britain ;England;UK\n\n  FRA;France\r\nTUR;Ottomans;Turkey\n";

#[test]
fn tags_from_tag_or_name() {
    let tags = Tags::parse_new(TAGS).unwrap();
    assert_eq!(tags.get_tag_for_name("GBR"), Some("GBR"));
    assert_eq!(tags.get_tag_for_name("Great Britain"), Some("GBR"));
    assert_eq!(tags.get_tag_for_name("England"), Some("GBR"));
    assert_eq!(tags.get_tag_for_name("gbr"), Some("GBR"));
    assert_eq!(tags.get_tag_for_name("Fra"), Some("FRA"));
    assert_eq!(tags.get_tag_for_name("Turkey"), Some("TUR"));
    // A text that is no tag is looked up among the names, which must match exactly.
    assert_eq!(tags.get_tag_for_name("UK"), Some("GBR"));
    assert_eq!(tags.get_tag_for_name("england"), None);
    assert_eq!(tags.get_tag_for_name("ESP"), None);
}

#[test]
fn tags_first_name() {
    let tags = Tags::parse_new(TAGS).unwrap();
    assert_eq!(tags.get_name_for_tag("GBR"), Some("Great Britain"));
    assert_eq!(tags.get_name_for_tag("TUR"), Some("Ottomans"));
    assert_eq!(tags.get_name_for_tag("gbr"), None);
    assert_eq!(tags.get_name_for_tag("Great Britain"), None);
}

#[test]
fn tags_later_lines_win() {
    let tags = Tags::parse_new("AAA;One;Shared\nBBB;Two;Shared\nAAA;Uno\n").unwrap();
    assert_eq!(tags.get_name_for_tag("AAA"), Some("Uno"));
    assert_eq!(tags.get_tag_for_name("Shared"), Some("BBB"));
    assert_eq!(tags.get_tag_for_name("One"), Some("AAA"));
}

#[test]
fn tags_errors() {
    assert_eq!(Tags::parse_new("GBR;UK\nno separator\n").err(), Some(TagsError::InvalidLine(1)));
    assert_eq!(Tags::parse_new("\n\nGB;UK").err(), Some(TagsError::InvalidTag("GB".to_string())));
    assert_eq!(Tags::parse_new("gbr;UK").err(), Some(TagsError::InvalidTag("gbr".to_string())));
    assert!(Tags::parse_new("").is_ok());
}
