use xteink_x4::xml::{
    attr_value, close_tag, element_text, find_attr_value, next_start_tag, Token, XmlCursor,
};

#[test]
fn cursor_hands_out_trimmed_tokens() {
    let mut cursor = XmlCursor::new("<p class=\"x\">  Hello\u{a0}world \n</p><br/>");
    assert_eq!(cursor.next_token(), Some(Token::Start("p")));
    assert_eq!(cursor.next_token(), Some(Token::Text("Hello\u{a0}world")));
    assert_eq!(cursor.next_token(), Some(Token::End("p")));
    assert_eq!(cursor.next_token(), Some(Token::Start("br/")));
    assert_eq!(cursor.next_token(), None);
}

#[test]
fn cursor_skips_blank_text_and_stops_at_an_open_tag() {
    let mut cursor = XmlCursor::new("  \t <a>\u{3000}</a> <b");
    assert_eq!(cursor.next_token(), Some(Token::Start("a")));
    assert_eq!(cursor.next_token(), Some(Token::End("a")));
    assert_eq!(cursor.next_token(), None);
}

#[test]
fn finds_start_tags_by_name() {
    let xml = "<items><item id=\"1\"/><itemref idref=\"2\"/></items>";
    let (tag, next) = next_start_tag(xml, "itemref", 0).expect("itemref");
    assert_eq!(tag, "itemref idref=\"2\"/");
    assert!(next <= xml.len());
    let (first, _) = next_start_tag(xml, "item", 0).expect("item");
    assert_eq!(first, "item id=\"1\"/");
    assert_eq!(next_start_tag(xml, "spine", 0), None);
}

#[test]
fn reads_attribute_values() {
    assert_eq!(attr_value("item id=\"a\" href='b.xhtml'", "href"), Some("b.xhtml"));
    assert_eq!(attr_value("item id = \"a\"", "id"), Some("a"));
    assert_eq!(attr_value("item idref=\"a\"", "id"), None);
    assert_eq!(attr_value("item id=a", "id"), None);
    assert_eq!(
        find_attr_value("<x/><rootfile full-path=\"OPS/p.opf\"/>", "rootfile", "full-path"),
        Some("OPS/p.opf")
    );
    assert_eq!(find_attr_value("<rootfile/>", "rootfile", "full-path"), None);
}

#[test]
fn reads_element_text() {
    assert_eq!(close_tag("dc:title").as_str(), "</dc:title>");
    let fits = "t".repeat(38);
    assert_eq!(close_tag(&fits).as_str(), format!("</{}", fits));
    assert_eq!(close_tag(&"t".repeat(39)).as_str(), "</>");
    assert_eq!(element_text("<dc:title lang=\"en\"> A Title </dc:title>", "dc:title"), Some("A Title"));
    assert_eq!(element_text("<dc:title>open", "dc:title"), None);
    assert_eq!(element_text("<title>x</title>", "dc:title"), None);
}

#[test]
fn cursor_stays_done_after_none() {
    let mut cursor = XmlCursor::new("<a>x</a>  ");
    let mut count = 0;
    while cursor.next_token().is_some() {
        count += 1;
    }
    assert_eq!(count, 3);
    assert_eq!(cursor.next_token(), None);
    assert_eq!(cursor.next_token(), None);
}
