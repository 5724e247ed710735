use mini_xml::xml::{InsideData, XmlStruct};
use mini_xml::xml_attr::AttrData;
use mini_xml::xml_root::XmlRoot;

fn child<'a>(d: Option<&'a InsideData>) -> &'a XmlStruct {
    match d {
        Some(InsideData::Inside(x)) => x,
        _ => panic!("expected a child element"),
    }
}

fn attr<'a>(d: Option<&'a InsideData>) -> &'a AttrData {
    match d {
        Some(InsideData::Attr(a)) => a,
        _ => panic!("expected an attribute"),
    }
}

#[test]
fn test_lv1_xml() {
    let xml = XmlRoot::from_str("<msg uid=\"abab\" url=\"112123\">emm</msg>")
        .expect("Error to Load Xml");

    assert_eq!(xml.get_tag(), "msg");
    assert_eq!(xml.is_close_tag(), true);

    assert_eq!(xml.get_inside_iter_name().len(), 2);
}

#[test]
fn test_lv2_xml() {
    let xml = XmlRoot::from_str("<msg uid=\"abab\" url=\"112123\"><in a=\"12\">bb</in></msg>")
        .expect("Error to Load Xml");

    assert_eq!(xml.get_tag(), "msg");
    assert_eq!(xml.is_close_tag(), true);

    assert_eq!(xml.get_inside_iter_name().len(), 3);
}

#[test]
fn new_attr() {
    let attr = AttrData::new("a", "11");

    assert_eq!(attr.get_key(), "a");
    assert_eq!(attr.get_value(), "11");
}

#[test]
fn attr_refs() {
    let attr = AttrData::new("key", "v");
    assert_eq!(attr.get_key_ref().as_str(), "key");
    assert_eq!(attr.get_value_ref().as_str(), "v");
}

#[test]
fn element_with_attribute_and_text() {
    let xml = XmlRoot::from_str("<t a=\"1\">x</t>").unwrap();
    assert_eq!(xml.get_tag(), "t");
    assert_eq!(xml.get_inside_iter_name(), vec![String::from("a")]);
    assert_eq!(attr(xml.get_inside_data("a")).get_value(), "1");
    assert_eq!(xml.get_plain_data().map(|s| s.as_str()), Some("x"));
    assert!(xml.is_close_tag());
}

#[test]
fn self_closing_element() {
    let xml = XmlRoot::from_str("<t a=\"1\"/>").unwrap();
    assert!(xml.is_close_tag());
    assert_eq!(xml.get_plain_data(), None);
    assert_eq!(xml.get_inside_iter_name(), vec![String::from("a")]);
}

#[test]
fn nested_children_in_order() {
    let xml = XmlRoot::from_str("<a><b>1</b><c>2</c></a>").unwrap();
    assert_eq!(xml.get_tag(), "a");
    assert_eq!(xml.get_inside_iter_name(), vec![String::from("b"), String::from("c")]);
    let b = child(xml.get_inside_data("b"));
    let c = child(xml.get_inside_data("c"));
    assert_eq!(b.get_tag(), "b");
    assert_eq!(b.get_plain_data().map(|s| s.as_str()), Some("1"));
    assert_eq!(c.get_plain_data().map(|s| s.as_str()), Some("2"));
    assert!(b.is_close_tag() && c.is_close_tag());
    assert!(xml.is_close_tag());
    assert!(xml.get_inside_data("d").is_none());
}

#[test]
fn mismatched_close_tag() {
    let xml = XmlRoot::from_str("<a><b>1</b></c>").unwrap();
    assert_eq!(xml.get_tag(), "a");
    assert!(!xml.is_close_tag());
    assert!(child(xml.get_inside_data("b")).is_close_tag());
}

#[test]
fn duplicate_attribute_is_fatal() {
    let r = XmlRoot::from_str("<a x=\"1\" x=\"2\"/>");
    assert_eq!(r.err(), Some(String::from("duplicate attribute key or child tag")));
}

#[test]
fn duplicate_child_is_fatal() {
    let r = XmlRoot::from_str("<a><b/><b/></a>");
    assert_eq!(r.err(), Some(String::from("duplicate attribute key or child tag")));
}

#[test]
fn declaration_fields() {
    let xml = XmlRoot::from_str("<?xml version=\"1.0\" encoding=\"utf-8\"?><a/>").unwrap();
    assert_eq!(xml.version(), "1.0");
    assert_eq!(xml.encoding(), "utf-8");
    assert_eq!(xml.standalone(), false);
    assert_eq!(xml.get_tag(), "a");
    assert!(xml.is_close_tag());
}

#[test]
fn declaration_stand_alone() {
    let xml = XmlRoot::from_str("<?xml stand_alone='yes' other=\"z\"?>\n<r>t</r>").unwrap();
    assert!(xml.standalone());
    assert_eq!(xml.version(), "");
    assert_eq!(xml.get_tag(), "r");
    let no = XmlRoot::from_str("<?xml stand_alone=\"no\"?><r/>").unwrap();
    assert!(!no.standalone());
}

#[test]
fn no_declaration_defaults() {
    let xml = XmlRoot::from_str("<r/>").unwrap();
    assert_eq!(xml.version(), "");
    assert_eq!(xml.encoding(), "");
    assert!(!xml.standalone());
}

#[test]
fn missing_root_is_malformed() {
    assert_eq!(XmlRoot::from_str("").err(), Some(String::from("malformed element head")));
    assert_eq!(XmlRoot::from_str("hello").err(), Some(String::from("malformed element head")));
    assert_eq!(XmlRoot::from_str("<a></ b></a>").err(), Some(String::from("malformed element head")));
}

#[test]
fn unterminated_body() {
    let msg = Some(String::from("element body without a close tag"));
    assert_eq!(XmlRoot::from_str("<a>").err(), msg);
    assert_eq!(XmlRoot::from_str("<a>text").err(), msg);
    assert_eq!(XmlRoot::from_str("<a><b/>").err(), msg);
}

#[test]
fn whitespace_around_heads() {
    let xml = XmlRoot::from_str("  <a>\n  <b k='v'/>\n</a>").unwrap();
    assert_eq!(xml.get_tag(), "a");
    assert_eq!(xml.get_inside_iter_name(), vec![String::from("b")]);
    assert_eq!(xml.get_plain_data(), None);
    let b = child(xml.get_inside_data("b"));
    assert_eq!(attr(b.get_inside_data("k")).get_value(), "v");
}

#[test]
fn last_text_run_is_kept() {
    let xml = XmlRoot::from_str("<a>one<b/>two</a>").unwrap();
    assert_eq!(xml.get_plain_data().map(|s| s.as_str()), Some("two"));
    assert_eq!(xml.get_inside_iter_name(), vec![String::from("b")]);
}

#[test]
fn trailing_text_is_ignored() {
    let xml = XmlRoot::from_str("<a/>trailing <x>").unwrap();
    assert_eq!(xml.get_tag(), "a");
}

#[test]
fn element_from_str_gives_rest() {
    let (x, rest) = XmlStruct::from_str(String::from("<b c=\"d\">1</b><e/>")).unwrap();
    assert_eq!(x.get_tag(), "b");
    assert_eq!(x.get_inside_iter_name(), vec![String::from("c")]);
    assert_eq!(rest, "<e/>");
}

#[test]
fn new_element_is_empty() {
    let x = XmlStruct::new("n");
    assert_eq!(x.get_tag(), "n");
    assert!(x.get_inside_iter_name().is_empty());
    assert_eq!(x.get_plain_data(), None);
    assert!(!x.is_close_tag());
}

#[test]
fn unicode_text_and_names() {
    let xml = XmlRoot::from_str("<été nom=\"ça\">héllo wörld</été>").unwrap();
    assert_eq!(xml.get_tag(), "été");
    assert_eq!(attr(xml.get_inside_data("nom")).get_value(), "ça");
    assert_eq!(xml.get_plain_data().map(|s| s.as_str()), Some("héllo wörld"));
}

#[test]
fn written_tree_reads_back() {
    let text = "<a k=\"v\" n='2'>hi<b>1</b><c x=\"y\"/></a>";
    let xml = XmlRoot::from_str(text).unwrap();
    assert_eq!(xml.get_tag(), "a");
    assert_eq!(
        xml.get_inside_iter_name(),
        vec![String::from("k"), String::from("n"), String::from("b"), String::from("c")]
    );
    assert_eq!(attr(xml.get_inside_data("k")).get_value(), "v");
    assert_eq!(attr(xml.get_inside_data("n")).get_value(), "2");
    assert_eq!(xml.get_plain_data().map(|s| s.as_str()), Some("hi"));
    let b = child(xml.get_inside_data("b"));
    assert_eq!(b.get_plain_data().map(|s| s.as_str()), Some("1"));
    let c = child(xml.get_inside_data("c"));
    assert_eq!(attr(c.get_inside_data("x")).get_value(), "y");
    assert!(c.is_close_tag() && b.is_close_tag() && xml.is_close_tag());
}

#[test]
fn attribute_value_runs_to_last_quote() {
    let xml = XmlRoot::from_str("<a t=\"x'y\" u=\"a/b\"/>").unwrap();
    assert_eq!(attr(xml.get_inside_data("t")).get_value(), "x'y");
    assert_eq!(attr(xml.get_inside_data("u")).get_value(), "a/b");
}

#[test]
fn head_split_by_line_feed_is_malformed() {
    assert_eq!(XmlRoot::from_str("<a\nk=\"v\"/>").err(), Some(String::from("malformed element head")));
}

#[test]
fn key_may_hold_equals_sign() {
    let xml = XmlRoot::from_str("<a b=c=\"d\"/>").unwrap();
    assert_eq!(xml.get_inside_iter_name(), vec![String::from("b=c")]);
    assert_eq!(attr(xml.get_inside_data("b=c")).get_value(), "d");
}

#[test]
fn returned_items_carry_their_key() {
    let xml = XmlRoot::from_str("<r k=\"v\"><c>t</c></r>").unwrap();
    assert_eq!(attr(xml.get_inside_data("k")).get_key(), "k");
    assert_eq!(child(xml.get_inside_data("c")).get_tag(), "c");
}
