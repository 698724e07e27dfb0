use kiss_xml::dom::{CData, Comment, DomNodeType, Declaration, Document, Element, Node, Text, DTD};
use kiss_xml::errors::KissXmlError;

#[test]
fn scenario_two_children_named_a() {
    let doc = kiss_xml::parse_str("<root><a>1</a><a>2</a></root>").unwrap();
    let kids = doc.root_element().child_elements();
    assert_eq!(kids.len(), 2);
    assert!(kids.iter().all(|e| e.name() == "a"));
    assert_eq!(kids[0].text(), "1");
    assert_eq!(kids[1].text(), "2");
}

#[test]
fn scenario_mixed_content_round_trip() {
    let doc = kiss_xml::parse_str("<p>Hello <b>world</b>!</p>").unwrap();
    assert_eq!(doc.root_element().to_string(), "<p>Hello <b>world</b>!</p>");
}

#[test]
fn scenario_comment_content_rules() {
    assert!(matches!(Comment::new("-->"), Err(_)));
    let c = Comment::new("ok").unwrap();
    assert_eq!(c.to_string_with_indent("  "), "<!--ok-->");
    assert_eq!(c.boxed().to_string(), "<!--ok-->");
}

#[test]
fn scenario_mismatched_close_reports_position() {
    match kiss_xml::parse_str("<a><b></a>") {
        Err(KissXmlError::ParsingError(e)) => {
            assert!(e.msg.contains("line 1"), "{}", e.msg);
            assert!(e.msg.contains("column"), "{}", e.msg);
        },
        other => panic!("expected a parsing error, got {:?}", other),
    }
}

#[test]
fn default_namespace_is_inherited() {
    let doc = kiss_xml::parse_str("<root xmlns=\"NS1\"><child/></root>").unwrap();
    let child = doc.root_element().first_element_by_name("child").unwrap();
    assert_eq!(child.namespace().unwrap(), "NS1");
    assert!(child.namespace_prefix().is_none());
}

#[test]
fn prefixed_namespace_is_not_inherited_by_unprefixed_sibling() {
    let doc = kiss_xml::parse_str("<root xmlns:a=\"NS_A\"><a:child/><plain/></root>").unwrap();
    let child = doc.root_element().first_element_by_name("child").unwrap();
    assert_eq!(child.namespace().unwrap(), "NS_A");
    assert_eq!(child.namespace_prefix().unwrap(), "a");
    let plain = doc.root_element().first_element_by_name("plain").unwrap();
    assert!(plain.namespace().is_none());
}

#[test]
fn unbound_prefix_is_an_error() {
    assert!(kiss_xml::parse_str("<root><x:child/></root>").is_err());
    assert!(kiss_xml::parse_str("<x:root/>").is_err());
}

#[test]
fn appending_texts_merges_them() {
    let mut e = Element::new_from_name("t").unwrap();
    e.append_all(vec![Text::new("a").boxed(), Text::new(" ").boxed(), Text::new("b").boxed()]);
    assert_eq!(e.children().len(), 1);
    assert_eq!(e.children()[0].text(), "a b");
    let mut w = Element::new_from_name("w").unwrap();
    w.append_all(vec![Text::new(" ").boxed(), Text::new("\n\t").boxed()]);
    assert_eq!(w.children().len(), 0);
    let mut s = Element::new_from_name("s").unwrap();
    s.append(Text::new("x").boxed());
    s.append(Text::new("y").boxed());
    s.append(Text::new("z").boxed());
    assert_eq!(s.children().len(), 1);
    assert_eq!(s.text(), "xyz");
}

#[test]
fn escape_formulas() {
    assert_eq!(kiss_xml::escape("&<>'\""), "&amp;&lt;&gt;&apos;&quot;");
    assert_eq!(kiss_xml::text_escape("&<>'\""), "&amp;&lt;&gt;'\"");
    assert_eq!(kiss_xml::attribute_escape("a\"b"), "a&quot;b");
    assert_eq!(kiss_xml::unescape("&amp;&lt;&gt;&apos;&quot;"), "&<>'\"");
    assert_eq!(kiss_xml::unescape("&#x41;&#x263C;"), "A\u{263C}");
    assert_eq!(kiss_xml::unescape("&nbsp; & &#xD800; &#x;"), "&nbsp; & &#xD800; &#x;");
    assert_eq!(kiss_xml::unescape(&kiss_xml::escape("x < y & 'z'")), "x < y & 'z'");
}

#[test]
fn error_variants() {
    assert!(matches!(Element::new_from_name("1abc"), Err(KissXmlError::InvalidElementName(_))));
    assert!(matches!(Element::new_with_attributes("a", vec![("b c", "1")]), Err(KissXmlError::InvalidAttributeName(_))));
    assert!(CData::new("x]]>y").is_err());
    let mut e = Element::new_from_name("a").unwrap();
    assert!(e.insert(1, Text::new("x").boxed()).is_err());
    assert!(e.remove(0).is_err());
    assert!(e.first_element_by_name("zz").is_err());
    assert!(e.set_attr(" bad", "1").is_err());
    assert!(Text::new("t").boxed().as_element().is_err());
    assert!(matches!(kiss_xml::parse_str("<a><!DOCTYPE x></a>"), Err(KissXmlError::NotSupportedError(_))));
    assert!(matches!(kiss_xml::parse_str("no markup here"), Err(KissXmlError::ParsingError(_))));
    assert!(kiss_xml::parse_str("<a/><b/>").is_err());
    assert!(kiss_xml::parse_str("text<a/>").is_err());
    assert!(kiss_xml::parse_str("</a>").is_err());
}

#[test]
fn attributes_are_kept_in_order() {
    let mut e = Element::new_from_name("a").unwrap();
    e.set_attr("zeta", "1").unwrap();
    e.set_attr("alpha", "2").unwrap();
    e.set_attr("xmlns:p", "u").unwrap();
    e.set_attr("alpha", "3").unwrap();
    assert_eq!(e.to_string(), "<a xmlns:p=\"u\" alpha=\"3\" zeta=\"1\"/>");
    assert_eq!(e.get_attr("alpha").unwrap(), "3");
    assert_eq!(e.remove_attr("alpha").unwrap(), "3");
    assert!(e.get_attr("alpha").is_none());
    assert_eq!(e.namespace_prefixes().unwrap().len(), 1);
}

#[test]
fn spaces_around_equals_are_tolerated() {
    let doc = kiss_xml::parse_str("<a b = \"1\" c= '2' d =\"3\"/>").unwrap();
    assert_eq!(doc.root_element().get_attr("b").unwrap(), "1");
    assert_eq!(doc.root_element().get_attr("c").unwrap(), "2");
    assert_eq!(doc.root_element().get_attr("d").unwrap(), "3");
    assert!(kiss_xml::parse_str("<a b  =\"1\"/>").is_err());
}

#[test]
fn declaration_and_dtd_are_kept() {
    let xml = "<?xml version=\"1.0\"?>\n<!DOCTYPE note [<!ENTITY a \"b\">]>\n<note/>\n";
    let doc = kiss_xml::parse_str(xml).unwrap();
    assert!(doc.declaration().is_some());
    assert_eq!(doc.doctype_defs().len(), 1);
    assert_eq!(doc.to_string(), xml);
    assert_eq!(Declaration::from_str("  <?xml version=\"1.0\"?> ").unwrap().to_string(), "<?xml version=\"1.0\"?>");
    assert!(Declaration::from_str("<?>").is_err());
    assert_eq!(DTD::from_string("<!DOCTYPE html>").unwrap().to_string(), "<!DOCTYPE html>");
}

#[test]
fn invalid_indent_falls_back_to_two_spaces() {
    let doc = Document::new(Element::new_with_children("r", vec![Element::new_from_name("c").unwrap().boxed(), Element::new_from_name("d").unwrap().boxed()]).unwrap());
    let expected = "<?xml version=\"1.0\" encoding=\"UTF-8\"?>\n<r>\n  <c/>\n  <d/>\n</r>\n";
    assert_eq!(doc.to_string_with_indent("x"), expected);
    assert_eq!(doc.to_string_with_indent("\t"), "<?xml version=\"1.0\" encoding=\"UTF-8\"?>\n<r>\n\t<c/>\n\t<d/>\n</r>\n");
}

#[test]
fn text_layout_is_cleaned() {
    let doc = kiss_xml::parse_str("<a>\n    line one\n    line two\n  </a>").unwrap();
    assert_eq!(doc.root_element().text(), "line one\nline two");
}

#[test]
fn node_kinds_and_search() {
    let doc = kiss_xml::parse_str("<r><a>x<b>y</b></a><!--c--><![CDATA[d]]></r>").unwrap();
    let root = doc.root_element();
    assert_eq!(root.children()[0].node_type(), DomNodeType::ElementNode);
    assert_eq!(root.children()[1].node_type(), DomNodeType::CommentNode);
    assert_eq!(root.children()[2].node_type(), DomNodeType::CDataNode);
    assert_eq!(root.all_children().len(), 6);
    assert_eq!(root.search(|n: &Node| n.is_text()).len(), 2);
    assert_eq!(root.search_elements_by_name("b").len(), 1);
    assert_eq!(root.search_text(|t: &Text| t.content == "y").len(), 1);
    assert_eq!(root.search_comments(|_| true).len(), 1);
    assert_eq!(root.text(), "xy");
}

#[test]
fn removal() {
    let mut doc = kiss_xml::parse_str("<r><a/><b/><a><c/><!--x--></a></r>").unwrap();
    assert_eq!(doc.root_element_mut().remove_elements_by_name("b"), 1);
    assert_eq!(doc.root_element().children().len(), 2);
    doc.root_element_mut().remove_all(&|n: &Node| n.is_comment());
    assert_eq!(doc.root_element().to_string(), "<r>\n  <a/>\n  <a>\n    <c/>\n  </a>\n</r>");
    let removed = doc.root_element_mut().remove_element(1).unwrap();
    assert_eq!(removed.name(), "a");
    assert_eq!(doc.root_element_mut().remove_elements(&|e: &Element| e.name() == "a"), 1);
    assert_eq!(doc.root_element().children().len(), 0);
}

#[test]
fn built_document_survives_a_round_trip() {
    let mut root = Element::new_with_attributes("catalog", vec![("xmlns", "urn:c"), ("xmlns:x", "urn:x"), ("id", "7 & <8>")]).unwrap();
    root.append(Comment::new("inventory").unwrap().boxed());
    root.append(Element::new_with_text("item", "a < b & 'c'").unwrap().boxed());
    root.append(Element::new("part", None, None, None, Some("x"), Some(vec![CData::new("<raw>").unwrap().boxed()])).unwrap().boxed());
    root.append(Element::new_from_name("para").unwrap().boxed());
    root.first_element_by_name_mut("para").unwrap().append_all(vec![
        Text::new("Hello ").boxed(),
        Element::new_with_text("b", "world").unwrap().boxed(),
        Text::new("!").boxed(),
    ]);
    let doc = Document::new(root);
    for indent in ["  ", "\t", "    "] {
        let text = doc.to_string_with_indent(indent);
        let again = kiss_xml::parse_str(&text).unwrap();
        assert_eq!(doc, again, "round trip changed the document:\n{}", text);
        assert_eq!(again.to_string_with_indent(indent), text);
    }
    let part = doc.root_element().first_element_by_name("part").unwrap();
    assert_eq!(part.namespace().unwrap(), "urn:x");
    assert_eq!(doc.root_element().first_element_by_name("item").unwrap().namespace().unwrap(), "urn:c");
}

#[test]
fn error_messages_carry_their_kind() {
    let e = kiss_xml::parse_str("plain").err().unwrap();
    assert_eq!(e.to_string(), "ParsingError: no XML content");
}

#[test]
fn recursive_element_removal_and_boxed_append() {
    let mut doc = kiss_xml::parse_str("<r><x/><k><x/><y><x/></y></k></r>").unwrap();
    let removed = doc.root_element_mut().remove_all_elements(&|e: &Element| e.name() == "x");
    assert_eq!(removed, 3);
    assert_eq!(doc.root_element().to_string(), "<r>\n  <k>\n    <y/>\n  </k>\n</r>");
    doc.root_element_mut().append_boxed(Box::new(Text::new("t").boxed()));
    assert_eq!(doc.root_element().children().len(), 2);
    assert_eq!(DomNodeType::TextNode.to_string(), "Text");
    assert_eq!(doc.root_element().children()[1].node_type().to_string(), "Text");
}

#[test]
fn document_settings() {
    let mut doc = Document::new_with_decl_dtd(Element::new_from_name("r").unwrap(), None, None);
    assert_eq!(doc.to_string(), "<r/>\n");
    doc.set_declaration(Declaration::new());
    doc.set_doctype_defs(Some(vec![DTD::from_string("<!DOCTYPE r>").unwrap()]));
    assert_eq!(doc.to_string(), "<?xml version=\"1.0\" encoding=\"UTF-8\"?>\n<!DOCTYPE r>\n<r/>\n");
    doc.set_doctype_defs(None);
    assert_eq!(doc.doctype_defs().len(), 0);
    doc.root_element_mut().set_text("hi");
    assert_eq!(doc.root_element().text(), "hi");
    doc.root_element_mut().set_text("   ");
    assert_eq!(doc.root_element().children().len(), 0);
}

#[test]
fn index_error_message_and_default_element() {
    let mut e = Element::default();
    assert_eq!(e.name(), "x");
    match e.remove_element(2) {
        Err(err) => assert_eq!(err.to_string(), "Index 2 is out of bounds (valid range: 0 - 0)"),
        Ok(_) => panic!("nothing to remove"),
    }
    match e.insert(3, Text::new("t").boxed()) {
        Err(err) => assert_eq!(err.to_string(), "Index 3 is out of bounds (valid range: 0 - 0)"),
        Ok(_) => panic!("index past the end"),
    }
}

#[test]
fn arena_pop_returns_to_parent() {
    let doc = kiss_xml::parse_str("<a><b><c/></b><d/></a>").unwrap();
    let names: Vec<String> = doc.root_element().child_elements().iter().map(|e| e.name()).collect();
    assert_eq!(names, vec!["b".to_string(), "d".to_string()]);
    let mut e = Element::new_from_name("p").unwrap();
    e.append(Element::new_from_name("q").unwrap().boxed());
    e.child_element_mut(0).unwrap().set_text("z");
    assert_eq!(e.to_string(), "<p>\n  <q>z</q>\n</p>");
    assert!(e.child_element_mut(1).is_err());
}

#[test]
fn located_errors() {
    for bad in ["<root><b:c/></root>", "<a>", "<a></a><b/>", "<a><b></a>", "<a>text</a>more<"] {
        match kiss_xml::parse_str(bad) {
            Err(KissXmlError::ParsingError(e)) => assert!(e.msg.contains("line") && e.msg.contains("column"), "{}: {}", bad, e.msg),
            other => panic!("{} should fail with a located parsing error, got {:?}", bad, other),
        }
    }
}
