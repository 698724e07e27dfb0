use kiss_xml::dom::{Comment, Element, Node, Text};

fn sample_xml_2() -> &'static str {
    r#"<?xml version="1.0" encoding="UTF-8"?>
<root author="some dude">
	<!--comment-->
	<mydata>
		This is my data
		<properties>
			<property name="a" value="1" />
			<property name="b" value="2" />
		</properties>
		<meta>
			My metadata goes here
		</meta>
		<other/>
		<other/>
	</mydata>
</root>"#
}

fn sample_xml_3() -> &'static str {
    r#"<?xml version="1.0" encoding="UTF-8"?>
<root xmlns="internal://ns/a">
	<width>200</width>
	<height>150</height>
</root>"#
}

#[test]
fn test_display() {
    let doc = kiss_xml::parse_str(sample_xml_2()).unwrap();
    println!("Document:\n{}\n\n", doc.to_string());
    println!("Root Element:\n{}\n\n", doc.root_element().to_string());
}

#[test]
fn test_debug_display() {
    let doc = kiss_xml::parse_str(sample_xml_2()).unwrap();
    println!("Document:\n{:?}\n\n", doc);
    println!("Root Element:\n{:?}\n\n", doc.root_element());
}

#[test]
fn test_namespaces_1() {
    let mut doc = kiss_xml::parse_str(sample_xml_3()).unwrap();
    assert_eq!(doc.root_element().namespace().unwrap(), "internal://ns/a", "XML namespace not correctly parsed");
    assert!(doc.root_element().namespace_prefix().is_none(), "XML namespace prefix not correctly parsed");
    assert_eq!(doc.root_element().first_element_by_name("width").unwrap().namespace().unwrap(), "internal://ns/a", "XML namespace not correctly parsed");
    assert_eq!(doc.root_element().first_element_by_name("height").unwrap().namespace().unwrap(), "internal://ns/a", "XML namespace not correctly parsed");
    assert_eq!(doc.root_element().elements_by_namespace(Some("internal://ns/a")).len(), 2, "XML namespace not correctly inherited");
    doc.root_element_mut().append(Element::new("depth", Some("50"), None, None, None, None).unwrap().boxed());
    assert_eq!(doc.root_element().first_element_by_name("depth").unwrap().namespace().unwrap(), "internal://ns/a", "XML namespace not correctly inherited");
    assert!(doc.root_element().first_element_by_name("depth").unwrap().namespace_prefix().is_none(), "XML namespace prefix not correctly inherited");
}

fn sample_xml_1() -> &'static str {
    r#"<?xml version="1.0" encoding="UTF-8"?>
<!DOCTYPE note [
<!ENTITY ignore "kiss-xml ignores DOCTYPE stuff">
<!ENTITY nbsp "&#xA0;">
<!ENTITY writer "Writer: Donald Duck.">
<!ENTITY copyright "Copyright: W3Schools.">
]>
<note>
	<!-- Note: commented out the following elements:
	<region>somewhere</region>
	<language>ISL-2108</language>
	-->
	<to>Tove</to>
	<from>Jani</from>
	<heading>Reminder</heading>
	<paragraph>Don't forget <b>me</b> this weekend!</paragraph>
	<paragraph> - Jani</paragraph>
	<footer>&writer;&nbsp;&copyright;</footer>
	<signed signer="Jani Jane"/>
</note>
"#
}

fn sample_xml_4() -> &'static str {
    r#"<?xml version="1.0" encoding="UTF-8"?>
<root xmlns:img="internal://ns/a" xmlns:dim="internal://ns/b">
	<width>200</width>
	<height>150</height>
	<depth>50</depth>
	<img:width>200</img:width>
	<img:height>150</img:height>
	<dim:width>200</dim:width>
</root>"#
}

#[test]
fn test_xml_escapes() {
    let unescaped = r#"&<>'""#;
    let escaped = "&amp;&lt;&gt;&apos;&quot;";
    let escaped_text = r#"&amp;&lt;&gt;'""#;
    assert_eq!(kiss_xml::escape(unescaped), escaped, "Incorrect escaping of XML reserved characters");
    assert_eq!(kiss_xml::unescape(escaped), unescaped, "Incorrect unescaping of XML reserved characters");
    assert_eq!(kiss_xml::text_escape(unescaped), escaped_text, "Incorrect escaping of XML reserved characters");
    assert_eq!(kiss_xml::attribute_escape(unescaped), escaped, "Incorrect escaping of XML reserved characters");
}

#[test]
fn test_dom_parsing() {
    let doc = kiss_xml::parse_str(sample_xml_1()).unwrap();
    assert_eq!(doc.root_element().name().as_str(), "note", "Root element <note> missing from document");
    assert!(doc.declaration().is_some(), "XML declaration not detected in the XML file");
    assert_eq!(doc.doctype_defs().len(), 1, "XML DTD not detected in the XML file");
    let root = doc.root_element();
    assert_eq!(root.child_elements().len(), 7, "Wrong number of child elements found in DOM");
    assert_eq!(root.children().len(), 8, "Wrong number of child nodes found in DOM (should be 8: 1 comment and 7 elements)");
    assert_eq!(root.children().iter().filter(|n| n.is_element()).count(), 7, "Wrong number of element nodes found in root child nodes");
    assert_eq!(root.children().iter().filter(|n| n.is_comment()).count(), 1, "Wrong number of comment nodes found in root child nodes");
    assert_eq!(root.children().iter().filter(|n| n.is_text()).count(), 0, "Wrong number of text nodes found in root child nodes");
    assert_eq!(root.first_element_by_name("to").unwrap().text().as_str(), "Tove", "content of <to> is wrong");
    assert_eq!(root.elements_by_name("paragraph").len(), 2, "Wrong number of <paragraph> elements found in DOM");
    let p1 = root.first_element_by_name("paragraph").unwrap();
    assert_eq!(p1.text().as_str(), "Don't forget me this weekend!", "content of first <paragraph> is wrong");
    assert_eq!(p1.children()[0].text().as_str(), "Don't forget ", "content of first <paragraph> first node is wrong");
    assert_eq!(p1.children().len(), 3, "First <paragraph> should have 3 nodes: text, element, text");
    assert_eq!(root.elements_by_name("paragraph")[1].text().as_str(), " - Jani", "content of second <paragraph> is wrong");
    assert_eq!(root.first_element_by_name("signed").unwrap().get_attr("signer").unwrap(), "Jani Jane", "Attribute 'signer' of <signed> should be 'Jani Jane'");
    assert!(root.first_element_by_name("signed").unwrap().get_attr("nonexistant").is_none(), "<signed> should not have attribute 'nonexistant'");
    assert_eq!(root.search(|_: &Node| true).len(), 17, "Wrong number of nodes found in recursive search of root element");
    assert_eq!(root.search(|n: &Node| n.is_text()).len(), 8, "Wrong number of text nodes found in recursive search of root element");
    assert!(root.first_element_by_name("b").is_err(), "<b> is not a child of the root element (is grand-child)");
    assert_eq!(root.search_elements_by_name("b").len(), 1, "Did not find <b> in recursive search");
    assert_eq!(root.search_elements_by_name("b")[0].text(), "me", "Did not find text for <b> in recursive search");
    assert_eq!(root.search_elements(|e| e.name() == "b").len(), 1, "Did not find <b> in recursive search");
    assert_eq!(root.search_text(|t: &Text| t.content.contains("weekend"))[0].text().as_str(), " this weekend!", "Did not find ' this weekend!' in recursive text search");
    assert_eq!(root.search_comments(|c: &Comment| c.get_content().contains("Note:")).len(), 1, "Did not find comment in recursive search");
    assert_eq!(root.search_comments(|c: &Comment| c.get_content().contains("this does not exist")).len(), 0, "Found non-existent comment in recursive search");
}

#[test]
fn test_namespaces_2() {
    let doc = kiss_xml::parse_str(sample_xml_4()).unwrap();
    assert!(doc.root_element().namespace().is_none(), "XML namespace not correctly parsed");
    assert_eq!(doc.root_element().elements_by_namespace(None).len(), 3, "XML namespace not correctly parsed");
    assert_eq!(doc.root_element().elements_by_namespace_prefix(Some("img")).len(), 2, "XML namespace not correctly parsed");
    assert_eq!(doc.root_element().elements_by_namespace_prefix(Some("dim")).len(), 1, "XML namespace not correctly parsed");
    assert_eq!(doc.root_element().elements_by_namespace(Some("internal://ns/a")).len(), 2, "XML namespace not correctly parsed");
    assert_eq!(doc.root_element().elements_by_namespace(Some("internal://ns/b")).len(), 1, "XML namespace not correctly parsed");
    let expected = r#"<?xml version="1.0" encoding="UTF-8"?>
<root xmlns:dim="internal://ns/b" xmlns:img="internal://ns/a">
	<width>200</width>
	<height>150</height>
	<depth>50</depth>
	<img:width>200</img:width>
	<img:height>150</img:height>
	<dim:width>200</dim:width>
</root>
"#;
    assert_eq!(doc.to_string_with_indent("\t").as_str(), expected, "XML not regenerated correctly");
}
