use kiss_xml::dom::{clone_node, node_eq, CData, Comment, Element, Text};

#[test]
fn test_strings() {
    let mut e1 = Element::new_with_children(
        "tree", vec![Element::new_with_text("speak", "bark!").unwrap().boxed()]
    ).unwrap();
    let c1 = Comment::new("no comment").unwrap();
    let t1 = Text::new("bark! bark!");
    let mut e2 = Element::new_with_attributes_and_text("bob", vec![("a", "b")], "I'm Bob.").unwrap();
    e2.append(Element::new_with_text("greeting", "hi there!").unwrap().boxed());
    e1.append(e2.boxed());
    e1.append(c1.boxed());
    e1.append(Element::new_with_children("speak", vec![t1.boxed()]).unwrap().boxed());
    assert_eq!(
        e1.to_string().as_str(),
        r#"<tree>
  <speak>bark!</speak>
  <bob a="b">I'm Bob.<greeting>hi there!</greeting></bob>
  <!--no comment-->
  <speak>bark! bark!</speak>
</tree>"#,
        "incorrect string representation"
    );
}

#[test]
fn test_strings_inline() {
    let mut e1 = Element::new_with_text("tree", "bark!").unwrap();
    let c1 = Comment::new("no comment").unwrap();
    let t1 = Text::new("bark! bark!");
    let mut e2 = Element::new_with_attributes_and_text("bob", vec![("a", "b")], "I'm Bob.").unwrap();
    e2.append(Element::new_with_text("greeting", "hi there!").unwrap().boxed());
    e1.append(e2.boxed());
    e1.append(c1.boxed());
    e1.append(t1.boxed());
    assert_eq!(
        e1.to_string().as_str(),
        r#"<tree>bark!<bob a="b">I'm Bob.<greeting>hi there!</greeting></bob><!--no comment-->bark! bark!</tree>"#,
        "incorrect string representation"
    );
}

fn full_element(ns: &str) -> Element {
    Element::new(
        "tagname", Some("text"), Some(vec![("a", "1")]),
        Some(ns), Some("prefix"), Some(vec![
            Text::new("more text").boxed(),
            Comment::new("no comment").unwrap().boxed(),
            CData::new("<html><body>Correct HTML<br>is not valid XML</body></html>").unwrap().boxed(),
            Element::new_with_text("child", "yet more text").unwrap().boxed(),
        ])
    ).unwrap()
}

#[test]
fn test_node_eq() {
    assert!(node_eq(&Text::new("Bobalina").boxed(), &Text::new("Bobalina").boxed()), "incorrect comparison");
    assert!(!node_eq(&Text::new("Bob").boxed(), &Text::new("Bobalina").boxed()), "incorrect comparison");
    assert!(!node_eq(&Text::new("Bobalina").boxed(), &Comment::new("Bobalina").unwrap().boxed()), "incorrect comparison");
    assert!(node_eq(&Comment::new("Bobalina").unwrap().boxed(), &Comment::new("Bobalina").unwrap().boxed()), "incorrect comparison");
    assert!(!node_eq(&Comment::new("Billbalina").unwrap().boxed(), &Comment::new("Bobalina").unwrap().boxed()), "incorrect comparison");
    assert!(node_eq(&CData::new("Bobalina").unwrap().boxed(), &CData::new("Bobalina").unwrap().boxed()), "incorrect comparison");
    assert!(!node_eq(&CData::new("Bobalina").unwrap().boxed(), &CData::new("Ted").unwrap().boxed()), "incorrect comparison");
    assert!(node_eq(&full_element("http://some/xmlns").boxed(), &full_element("http://some/xmlns").boxed()), "incorrect comparison");
    assert!(!node_eq(&full_element("http://some/xmlns").boxed(), &full_element("http://other/xmlns").boxed()), "incorrect comparison");
    let short = Element::new(
        "tagname", Some("text"), Some(vec![("a", "1")]),
        Some("http://some/xmlns"), Some("prefix"), Some(vec![Text::new("more text").boxed()])
    ).unwrap();
    assert!(!node_eq(&short.boxed(), &full_element("http://some/xmlns").boxed()), "incorrect comparison");
}

#[test]
fn test_clone_node() {
    let xml = r#"<?xml version="1.0" encoding="UTF-8"?>
<root author="some dude">
	<!--comment-->
	<mydata>
		This is my data
		<properties>
			<property name="a" value="1"/>
			<property name="b" value="2"/>
		</properties>
		<meta>My metadata goes here</meta>
		<other>
			<![CDATA[<html><body>This is<br>not XML</body></html>]]>
		</other>
		<other/>
	</mydata>
</root>
"#;
    let dom = kiss_xml::parse_str(xml).unwrap();
    for n1 in dom.root_element().all_children() {
        let n2 = clone_node(n1);
        assert!(node_eq(n1, &n2), "cloned node not equal to original")
    }
}

#[test]
fn test_leading_trailing_text() {
    let xml1 = r#"<xhtml>
  <body>Linda <b>ran</b> to the store <i>to buy ☼ cookies</i> for the party</body>
</xhtml>
	"#;
    let doc = kiss_xml::parse_str(xml1).unwrap();
    let child_nodes = doc.root_element().first_element_by_name("body").unwrap().children();
    assert_eq!(child_nodes[0].text().as_str(), "Linda ", "Failed to preserve trailing space while parsing");
    assert_eq!(child_nodes[2].text().as_str(), " to the store ", "Failed to preserve leading space while parsing");
    let xml2 = doc.to_string();
    let doc2 = kiss_xml::parse_str(&xml2).unwrap();
    let child_nodes = doc2.root_element().first_element_by_name("body").unwrap().children();
    assert_eq!(doc, doc2, "Lost information in serialize/de-serialize cycle");
    assert_eq!(child_nodes[0].text().as_str(), "Linda ", "Failed to preserve trailing space after serialize/de-serialize cycle");
    assert_eq!(child_nodes[2].text().as_str(), " to the store ", "Failed to preserve leading after serialize/de-serialize cycle");
}
