use kiss_xml::dom::Node;

#[test]
fn test_content_escapes() {
    let xml = "<?xml version=\"1.0\" encoding=\"UTF-8\"?>\n<root>&lt;&gt;&amp;&quot;&apos;</root>\n";
    let dom = kiss_xml::parse_str(xml).expect("Error parsing XML");
    assert_eq!(dom.root_element().text().as_str(), "<>&\"'");
    assert_eq!(
        dom.to_string().as_str(),
        "<?xml version=\"1.0\" encoding=\"UTF-8\"?>\n<root>&lt;&gt;&amp;\"'</root>\n"
    );
}

#[test]
fn test_attribute_escapes() {
    let xml = "<?xml version=\"1.0\" encoding=\"UTF-8\"?>\n<root a=\"&lt;&gt;&amp;&quot;&apos;\"/>\n";
    let dom = kiss_xml::parse_str(xml).expect("Error parsing XML");
    assert_eq!(dom.root_element().get_attr("a").unwrap().as_str(), "<>&\"'");
    assert_eq!(dom.to_string().as_str(), xml);
}

#[test]
fn test_comment_escapes() {
    let xml = "<?xml version=\"1.0\" encoding=\"UTF-8\"?>\n<root><!-- &lt;&gt;&amp;&quot;&apos; --></root>\n";
    let dom = kiss_xml::parse_str(xml).expect("Error parsing XML");
    let first: &Node = &dom.root_element().children()[0];
    let comment = first.as_comment().unwrap();
    assert_eq!(comment.get_content(), " &lt;&gt;&amp;&quot;&apos; ");
    assert_eq!(dom.to_string().as_str(), xml);
}

#[test]
fn test_cdata_escapes() {
    let xml = "<?xml version=\"1.0\" encoding=\"UTF-8\"?>\n<root><![CDATA[<greeting>&lt;&gt;&amp;&quot;&apos;</greeting>]]></root>\n";
    let dom = kiss_xml::parse_str(xml).expect("Error parsing XML");
    let first: &Node = &dom.root_element().children()[0];
    let cdata = first.as_cdata().unwrap();
    assert_eq!(cdata.get_content(), "<greeting>&lt;&gt;&amp;&quot;&apos;</greeting>");
    assert_eq!(dom.to_string().as_str(), xml);
}
