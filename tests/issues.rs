use kiss_xml::dom::CData;

#[test]
fn test_issue_12() {
    let unsorted = r#"<root beta="1" alpha="2" xmlns:b="internal://b/b" xmlns="internal://a/b" xmlns:a="internal://a/a"/>"#;
    let sorted = r#"<root xmlns="internal://a/b" xmlns:a="internal://a/a" xmlns:b="internal://b/b" alpha="2" beta="1"/>"#;
    assert_eq!(
        kiss_xml::parse_str(unsorted).expect("failed to parse XML").to_string().as_str().trim(),
        sorted.trim(),
        "attributes are not sorted"
    );
}

#[test]
fn test_issue_17_parse() {
    let xml = r#"<?xml version="1.0" encoding="UTF-8"?>
<root>
	<!--comment-->
	<properties>
		<property name="a" value="1"/>
	</properties>
	<mydata><![CDATA[<html><body>This is not<br>XML</body></html>]]></mydata>
</root>
"#;
    let dom = kiss_xml::parse_str(xml).unwrap();
    let mydata_elem = dom.root_element().first_element_by_name("mydata").unwrap();
    let cdata_node = &mydata_elem.children()[0];
    assert!(cdata_node.is_cdata(), "<![CDATA[...]]> not parsed as CDATA");
    assert_eq!(
        cdata_node.as_cdata().unwrap().text(),
        "<html><body>This is not<br>XML</body></html>",
        "CDATA content not kept"
    );
    assert_eq!(dom.to_string_with_indent("\t").as_str(), xml, "CDATA not written back");
}

#[test]
fn test_issue_17_modify() {
    let xml = r#"<?xml version="1.0" encoding="UTF-8"?>
<root>
	<!--comment-->
	<properties>
		<property name="a" value="1"/>
	</properties>
	<mydata/>
</root>
"#;
    let mut dom = kiss_xml::parse_str(xml).unwrap();
    let mydata_elem = dom.root_element_mut().first_element_by_name_mut("mydata").unwrap();
    mydata_elem.append(CData::new("<html><body>This is not<br>XML</body></html>").unwrap().boxed());
    assert_eq!(
        dom.to_string_with_indent("\t").as_str(),
        r#"<?xml version="1.0" encoding="UTF-8"?>
<root>
	<!--comment-->
	<properties>
		<property name="a" value="1"/>
	</properties>
	<mydata><![CDATA[<html><body>This is not<br>XML</body></html>]]></mydata>
</root>
"#,
        "CDATA not written"
    );
}

#[test]
fn test_issue_21_panic() {
    let xml = r#"
<property =
<property />
"#;
    let result = kiss_xml::parse_str(xml);
    assert!(result.is_err());
    println!("{:?}", result.err());
}

#[test]
fn test_issue_26_panic() {
    let xml = r#"
<properties />
"#;
    let mut dom = kiss_xml::parse_str(xml).unwrap();
    let element: &mut kiss_xml::dom::Element = dom.root_element_mut();
    let result = element.remove_element(0);
    assert!(result.is_err());
    println!("{:?}", result.err());
}
