use kiss_xml::dom::{Document, Element};

#[test]
fn example1_example1() {
    let xml = r#"<?xml version="1.0" encoding="UTF-8"?>
<config>
	<name>My Settings</name>
	<sound>
		<property name="volume" value="11" />
		<property name="mixer" value="standard" />
	</sound>
</config>
"#;
    let dom = kiss_xml::parse_str(xml).expect("Error parsing XML");
    println!("Parsed:\n{}", dom.to_string());
    for e in dom.root_element().child_elements() {
        println!("child element <{}>", e.name())
    }
    for e in dom.root_element().search_elements(|_| true) {
        println!("found element <{}>", e.name())
    }
    let properties = dom.root_element()
        .first_element_by_name("sound").expect("No <sound> element")
        .elements_by_name("property");
    for prop in properties {
        println!(
            "{} = {}",
            prop.get_attr("name").expect("missing name attribute"),
            prop.get_attr("value").expect("missing value attribute")
        );
    }
}

#[test]
fn example2_example1() {
    let xml = r#"<?xml version="1.0" encoding="UTF-8" standalone="no"?>
<!-- Blue triangle SVG graphic -->
<svg width="100" height="100" viewBox="0 0 100 100" xmlns="http://www.w3.org/2000/svg">
  <g id="layer1">
    <path style="fill:#00a6c2;fill-opacity:1;stroke:none"
       d="M 3,58 57,11 42,64 Z" id="triangle" />
  </g>
</svg>"#;
    let mut doc = kiss_xml::parse_str(xml).expect("Error parsing XML");
    doc.root_element_mut()
        .first_element_by_name_mut("g").expect("no <g> element found")
        .append(Element::new_with_attributes("path", vec![
            ("style", "fill:#ff0000;fill-opacity:0.5;stroke:none"),
            ("d", "M 25,25 25,75 75,75, 75,25 Z"),
            ("id", "square"),
        ]).unwrap().boxed());
    println!("{}", doc.to_string())
}

#[test]
fn example3() {
    let mut doc = Document::new(Element::new_from_name("politicians").unwrap());
    doc.root_element_mut().append(Element::new_with_text("person", "Hillary Clinton").unwrap().boxed());
    doc.root_element_mut().append(Element::new_with_text("person", "Bob Dole").unwrap().boxed());
    println!("{}", doc.root_element().to_string());
}
