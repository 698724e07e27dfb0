const FULLY_FEATURED_XML: &str = r#"<?xml version="1.0" encoding="UTF-8" standalone="no"?>
<!-- This comment is not allowed and will be ignored -->
<!ENTITY nbsp "&#xA0;">
<!ENTITY copyright "Copyright: Public domain.">
<svg width="100" height="100" viewBox="0 0 100 100" xmlns="http://www.w3.org/2000/svg" xmlns:doc="internal://ns/a">
<!-- Blue triangle SVG graphic -->
  <g id="layer1">
    <path style="fill:#00a6c2;fill-opacity:1;stroke:none"
       d="M 3,58 57,11 42,64 Z" id="triangle" />
    <doc:note>blue triangle</doc:note>
  </g>
</svg>"#;

const TOKENS: [&str; 16] = [
    "<", ">", "a", "xmlns:", ":", "\"", "=", "&", ";", "-", "!", "/", "<a ", "</a>", "<!--", "-->",
];

#[test]
fn test_no_panic_truncate() {
    for i in 0..FULLY_FEATURED_XML.len() {
        if !FULLY_FEATURED_XML.is_char_boundary(i) {
            continue;
        }
        let _ = kiss_xml::parse_str(&FULLY_FEATURED_XML[i..]);
        let _ = kiss_xml::parse_str(&FULLY_FEATURED_XML[0..i]);
    }
}

#[test]
fn test_no_panic_del_char() {
    for i in 0..FULLY_FEATURED_XML.len() - 1 {
        let mut xml = String::new();
        xml.push_str(&FULLY_FEATURED_XML[0..i]);
        xml.push_str(&FULLY_FEATURED_XML[i + 1..]);
        let _ = kiss_xml::parse_str(&xml);
    }
}

#[test]
fn test_no_panic_token_permutations() {
    let num_tokens = 4u32;
    for count in 1..=num_tokens {
        for i in 0..TOKENS.len().pow(count) {
            let mut tmp_i = i;
            let mut buffer = String::new();
            for _ in 0..count {
                buffer.push_str(TOKENS[tmp_i % TOKENS.len()]);
                tmp_i /= TOKENS.len();
            }
            let _ = kiss_xml::parse_str(&buffer);
        }
    }
}

#[test]
fn test_full_document_parses() {
    let doc = kiss_xml::parse_str(FULLY_FEATURED_XML).unwrap();
    assert_eq!(doc.root_element().name(), "svg");
    let g = doc.root_element().first_element_by_name("g").unwrap();
    let note = g.first_element_by_name("note").unwrap();
    assert_eq!(note.namespace().unwrap(), "internal://ns/a");
    assert_eq!(note.namespace_prefix().unwrap(), "doc");
}
