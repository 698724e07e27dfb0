#[test]
fn test_unclosed_root() {
    assert!(kiss_xml::parse_str(
        r#"<?xml version="1.0" encoding="UTF-8"?>
<config>
	<name>My Settings</name>
	<sound>
		<property name="volume" value="11" />
		<property name="mixer" value="standard" />
	</sound>
<config>
"#
    ).is_err(),
    "Should have errored due to unclosed root element"
    )
}
