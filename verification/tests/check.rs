use xmip_core_contract_xml_schema::check::{check, child_path, is_date, is_time, value};
use xmip_core_contract_xml_schema::contract::ValidationIssue;
use xmip_core_contract_xml_schema::schema::{Element, Kind, Schema};
use xmip_core_contract_xml_schema::xml::parse_document;

fn issues(schema: &str, document: &str) -> Vec<(String, String)> {
    let schema = Schema::parse(schema).ok().expect("schema");
    let document = parse_document(document).ok().expect("document");
    check(&schema, &document)
        .into_iter()
        .map(|i| (i.code, i.path.unwrap_or_default()))
        .collect()
}

const XS: &str = r#"xmlns:xs="http://www.w3.org/2001/XMLSchema""#;

#[test]
fn a_choice_wants_exactly_one_branch() {
    let schema = format!(
        r#"<xs:schema {XS}><xs:element name="p"><xs:complexType><xs:choice>
        <xs:element name="a" type="xs:string"/><xs:element name="b" type="xs:string"/>
        </xs:choice></xs:complexType></xs:element></xs:schema>"#
    );
    assert!(issues(&schema, "<p><a/></p>").is_empty());
    assert_eq!(issues(&schema, "<p/>")[0].0, "occurs");
    assert_eq!(issues(&schema, "<p><a/><b/></p>")[0].0, "content");
}

#[test]
fn all_admits_any_order_and_bounds_each() {
    let schema = format!(
        r#"<xs:schema {XS}><xs:element name="p"><xs:complexType><xs:all>
        <xs:element name="a" type="xs:int"/><xs:element name="b" type="xs:int"/>
        </xs:all></xs:complexType></xs:element></xs:schema>"#
    );
    assert!(issues(&schema, "<p><b>1</b><a>2</a></p>").is_empty());
    let twice = issues(&schema, "<p><a>1</a><a>2</a><b>3</b></p>");
    assert_eq!(twice, [("occurs".to_string(), "/p/a".to_string())]);
}

#[test]
fn an_undeclared_root_and_an_undeclared_type_are_named() {
    let schema = format!(r#"<xs:schema {XS}><xs:element name="p" type="Missing"/></xs:schema>"#);
    assert_eq!(issues(&schema, "<q/>"), [("root".to_string(), "/q".to_string())]);
    assert_eq!(issues(&schema, "<p/>"), [("type".to_string(), "/p".to_string())]);
}

#[test]
fn built_in_values_are_checked_lexically() {
    let mut out: Vec<ValidationIssue> = Vec::new();
    value("date", "2026-09-07", "/d", &mut out);
    value("dateTime", "2026-09-07T13:45:00Z", "/dt", &mut out);
    value("time", "13:45:00", "/t", &mut out);
    value("boolean", "true", "/b", &mut out);
    value("decimal", "-1.50", "/n", &mut out);
    value("customType", "anything", "/c", &mut out);
    assert!(out.is_empty(), "{}", out.len());
    value("date", "7/9/2026", "/d", &mut out);
    value("positiveInteger", "0", "/p", &mut out);
    value("boolean", "yes", "/b", &mut out);
    assert_eq!(out.len(), 3);
}

fn messages(schema: &str, document: &str) -> Vec<(String, String, String)> {
    let schema = Schema::parse(schema).ok().expect("schema");
    let document = parse_document(document).ok().expect("document");
    check(&schema, &document)
        .into_iter()
        .map(|i| (i.code, i.message, i.path.unwrap_or_default()))
        .collect()
}

#[test]
fn value_messages_quote_the_trimmed_text() {
    let mut out: Vec<ValidationIssue> = Vec::new();
    value("int", "  x\"y \n", "/n", &mut out);
    assert_eq!(out.len(), 1);
    assert_eq!(out[0].code, "value");
    assert_eq!(out[0].message, "\"x\\\"y\" is not an xs:int");
    assert_eq!(out[0].path.as_deref(), Some("/n"));
}

#[test]
fn integer_types_follow_their_ranges() {
    let mut out: Vec<ValidationIssue> = Vec::new();
    value("long", "-9223372036854775808", "/a", &mut out);
    value("long", "+9223372036854775807", "/a", &mut out);
    value("unsignedLong", "18446744073709551615", "/a", &mut out);
    value("negativeInteger", "-1", "/a", &mut out);
    value("nonPositiveInteger", "0", "/a", &mut out);
    value("positiveInteger", "+7", "/a", &mut out);
    assert!(out.is_empty());
    value("long", "9223372036854775808", "/a", &mut out);
    value("unsignedLong", "18446744073709551616", "/a", &mut out);
    value("unsignedInt", "-0", "/a", &mut out);
    value("int", "+", "/a", &mut out);
    value("int", "", "/a", &mut out);
    value("negativeInteger", "0", "/a", &mut out);
    value("nonPositiveInteger", "1", "/a", &mut out);
    assert_eq!(out.len(), 7);
}

#[test]
fn floats_follow_the_documented_grammar() {
    let mut out: Vec<ValidationIssue> = Vec::new();
    for text in ["1", "-1.", ".5", "1e10", "1.5E-3", "inf", "-Infinity", "NaN", "+nan", "INF"] {
        value("double", text, "/f", &mut out);
    }
    for text in ["1", "-1.50", "2.e+4", "+Inf"] {
        value("decimal", text, "/f", &mut out);
    }
    assert!(out.is_empty(), "{}", out.len());
    for text in [".", "e5", "1e", "1.2.3", "1_0", "0x10", "in"] {
        value("float", text, "/f", &mut out);
    }
    value("decimal", "nan", "/f", &mut out);
    value("decimal", "NaN", "/f", &mut out);
    assert_eq!(out.len(), 9);
}

#[test]
fn dates_and_times_are_read_from_their_start() {
    assert!(is_date("2026-09-07"));
    assert!(is_date("2026-09-07+02:00"));
    assert!(!is_date("2026-9-07"));
    assert!(!is_date("-2026-09-07"));
    assert!(is_time("13:45:00.5Z"));
    assert!(!is_time("13:45"));
    assert!(!is_time("1:45:00"));
    let mut out: Vec<ValidationIssue> = Vec::new();
    value("dateTime", "2026-09-07 13:45:00", "/dt", &mut out);
    value("dateTime", "2026-09-07T1:45:00", "/dt", &mut out);
    assert_eq!(out.len(), 2);
}

#[test]
fn a_repeating_element_carries_its_ordinal_in_the_path() {
    let repeats = Element { name: "line".to_string(), kind: Kind::Any, min: 1, max: None };
    let single = Element { name: "qty".to_string(), kind: Kind::Any, min: 1, max: Some(1) };
    let bounded = Element { name: "note".to_string(), kind: Kind::Any, min: 0, max: Some(3) };
    assert_eq!(child_path("/order", &repeats, 2), "/order/line[2]");
    assert_eq!(child_path("/order", &single, 1), "/order/qty");
    assert_eq!(child_path("/order", &bounded, 12), "/order/note[12]");
}

#[test]
fn a_sequence_takes_runs_in_order_and_reports_the_rest() {
    let schema = format!(
        r#"<xs:schema {XS}><xs:element name="p"><xs:complexType><xs:sequence>
        <xs:element name="a" maxOccurs="2"/><xs:element name="b" minOccurs="2" maxOccurs="unbounded"/>
        </xs:sequence></xs:complexType></xs:element></xs:schema>"#
    );
    assert!(messages(&schema, "<p><a/><b/><b/><b/></p>").is_empty());
    assert_eq!(
        messages(&schema, "<p><a/><a/><a/><b/></p>"),
        [
            (
                "occurs".to_string(),
                "occurs 0 times, at least 2 required".to_string(),
                "/p/b".to_string()
            ),
            ("content".to_string(), "element is not expected here".to_string(), "/p/a".to_string()),
            ("content".to_string(), "element is not expected here".to_string(), "/p/b".to_string()),
        ]
    );
}

#[test]
fn an_all_names_its_bounds_in_the_message() {
    let schema = format!(
        r#"<xs:schema {XS}><xs:element name="p"><xs:complexType><xs:all>
        <xs:element name="a" type="xs:int"/><xs:element name="b" type="xs:int" minOccurs="0"/>
        </xs:all></xs:complexType></xs:element></xs:schema>"#
    );
    assert_eq!(
        messages(&schema, "<p><a>1</a><a>x</a><c/></p>"),
        [
            ("value".to_string(), "\"x\" is not an xs:int".to_string(), "/p/a".to_string()),
            (
                "occurs".to_string(),
                "occurs 2 times, at most 1 allowed".to_string(),
                "/p/a".to_string()
            ),
            ("content".to_string(), "element is not expected here".to_string(), "/p/c".to_string()),
        ]
    );
}

#[test]
fn a_choice_names_its_branches() {
    let schema = format!(
        r#"<xs:schema {XS}><xs:element name="p"><xs:complexType><xs:choice>
        <xs:element name="a"/><xs:element name="b"/><xs:element name="c"/>
        </xs:choice></xs:complexType></xs:element></xs:schema>"#
    );
    assert_eq!(
        messages(&schema, "<p/>"),
        [("occurs".to_string(), "one of a, b, c is required".to_string(), "/p".to_string())]
    );
    assert_eq!(
        messages(&schema, "<p><c/><a/></p>"),
        [("content".to_string(), "only one of a, c may appear".to_string(), "/p".to_string())]
    );
    assert_eq!(
        messages(&schema, "<p><b/><x/></p>"),
        [
            ("content".to_string(), "element is not expected here".to_string(), "/p/x".to_string()),
            ("content".to_string(), "element is not expected here".to_string(), "/p/x".to_string()),
        ]
    );
}

#[test]
fn attributes_are_declared_typed_and_required() {
    let schema = format!(
        r#"<xs:schema {XS}><xs:element name="p"><xs:complexType>
        <xs:attribute name="n" type="xs:int" use="required"/><xs:attribute name="d" type="xs:date"/>
        </xs:complexType></xs:element></xs:schema>"#
    );
    let xsi = r#"xmlns:xsi="http://www.w3.org/2001/XMLSchema-instance""#;
    assert!(messages(&schema, &format!(r#"<p {xsi} n="4" xsi:type="x"/>"#)).is_empty());
    assert_eq!(
        messages(&schema, r#"<p d="soon" z="1"><c/></p>"#),
        [
            (
                "attribute".to_string(),
                "required attribute is missing".to_string(),
                "/p/@n".to_string()
            ),
            ("value".to_string(), "\"soon\" is not an xs:date".to_string(), "/p/@d".to_string()),
            ("attribute".to_string(), "attribute is not declared".to_string(), "/p/@z".to_string()),
            ("content".to_string(), "no child element is allowed here".to_string(), "/p/c".to_string()),
        ]
    );
}

#[test]
fn simple_content_checks_the_text_and_its_attributes() {
    let schema = format!(
        r#"<xs:schema {XS}><xs:element name="price"><xs:complexType><xs:simpleContent>
        <xs:extension base="xs:decimal"><xs:attribute name="currency" use="required"/></xs:extension>
        </xs:simpleContent></xs:complexType></xs:element></xs:schema>"#
    );
    assert!(messages(&schema, r#"<price currency="SEK"> 12.50 </price>"#).is_empty());
    assert_eq!(
        messages(&schema, "<price>cheap</price>"),
        [
            (
                "attribute".to_string(),
                "required attribute is missing".to_string(),
                "/price/@currency".to_string()
            ),
            ("value".to_string(), "\"cheap\" is not an xs:decimal".to_string(), "/price".to_string()),
        ]
    );
}

#[test]
fn the_root_issue_names_the_element() {
    let schema = format!(r#"<xs:schema {XS}><xs:element name="p"/></xs:schema>"#);
    assert_eq!(
        messages(&schema, "<q><anything/></q>"),
        [("root".to_string(), "element q is not declared".to_string(), "/q".to_string())]
    );
    assert!(messages(&schema, "<p><anything/></p>").is_empty());
}

#[test]
fn an_all_holds_whatever_the_order_of_its_children() {
    let schema = format!(
        r#"<xs:schema {XS}><xs:element name="p"><xs:complexType><xs:all>
        <xs:element name="a" type="xs:int"/><xs:element name="b" type="xs:int" minOccurs="0"/>
        <xs:element name="c" type="xs:string"/>
        </xs:all></xs:complexType></xs:element></xs:schema>"#
    );
    for document in ["<p><a>1</a><b>2</b><c/></p>", "<p><c/><b>2</b><a>1</a></p>", "<p><b>2</b><c/><a>1</a></p>"] {
        assert!(issues(&schema, document).is_empty(), "{document}");
    }
    for document in ["<p><a>x</a><c/></p>", "<p><c/><a>x</a></p>"] {
        assert_eq!(issues(&schema, document), [("value".to_string(), "/p/a".to_string())], "{document}");
    }
    for document in ["<p><a>1</a><d/><c/></p>", "<p><d/><c/><a>1</a></p>"] {
        assert_eq!(issues(&schema, document), [("content".to_string(), "/p/d".to_string())], "{document}");
    }
}

#[test]
fn reordering_an_all_keeps_its_issues() {
    let schema = format!(
        r#"<xs:schema {XS}><xs:element name="p"><xs:complexType><xs:all>
        <xs:element name="a" type="xs:int" maxOccurs="3"/><xs:element name="b" type="xs:int"/>
        </xs:all></xs:complexType></xs:element></xs:schema>"#
    );
    let mut first = issues(&schema, "<p><a>x</a><d/><b>y</b><a>1</a><e/></p>");
    let mut second = issues(&schema, "<p><e/><b>y</b><a>x</a><a>1</a><d/></p>");
    assert_eq!(first.len(), 4);
    assert_ne!(first, second);
    first.sort();
    second.sort();
    assert_eq!(first, second);
    assert!(first.contains(&("value".to_string(), "/p/a[1]".to_string())));
    assert!(first.contains(&("value".to_string(), "/p/b".to_string())));
}

#[test]
fn a_choice_of_several_checks_none_of_them() {
    let schema = format!(
        r#"<xs:schema {XS}><xs:element name="p"><xs:complexType><xs:choice>
        <xs:element name="a" type="xs:int"/><xs:element name="b" type="xs:int"/>
        </xs:choice></xs:complexType></xs:element></xs:schema>"#
    );
    let found = messages(&schema, "<p><a>x</a><b>y</b><c/></p>");
    assert_eq!(
        found,
        [
            ("content".to_string(), "only one of a, b may appear".to_string(), "/p".to_string()),
            ("content".to_string(), "element is not expected here".to_string(), "/p/c".to_string()),
        ]
    );
    let one = messages(&schema, "<p><b>y</b></p>");
    assert_eq!(one, [("value".to_string(), "\"y\" is not an xs:int".to_string(), "/p/b".to_string())]);
}
