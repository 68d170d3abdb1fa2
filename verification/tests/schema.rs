use xmip_core_contract_xml_schema::schema::{Content, Kind, Schema};
use xmip_core_contract_xml_schema::text::local_name;

#[test]
fn a_schema_outside_the_subset_is_refused_by_name() {
    let text = r#"<xs:schema xmlns:xs="http://www.w3.org/2001/XMLSchema">
  <xs:element name="a"><xs:complexType><xs:sequence>
    <xs:group ref="g"/>
  </xs:sequence></xs:complexType></xs:element>
</xs:schema>"#;
    let error = Schema::parse(text).err().expect("refused");
    assert!(error.message.contains("xs:group"), "{}", error.message);
}

#[test]
fn a_named_simple_type_resolves_to_its_base() {
    let text = r#"<xs:schema xmlns:xs="http://www.w3.org/2001/XMLSchema">
  <xs:element name="n" type="Count"/>
  <xs:simpleType name="Count"><xs:restriction base="xs:positiveInteger"/></xs:simpleType>
</xs:schema>"#;
    let schema = Schema::parse(text).ok().expect("parses");
    match &schema.declared_element("n").expect("declared").kind {
        Kind::Builtin(base) => assert_eq!(base, "positiveInteger"),
        _ => panic!("expected a built-in"),
    }
}

#[test]
fn a_document_that_is_not_a_schema_is_refused() {
    assert!(Schema::parse("<order/>").is_err());
    assert!(Schema::parse("<broken").is_err());
}

#[test]
fn refusals_name_what_was_refused() {
    let xs = r#"xmlns:xs="http://www.w3.org/2001/XMLSchema""#;
    let refused = |text: &str| Schema::parse(text).err().expect("refused").message;
    assert_eq!(refused("<order/>"), "schema refused: the document root is not xs:schema");
    assert_eq!(
        refused(&format!(r#"<xs:schema {xs}><xs:import/></xs:schema>"#)),
        "schema refused: xs:import is not supported"
    );
    assert_eq!(
        refused(&format!(r#"<xs:schema {xs}><xs:element ref="a"/></xs:schema>"#)),
        "schema refused: xs:element ref is not supported"
    );
    assert_eq!(
        refused(&format!(r#"<xs:schema {xs}><xs:complexType/></xs:schema>"#)),
        "schema refused: xs:complexType without name"
    );
    assert_eq!(
        refused(&format!(r#"<xs:schema {xs}><xs:simpleType/></xs:schema>"#)),
        "schema refused: xs:simpleType without name"
    );
    assert_eq!(
        refused(&format!(
            r#"<xs:schema {xs}><xs:complexType name="t"><xs:complexContent/></xs:complexType></xs:schema>"#
        )),
        "schema refused: xs:complexContent is not supported"
    );
    assert_eq!(
        refused(&format!(
            r#"<xs:schema {xs}><xs:complexType name="t"><xs:simpleContent/></xs:complexType></xs:schema>"#
        )),
        "schema refused: xs:simpleContent without extension"
    );
    assert!(refused("<broken").starts_with("schema refused: "));
}

#[test]
fn declarations_keep_their_occurrence_bounds_and_types() {
    let text = r#"<xs:schema xmlns:xs="http://www.w3.org/2001/XMLSchema" targetNamespace="urn:t">
  <xs:element name="order"><xs:complexType><xs:sequence>
    <xs:element name="id" type="xs:string"/>
    <xs:element name="line" type="p:Line" minOccurs="0" maxOccurs="unbounded"/>
    <xs:element name="note"/>
  </xs:sequence><xs:attribute name="currency" use="required"/><xs:attribute type="xs:int"/></xs:complexType></xs:element>
  <xs:complexType name="Line"><xs:sequence><xs:element name="sku"/></xs:sequence></xs:complexType>
</xs:schema>"#;
    let schema = Schema::parse(text).ok().expect("parses");
    assert_eq!(schema.target_namespace(), Some("urn:t"));
    assert!(schema.declared_type("Line").is_some());
    assert!(schema.declared_type("p:Line").is_none());
    let order = schema.declared_element("order").expect("order");
    let Kind::Inline(complex) = &order.kind else { panic!("inline") };
    assert_eq!(complex.attributes.len(), 1);
    assert_eq!(complex.attributes[0].name, "currency");
    assert!(complex.attributes[0].required);
    assert_eq!(complex.attributes[0].builtin, "string");
    let Content::Sequence(particles) = &complex.content else { panic!("sequence") };
    assert_eq!(particles.len(), 3);
    assert_eq!((particles[0].min, particles[0].max), (1, Some(1)));
    assert!(matches!(&particles[0].kind, Kind::Builtin(b) if b == "string"));
    assert_eq!((particles[1].min, particles[1].max), (0, None));
    assert!(matches!(&particles[1].kind, Kind::Named(n) if n == "Line"));
    assert_eq!((particles[2].min, particles[2].max), (1, Some(1)));
    assert!(matches!(particles[2].kind, Kind::Any));
    assert!(matches!(schema.kind_of("xs:gYear"), Kind::Builtin(b) if b == "gYear"));
    assert_eq!(schema.builtin_of("q:whatever"), "whatever");
}

#[test]
fn a_local_name_is_what_follows_the_last_colon() {
    assert_eq!(local_name("xs:string"), "string");
    assert_eq!(local_name("a:b:c"), "c");
    assert_eq!(local_name("plain"), "plain");
    assert_eq!(local_name("trailing:"), "");
}

#[test]
fn nothing_outside_the_subset_is_accepted() {
    let xs = r#"xmlns:xs="http://www.w3.org/2001/XMLSchema""#;
    let outside = [
        format!(r#"<xs:schema {xs}><xs:element name="a"/><xs:include schemaLocation="b.xsd"/></xs:schema>"#),
        format!(r#"<xs:schema {xs}><xs:group name="g"/></xs:schema>"#),
        format!(
            r#"<xs:schema {xs}><xs:complexType name="t"><xs:sequence><xs:choice/></xs:sequence></xs:complexType></xs:schema>"#
        ),
        format!(
            r#"<xs:schema {xs}><xs:complexType name="t"><xs:all><xs:any/></xs:all></xs:complexType></xs:schema>"#
        ),
        format!(
            r#"<xs:schema {xs}><xs:complexType name="t"><xs:attributeGroup ref="g"/></xs:complexType></xs:schema>"#
        ),
    ];
    for text in &outside {
        let error = Schema::parse(text).err().expect("refused");
        assert!(error.message.starts_with("schema refused: xs:"), "{}", error.message);
    }
}

#[test]
fn an_unreadable_occurrence_bound_is_refused() {
    let xs = r#"xmlns:xs="http://www.w3.org/2001/XMLSchema""#;
    let refused = |bounds: &str| {
        let text = format!(r#"<xs:schema {xs}><xs:element name="x" type="xs:int" {bounds}/></xs:schema>"#);
        Schema::parse(&text).err().map(|e| e.message)
    };
    let min = Some("schema refused: xs:element with an unreadable minOccurs".to_string());
    let max = Some("schema refused: xs:element with an unreadable maxOccurs".to_string());
    assert_eq!(refused(r#"minOccurs="two""#), min);
    assert_eq!(refused(r#"minOccurs="unbounded""#), min);
    assert_eq!(refused(r#"minOccurs="-1""#), min);
    assert_eq!(refused(r#"maxOccurs="two""#), max);
    assert_eq!(refused(r#"maxOccurs="4294967296""#), max);
    assert_eq!(refused(r#"minOccurs="0" maxOccurs="unbounded""#), None);
    let nested = format!(
        r#"<xs:schema {xs}><xs:element name="p"><xs:complexType><xs:sequence>
        <xs:element name="c" maxOccurs="many"/></xs:sequence></xs:complexType></xs:element></xs:schema>"#
    );
    assert_eq!(Schema::parse(&nested).err().map(|e| e.message), max);
}

#[test]
fn simple_types_stand_for_local_names() {
    let text = r#"<xs:schema xmlns:xs="http://www.w3.org/2001/XMLSchema">
  <xs:simpleType name="Code"><xs:restriction base="p:q:token"/></xs:simpleType>
  <xs:element name="c" type="t:Code"/>
</xs:schema>"#;
    let schema = Schema::parse(text).ok().expect("parses");
    assert_eq!(schema.builtin_of("Code"), "token");
    assert_eq!(schema.builtin_of("a:b:Code"), "token");
    assert_eq!(schema.builtin_of("x:decimal"), "decimal");
    assert!(matches!(schema.kind_of("Code"), Kind::Builtin(b) if b == "token"));
    assert!(matches!(&schema.declared_element("c").expect("c").kind, Kind::Builtin(b) if b == "token"));
}
