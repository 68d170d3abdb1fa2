use xmip_core_contract_xml_schema::contract::{Stream, StreamId};
use xmip_core_contract_xml_schema::{is_xml_media_type, XmlSchema, XmlSchemaFactory};

fn stream(text: &str, media_type: Option<&str>) -> Stream {
    Stream::new(StreamId::new(1), text.as_bytes().to_vec(), media_type.map(str::to_string))
}

const ORDER: &str = r#"<?xml version="1.0"?>
<xs:schema xmlns:xs="http://www.w3.org/2001/XMLSchema"
           targetNamespace="urn:example:order" elementFormDefault="qualified">
  <xs:element name="order">
    <xs:complexType>
      <xs:sequence>
        <xs:element name="id" type="xs:string"/>
        <xs:element name="line" type="Line" minOccurs="1" maxOccurs="unbounded"/>
        <xs:element name="note" type="xs:string" minOccurs="0"/>
      </xs:sequence>
      <xs:attribute name="currency" type="xs:string" use="required"/>
    </xs:complexType>
  </xs:element>
  <xs:complexType name="Line">
    <xs:sequence>
      <xs:element name="sku" type="xs:string"/>
      <xs:element name="qty" type="xs:positiveInteger"/>
    </xs:sequence>
  </xs:complexType>
</xs:schema>"#;

#[test]
fn bare_contract_holds_well_formed_xml_only() {
    let bare = XmlSchema::new();
    let held = bare.validate(&stream("<a><b/>text</a>", None)).ok().expect("validates");
    assert!(held.valid);
    let broken = bare.validate(&stream("<a><b></a>", None)).ok().expect("validates");
    assert_eq!(broken.issues[0].code, "malformed");
    assert!(broken.issues[0].path.as_deref().is_some_and(|p| p.starts_with("line 1")));
}

#[test]
fn bound_contract_holds_a_conforming_order() {
    let bound = XmlSchema::with_schema(ORDER).ok().expect("a schema");
    assert_eq!(bound.descriptor().id.0, "xml-schema:urn:example:order");
    let text = r#"<order xmlns="urn:example:order" currency="SEK">
  <id>A1</id><line><sku>X</sku><qty>2</qty></line><line><sku>Y</sku><qty>1</qty></line>
</order>"#;
    let held = bound.validate(&stream(text, None)).ok().expect("validates");
    assert!(held.valid, "issues: {}", held.issues.len());
}

#[test]
fn bound_contract_names_every_departure_with_its_path() {
    let bound = XmlSchema::with_schema(ORDER).ok().expect("a schema");
    let text = r"<order><id>A1</id><line><sku>X</sku><qty>0</qty></line><extra/></order>";
    let held = bound.validate(&stream(text, None)).ok().expect("validates");
    assert!(!held.valid);
    let seen: Vec<(String, String)> = held
        .issues
        .iter()
        .map(|i| (i.code.clone(), i.path.clone().unwrap_or_default()))
        .collect();
    let has = |code: &str, path: &str| seen.iter().any(|(c, p)| c == code && p == path);
    assert!(has("attribute", "/order/@currency"), "{seen:?}");
    assert!(has("value", "/order/line[1]/qty"), "{seen:?}");
    assert!(has("content", "/order/extra"), "{seen:?}");
}

#[test]
fn identifies_by_media_type_or_first_byte() {
    let bare = XmlSchema::new();
    assert!(bare.identify(&stream("x", Some("text/xml"))).ok().expect("identifies"));
    assert!(
        bare.identify(&stream("x", Some("application/soap+xml; charset=utf-8")))
            .ok()
            .expect("identifies")
    );
    assert!(bare.identify(&stream("  <a/>", None)).ok().expect("identifies"));
    assert!(!bare.identify(&stream("a,b", Some("text/csv"))).ok().expect("identifies"));
}

#[test]
fn the_factory_loads_bare_and_bound() {
    let factory = XmlSchemaFactory;
    assert_eq!(factory.technology(), "xml-schema");
    let bare = factory.load("", Err("never read".to_string())).ok().expect("bare");
    assert_eq!(bare.descriptor().id.0, "xml-schema");
    assert!(XmlSchemaFactory::is_bare("  "));
    assert!(!XmlSchemaFactory::is_bare("order.xsd"));
    let bound = factory.load("order.xsd", Ok(ORDER.to_string())).ok().expect("bound");
    assert_eq!(bound.descriptor().id.0, "xml-schema:urn:example:order");
    let missing = factory.load("missing.xsd", Err("No such file or directory".to_string()));
    assert_eq!(
        missing.err().expect("unreadable").message,
        "cannot read schema missing.xsd: No such file or directory"
    );
}

#[test]
fn a_contract_describes_itself_as_xml() {
    let bare = XmlSchema::default();
    assert!(!bare.is_bound());
    assert_eq!(bare.descriptor().version, "1");
    assert_eq!(bare.descriptor().representation, "application/xml");
    let unnamed = XmlSchema::with_schema(
        r#"<xs:schema xmlns:xs="http://www.w3.org/2001/XMLSchema"><xs:element name="a"/></xs:schema>"#,
    )
    .ok()
    .expect("a schema");
    assert!(unnamed.is_bound());
    assert_eq!(unnamed.descriptor().id.0, "xml-schema:bound");
    assert_eq!(
        XmlSchema::with_schema("<order/>").err().expect("refused").message,
        "schema refused: the document root is not xs:schema"
    );
}

#[test]
fn text_that_is_not_utf8_is_malformed() {
    let bare = XmlSchema::new();
    let bytes = Stream::new(StreamId::new(2), vec![b'<', b'a', 0xff, b'/', b'>'], None);
    let held = bare.validate(&bytes).ok().expect("validates");
    assert!(!held.valid);
    assert_eq!(held.issues.len(), 1);
    assert_eq!(held.issues[0].code, "malformed");
    assert!(held.issues[0].message.starts_with("not UTF-8 text: "));
    assert!(held.issues[0].path.is_none());
}

#[test]
fn a_malformed_stream_names_line_and_column() {
    let bare = XmlSchema::new();
    let held = bare.validate(&stream("<a>\n  <b></c>\n</a>", None)).ok().expect("validates");
    assert_eq!(held.issues.len(), 1);
    assert!(held.issues[0].message.starts_with("not well-formed XML: "));
    assert!(held.issues[0].path.as_deref().is_some_and(|p| p.starts_with("line 2 column ")));
}

#[test]
fn media_types_are_read_by_their_essence() {
    assert!(is_xml_media_type("Application/XML"));
    assert!(is_xml_media_type(" text/xml ; charset=utf-8"));
    assert!(is_xml_media_type("image/svg+xml"));
    assert!(!is_xml_media_type("text/plain; note=+xml"));
    assert!(!is_xml_media_type("application/json"));
    let bare = XmlSchema::new();
    assert!(!bare.identify(&stream("  x<a/>", None)).ok().expect("identifies"));
    assert!(bare.identify(&stream("\t\r\n<a/>", Some("text/plain"))).ok().expect("identifies"));
}
