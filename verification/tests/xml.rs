use xmip_core_contract_xml_schema::text::{decimal_text, quote, same_ignoring_case, trim};
use xmip_core_contract_xml_schema::xml::{parse_document, XmlDocument, XmlNode};

fn node(element: bool, name: &str, children: Vec<usize>) -> XmlNode {
    XmlNode {
        element,
        name: name.to_string(),
        namespace: None,
        text: None,
        attributes: Vec::new(),
        children,
    }
}

#[test]
fn a_parsed_document_lists_its_nodes_in_document_order() {
    let doc = parse_document("<!-- c --><a x='1' xmlns:n='urn:n' n:y='2'>t<b/><c>u</c></a>")
        .ok()
        .expect("parses");
    let root = doc.root;
    assert_eq!(doc.nodes[root].name, "a");
    assert_eq!(doc.nodes[root].text.as_deref(), Some("t"));
    let kids = doc.element_children(root);
    let names: Vec<&str> = kids.iter().map(|k| doc.nodes[*k].name.as_str()).collect();
    assert_eq!(names, ["b", "c"]);
    assert_eq!(doc.attribute(root, "x"), Some("1"));
    assert_eq!(doc.attribute(root, "y"), Some("2"));
    assert_eq!(doc.attribute(root, "z"), None);
    assert_eq!(doc.text(kids[1]), "u");
    assert_eq!(doc.text(kids[0]), "");
}

#[test]
fn a_text_that_is_not_xml_is_an_error_with_its_position() {
    let error = parse_document("<a>\n<b></a>").err().expect("not well-formed");
    assert_eq!(error.row, 2);
    assert!(!error.message.is_empty());
    assert!(parse_document("").is_err());
}

#[test]
fn nodes_out_of_order_or_without_a_root_make_no_document() {
    let ordered = vec![node(false, "", vec![1]), node(true, "a", vec![2]), node(true, "b", vec![])];
    let document = XmlDocument::from_nodes(ordered).expect("a document");
    assert_eq!(document.root, 1);
    let backwards = vec![node(false, "", vec![1]), node(true, "a", vec![0])];
    assert!(XmlDocument::from_nodes(backwards).is_none());
    let outside = vec![node(false, "", vec![5])];
    assert!(XmlDocument::from_nodes(outside).is_none());
    let rootless = vec![node(false, "", vec![1]), node(false, "", vec![])];
    assert!(XmlDocument::from_nodes(rootless).is_none());
    assert!(XmlDocument::from_nodes(Vec::new()).is_none());
}

#[test]
fn text_helpers_read_as_std_does() {
    assert_eq!(trim("\u{a0}\t a b \u{3000}\n"), "a b");
    assert_eq!(trim("   "), "");
    assert!(same_ignoring_case("NaN", "nan"));
    assert!(!same_ignoring_case("nan ", "nan"));
    assert_eq!(decimal_text(0), "0");
    assert_eq!(decimal_text(4294967296), "4294967296");
    assert_eq!(quote("a\"b\n"), "\"a\\\"b\\n\"");
}
