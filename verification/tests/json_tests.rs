use schnellwerke::json::JsonF;

fn b(s: &str) -> Vec<u8> {
    s.as_bytes().to_vec()
}

#[test]
fn json_object_with_lists() {
    let text = "{\n\"name\": \"box\",\n\"size\": 2.5,\n\"tags\": [\"a\", \"b\"],\n\"v\": [1, 2]\n}\n";
    let doc = JsonF::try_from_text(text.as_bytes()).expect("readable");
    assert_eq!(doc.nodes.len(), 5);
    assert_eq!(doc.nodes[0].other_param, vec![1, 2, 3, 4]);
    assert_eq!(doc.nodes[1].name, b("name"));
    assert_eq!(doc.nodes[1].strval, b("box"));
    assert_eq!(doc.nodes[2].name, b("size"));
    assert_eq!(doc.nodes[2].numeral, Some(b("2.5")));
    assert_eq!(doc.nodes[3].name, b("tags"));
    assert_eq!(doc.nodes[3].strvalar, vec![b("a")]);
    // The text left over from the closed list starts the next name.
    assert_eq!(doc.nodes[4].name, b("bv"));
    assert_eq!(doc.nodes[4].numeral_valar, vec![b("1")]);
    assert_eq!(doc.numerals, vec![b("2.5"), b("1")]);
    assert!(doc.nodes[1].numeral.is_none());
}

#[test]
fn json_single_number() {
    let doc = JsonF::from_text(b"\"k\": 7\n");
    assert_eq!(doc.nodes.len(), 2);
    assert_eq!(doc.nodes[1].name, b("k"));
    assert_eq!(doc.nodes[1].numeral, Some(b("7")));
    assert_eq!(doc.numerals, vec![b("7")]);
}

#[test]
fn json_discarded_number_becomes_name() {
    let doc = JsonF::try_from_text(b"\"a\": [1.5, 2.25]\n\"b\": 3\n").expect("readable");
    assert_eq!(doc.nodes.len(), 3);
    assert_eq!(doc.nodes[1].numeral_valar, vec![b("1.5")]);
    assert_eq!(doc.nodes[2].name, b("2.25b"));
    assert_eq!(doc.nodes[2].numeral, Some(b("3")));
    assert_eq!(doc.numerals, vec![b("1.5"), b("3")]);
}

#[test]
fn json_list_without_names() {
    let doc = JsonF::try_from_text(b"[1]").expect("readable");
    assert_eq!(doc.nodes.len(), 1);
    assert!(doc.numerals.is_empty());
}

#[test]
fn json_empty_text() {
    let doc = JsonF::try_from_text(b"").expect("readable");
    assert_eq!(doc.nodes.len(), 1);
    assert!(doc.nodes[0].name.is_empty());
}

#[test]
fn json_sibling_after_nested_object_is_refused() {
    let text = "{\n\"a\": {\n\"b\": 1,\n\"c\": \"x\"\n},\n\"d\": 2\n}\n";
    assert!(JsonF::try_from_text(text.as_bytes()).is_none());
    assert!(JsonF::try_from_text(b"{\"a\":{\"b\":1}, \"c\":2}").is_none());
}

#[test]
fn json_find_and_get_node() {
    let text = "{\n\"name\": \"box\",\n\"size\": 2.5,\n\"tags\": [\"a\", \"b\"],\n\"v\": [1, 2]\n}\n";
    let doc = JsonF::from_text(text.as_bytes());
    assert_eq!(doc.find_node(&vec![]), Some(0));
    assert_eq!(doc.find_node(&vec![0]), Some(1));
    assert_eq!(doc.find_node(&vec![3]), Some(4));
    assert_eq!(doc.find_node(&vec![4]), None);
    assert_eq!(doc.find_node(&vec![0, 0]), None);
    assert_eq!(doc.get_node(&vec![2]), 3);
}

#[test]
fn json_nested_paths() {
    let text = "{\n\"a\": {\n\"b\": 1,\n\"c\": \"x\"\n}\n}\n";
    let doc = JsonF::try_from_text(text.as_bytes()).expect("readable");
    assert_eq!(doc.nodes.len(), 4);
    assert_eq!(doc.get_node(&vec![0, 1]), 3);
    assert_eq!(doc.nodes[3].strval, b("x"));
    assert_eq!(doc.nodes[2].numeral, Some(b("1")));
}
