use nlpsvc::{AnnotatedDocument, NodeLabel, TreeSequence};
use nlpsvc::app_config::{AppConfig, TextSource};

#[test]
fn node_label_attributes_read_back_and_replace() {
    let mut l = NodeLabel::new();
    assert_eq!(l.get_span(), None);
    l.set_sym_val("toktype", "WORD").set_sym_val("lang", "en");
    assert_eq!(l.get_sym_val("toktype"), "WORD");
    l.set_sym_val("toktype", "NUMBER");
    assert_eq!(l.get_sym_val("toktype"), "NUMBER");
    assert_eq!(l.get_sym_val("lang"), "en");
}

#[test]
fn node_label_displays_its_span() {
    let mut l = NodeLabel::new();
    l.set_span(12, 345);
    assert_eq!(l.to_string(), "12 345 ");
    l.set_span(0, 10);
    assert_eq!(l.to_string(), "0 10 ");
    l.set_span(9, 1000009);
    assert_eq!(l.to_string(), "9 1000009 ");
}

#[test]
fn tree_sequence_walks_in_push_order() {
    let mut t = TreeSequence::new();
    assert!(!t.first().is_valid());
    for k in 0..4usize {
        let mut l = NodeLabel::new();
        l.set_span(k, k + 1);
        t.push_back(l);
    }
    let mut c = t.first();
    let mut seen = vec![];
    while c.is_valid() {
        seen.push(c.get().unwrap().get_span().unwrap());
        c.next();
    }
    assert_eq!(seen, vec![(0, 1), (1, 2), (2, 3), (3, 4)]);
    c.next();
    assert!(!c.is_valid());
    assert!(c.get().is_none());
}

#[test]
fn document_keeps_its_text() {
    let doc = AnnotatedDocument::new("some text");
    assert_eq!(doc.get_text(), "some text");
    assert!(!doc.get_trees().first().is_valid());
}

#[test]
fn app_config_and_text_source() {
    let cfg = AppConfig::new();
    assert!(cfg.text_file.is_none());
    let src = TextSource::from_text("hello".to_string());
    assert_eq!(src.get_text(), "hello");
}
