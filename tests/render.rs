use vmf_vmt::model::Valve;
use vmf_vmt::serialize::{build_valve, build_vmf_vmt};

#[test]
fn entry_is_quoted_and_indented() {
    let entry = Valve::PropertyValue("key".to_string(), "value".to_string());
    assert_eq!(build_valve(2, entry), "\t\t\"key\" \"value\"\n");
}

#[test]
fn block_is_rendered_with_tabs() {
    let block = Valve::Class {
        class_name: "outer".to_string(),
        data: vec![
            Valve::PropertyValue("a".to_string(), "1".to_string()),
            Valve::Class { class_name: "inner".to_string(), data: vec![] },
        ],
    };
    assert_eq!(
        build_valve(0, block),
        "outer\n{\n\t\"a\" \"1\"\n\tinner\n\t{\n\t}\n}\n"
    );
}

#[test]
fn document_concatenates_blocks() {
    let doc = vec![
        Valve::Class { class_name: "A".to_string(), data: vec![] },
        Valve::Class { class_name: "B".to_string(), data: vec![] },
    ];
    assert_eq!(build_vmf_vmt(doc), "A\n{\n}\nB\n{\n}\n");
}

#[test]
fn empty_document_is_empty_text() {
    assert_eq!(build_vmf_vmt(vec![]), "");
}
