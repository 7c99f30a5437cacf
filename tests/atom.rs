use markxiv::atom::{extract_authors, extract_tag, parse_atom_metadata};

#[test]
fn parse_atom_metadata_extracts_fields() {
    let atom = r#"<?xml version='1.0'?>
            <feed>
              <entry>
                <title>Sample &lt;b&gt;Title&lt;/b&gt;</title>
                <summary> Summary text </summary>
                <author><name>Alice</name></author>
                <author><name> Bob </name></author>
              </entry>
            </feed>"#;
    let meta = parse_atom_metadata(atom).expect("metadata");
    assert_eq!(meta.title, "Sample &lt;b&gt;Title&lt;/b&gt;");
    assert_eq!(meta.summary, "Summary text");
    assert_eq!(meta.authors, vec!["Alice".to_string(), "Bob".to_string()]);
}

#[test]
fn feed_without_entry_has_no_metadata() {
    assert!(parse_atom_metadata("<feed></feed>").is_none());
    assert!(parse_atom_metadata("<entry><title>x</title>").is_none());
}

#[test]
fn entry_without_title_has_no_metadata() {
    assert!(parse_atom_metadata("<entry><summary>s</summary></entry>").is_none());
}

#[test]
fn missing_summary_is_empty() {
    let meta = parse_atom_metadata("<entry><title> T </title></entry>").unwrap();
    assert_eq!(meta.title, "T");
    assert_eq!(meta.summary, "");
    assert!(meta.authors.is_empty());
}

#[test]
fn tag_with_attributes_is_read() {
    assert_eq!(
        extract_tag("<x><title type=\"text\">Hi</title>", "title").as_deref(),
        Some("Hi")
    );
    assert!(extract_tag("<title>open", "title").is_none());
}

#[test]
fn blank_author_names_are_skipped() {
    let authors = extract_authors("<author><name>  </name></author><author><name>C</name></author><author>x");
    assert_eq!(authors, vec!["C".to_string()]);
}
