//! What the plugin says of itself.

use xml_semantic_tree::plugin::{
    language_info_for, LanguageDetails, ParserMode, PluginDetails, XmlParser,
};

fn language(filename: &str) -> String {
    XmlParser::detect_language(filename.to_string(), "".to_string())
}

#[test]
fn grammar_id_nonempty() {
    assert!(!XmlParser::grammar_id().is_empty());
}

#[test]
fn language_ids_contain_grammar_id() {
    let gid = XmlParser::grammar_id();
    let ids = XmlParser::language_ids();
    assert!(ids.contains(&gid));
}

#[test]
fn detect_language_known_ext() {
    assert_eq!(
        XmlParser::detect_language("test.xml".to_string(), "".to_string()).as_str(),
        "xml"
    );
}

#[test]
fn detect_language_unknown_ext() {
    assert_eq!(
        XmlParser::detect_language("test.xyz_notareal_ext_9z8y".to_string(), "".to_string())
            .as_str(),
        ""
    );
}

#[test]
fn every_extension_is_known() {
    for ext in [
        "xml", "xsd", "xslt", "xsl", "svg", "plist", "csproj", "vbproj", "fsproj", "props",
        "targets",
    ] {
        assert_eq!(language(&format!("a.{}", ext)), "xml", "{}", ext);
        assert_eq!(language(&format!("a.{}", ext.to_uppercase())), "xml", "{}", ext);
        assert_eq!(language(&format!("a.{}x", ext)), "", "{}", ext);
    }
    assert_eq!(language(".xml"), "xml");
    assert_eq!(language("xml"), "");
    assert_eq!(language(""), "");
    assert_eq!(language("É.XmL"), "xml");
}

#[test]
fn the_content_makes_no_difference() {
    let content = "<?xml version=\"1.0\"?><r/>".to_string();
    assert_eq!(XmlParser::detect_language("a.txt".to_string(), content), "");
}

#[test]
fn fixed_answers() {
    assert_eq!(XmlParser::get_parser_mode(), ParserMode::FullParse);
    assert_eq!(XmlParser::grammar_id(), "xml");
    assert_eq!(XmlParser::language_ids(), vec!["xml".to_string()]);
    assert_eq!(
        XmlParser::trivia_node_types(),
        vec!["Comment".to_string(), "PI".to_string()]
    );
    assert_eq!(XmlParser::priority(), 0);
    assert_eq!(XmlParser::preprocess_source("<a/>".to_string()), "<a/>");
}

#[test]
fn the_example_changes_the_version() {
    let pair = XmlParser::example("xml".to_string());
    assert!(pair.old.starts_with("<?xml version=\"1.0\" encoding=\"UTF-8\"?>\n<config>\n"));
    assert!(pair.old.contains("<version>1.0</version>"));
    assert!(pair.new.contains("<version>2.0</version>"));
    assert!(pair.new.contains("<host>db.example.com</host>"));
    assert_eq!(pair.old.lines().count(), 9);
    assert_eq!(pair.new.lines().count(), 15);
}

#[test]
fn records_join_language_and_plugin() {
    let details = |id: &str| LanguageDetails {
        language_id: id.to_string(),
        language_name: format!("{} name", id),
        language_short_name: format!("{} short", id),
        monaco_language: format!("{} monaco", id),
        default_filename: format!("file.{}", id),
        language_file_extensions: vec![format!(".{}", id)],
    };
    let plugin = PluginDetails {
        author: "someone".to_string(),
        plugin_version: "1.2.3".to_string(),
        last_updated: "today".to_string(),
    };
    let records = language_info_for(vec![details("xml"), details("svg")], &plugin);
    assert_eq!(records.len(), 2);
    assert_eq!(records[0].language_id, "xml");
    assert_eq!(records[1].language_id, "svg");
    assert_eq!(records[1].language_name, "svg name");
    assert_eq!(records[1].language_short_name, "svg short");
    assert_eq!(records[1].monaco_language, "svg monaco");
    assert_eq!(records[1].default_filename, "file.svg");
    assert_eq!(records[1].language_file_extensions, vec![".svg".to_string()]);
    assert_eq!(records[1].author, "someone");
    assert_eq!(records[1].plugin_version, "1.2.3");
    assert_eq!(records[1].last_updated, "today");
    assert!(language_info_for(Vec::new(), &plugin).is_empty());
}
