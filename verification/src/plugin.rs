//! What the plugin says of itself: the files it handles, its language, its examples.

use crate::labels;
use crate::text;
use vstd::prelude::*;
use vstd::string::*;
use vstd::utf8::*;

verus! {

/// The lowercase form of a text, as `str::to_lowercase` gives it.
pub uninterp spec fn lowercase(s: Seq<char>) -> Seq<char>;

/// The lowercase form of an ASCII character.
pub open spec fn ascii_lower(c: char) -> char {
    if 'A' <= c <= 'Z' {
        (c as nat - 'A' as nat + 'a' as nat) as char
    } else {
        c
    }
}

/// `str::to_lowercase`: the lowercase form of the text by the rules of Unicode, which
/// depends on the text alone. In a text of ASCII characters only `A` to `Z` change.
pub assume_specification[ str::to_lowercase ](s: &str) -> (r: String)
    ensures
        r@ == lowercase(s@),
        is_ascii_chars(s@) ==> r@ == s@.map_values(|c: char| ascii_lower(c)),
;

/// How the host is to parse files for this plugin.
#[derive(Debug, PartialEq, Eq, Structural)]
pub enum ParserMode {
    /// The plugin parses the source itself.
    FullParse,
}

/// Two versions of a document, to show what the plugin does.
#[derive(Debug)]
pub struct ExamplePair {
    pub old: String,
    pub new: String,
}

/// What the metadata of the plugin say of a language.
#[derive(Debug)]
pub struct LanguageDetails {
    pub language_id: String,
    pub language_name: String,
    pub language_short_name: String,
    pub monaco_language: String,
    pub default_filename: String,
    pub language_file_extensions: Vec<String>,
}

/// What the metadata say of the plugin.
#[derive(Debug)]
pub struct PluginDetails {
    pub author: String,
    pub plugin_version: String,
    pub last_updated: String,
}

/// A language that the plugin handles, with what is known of the plugin.
#[derive(Debug)]
pub struct LanguageInfoRecord {
    pub language_id: String,
    pub language_name: String,
    pub language_short_name: String,
    pub monaco_language: String,
    pub default_filename: String,
    pub language_file_extensions: Vec<String>,
    pub author: String,
    pub plugin_version: String,
    pub last_updated: String,
}

/// The record of a language.
pub open spec fn record(language: LanguageDetails, plugin: PluginDetails) -> LanguageInfoRecord {
    LanguageInfoRecord {
        language_id: language.language_id,
        language_name: language.language_name,
        language_short_name: language.language_short_name,
        monaco_language: language.monaco_language,
        default_filename: language.default_filename,
        language_file_extensions: language.language_file_extensions,
        author: plugin.author,
        plugin_version: plugin.plugin_version,
        last_updated: plugin.last_updated,
    }
}

/// The records of the languages, in their order.
pub fn language_info_for(languages: Vec<LanguageDetails>, plugin: &PluginDetails) -> (r: Vec<
    LanguageInfoRecord,
>)
    ensures
        r@ == languages@.map_values(|l: LanguageDetails| record(l, *plugin)),
{
    let mut records: Vec<LanguageInfoRecord> = Vec::new();
    let ghost all = languages@;
    for info in it: languages
        invariant
            it.seq() == all,
            records@ == all.take(it.index() as int).map_values(
                |l: LanguageDetails| record(l, *plugin),
            ),
    {
        records.push(
            LanguageInfoRecord {
                language_id: info.language_id,
                language_name: info.language_name,
                language_short_name: info.language_short_name,
                monaco_language: info.monaco_language,
                default_filename: info.default_filename,
                language_file_extensions: info.language_file_extensions,
                author: plugin.author.clone(),
                plugin_version: plugin.plugin_version.clone(),
                last_updated: plugin.last_updated.clone(),
            },
        );
    }
    records
}

/// Whether a file name in lowercase has the extension of an XML file.
pub open spec fn has_xml_extension(lower: Seq<char>) -> bool {
    ||| ".xml"@.is_suffix_of(lower)
    ||| ".xsd"@.is_suffix_of(lower)
    ||| ".xslt"@.is_suffix_of(lower)
    ||| ".xsl"@.is_suffix_of(lower)
    ||| ".svg"@.is_suffix_of(lower)
    ||| ".plist"@.is_suffix_of(lower)
    ||| ".csproj"@.is_suffix_of(lower)
    ||| ".vbproj"@.is_suffix_of(lower)
    ||| ".fsproj"@.is_suffix_of(lower)
    ||| ".props"@.is_suffix_of(lower)
    ||| ".targets"@.is_suffix_of(lower)
}

/// The language of a file by its name in lowercase: `xml`, or nothing.
pub open spec fn language_of(lower: Seq<char>) -> Seq<char> {
    if has_xml_extension(lower) {
        "xml"@
    } else {
        Seq::empty()
    }
}

/// The language of a file by its name in lowercase: `xml`, or nothing.
pub fn language_by_extension(lower: &str) -> (r: String)
    ensures
        r@ == language_of(lower@),
{
    if text::ends_with(lower, ".xml") || text::ends_with(lower, ".xsd") || text::ends_with(
        lower,
        ".xslt",
    ) || text::ends_with(lower, ".xsl") || text::ends_with(lower, ".svg") || text::ends_with(
        lower,
        ".plist",
    ) || text::ends_with(lower, ".csproj") || text::ends_with(lower, ".vbproj")
        || text::ends_with(lower, ".fsproj") || text::ends_with(lower, ".props")
        || text::ends_with(lower, ".targets") {
        "xml".to_owned()
    } else {
        String::new()
    }
}

/// The XML plugin.
#[derive(Debug)]
pub struct XmlParser;

impl XmlParser {
    /// The plugin parses the source itself.
    pub fn get_parser_mode() -> (r: ParserMode)
        ensures
            r == ParserMode::FullParse,
    {
        ParserMode::FullParse
    }

    /// The grammar that the plugin parses by.
    pub fn grammar_id() -> (r: String)
        ensures
            r@ == "xml"@,
    {
        "xml".to_owned()
    }

    /// The language of a file by its name, whatever its case: `xml`, or nothing. The
    /// content makes no difference.
    pub fn detect_language(filename: String, _content: String) -> (r: String)
        ensures
            r@ == language_of(lowercase(filename@)),
            is_ascii_chars(filename@) ==> r@ == language_of(
                filename@.map_values(|c: char| ascii_lower(c)),
            ),
    {
        let lower = filename.as_str().to_lowercase();
        language_by_extension(lower.as_str())
    }

    /// The source is parsed as it is.
    pub fn preprocess_source(source: String) -> (r: String)
        ensures
            r == source,
    {
        source
    }

    /// Two versions of a configuration file.
    pub fn example(_language: String) -> (r: ExamplePair)
        ensures
            r.old@ == "<?xml version=\"1.0\" encoding=\"UTF-8\"?>\n<config>\n  <name>MyApp</name>\n  <version>1.0</version>\n  <server>\n    <host>localhost</host>\n    <port>8080</port>\n  </server>\n</config>\n"@,
            r.new@ == "<?xml version=\"1.0\" encoding=\"UTF-8\"?>\n<config>\n  <name>MyApp</name>\n  <version>2.0</version>\n  <server>\n    <host>0.0.0.0</host>\n    <port>8080</port>\n    <timeout>30</timeout>\n  </server>\n  <database>\n    <host>db.example.com</host>\n    <port>5432</port>\n    <name>mydb</name>\n  </database>\n</config>\n"@,
    {
        ExamplePair {
            old: "<?xml version=\"1.0\" encoding=\"UTF-8\"?>\n<config>\n  <name>MyApp</name>\n  <version>1.0</version>\n  <server>\n    <host>localhost</host>\n    <port>8080</port>\n  </server>\n</config>\n".to_owned(),
            new: "<?xml version=\"1.0\" encoding=\"UTF-8\"?>\n<config>\n  <name>MyApp</name>\n  <version>2.0</version>\n  <server>\n    <host>0.0.0.0</host>\n    <port>8080</port>\n    <timeout>30</timeout>\n  </server>\n  <database>\n    <host>db.example.com</host>\n    <port>5432</port>\n    <name>mydb</name>\n  </database>\n</config>\n".to_owned(),
        }
    }

    /// The kinds of nodes that carry no meaning.
    pub fn trivia_node_types() -> (r: Vec<String>)
        ensures
            labels::views(r@) == seq!["Comment"@, "PI"@],
    {
        let mut r: Vec<String> = Vec::new();
        r.push("Comment".to_owned());
        r.push("PI".to_owned());
        assert(labels::views(r@) =~= seq!["Comment"@, "PI"@]);
        r
    }

    /// The languages that the plugin handles.
    pub fn language_ids() -> (r: Vec<String>)
        ensures
            labels::views(r@) == seq!["xml"@],
    {
        let mut r: Vec<String> = Vec::new();
        r.push("xml".to_owned());
        assert(labels::views(r@) =~= seq!["xml"@]);
        r
    }

    /// The rank of the plugin among those that handle the same file.
    pub fn priority() -> (r: i32)
        ensures
            r == 0,
    {
        0
    }
}

} // verus!
