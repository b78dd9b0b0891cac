//! What the plugin answers.

use crate::plugin;
use crate::process;
use vstd::prelude::*;
use vstd::string::*;

verus! {

/// The extensions of XML files, each with its full stop.
pub open spec fn extensions() -> Seq<Seq<char>> {
    seq![
        seq!['.', 'x', 'm', 'l'],
        seq!['.', 'x', 's', 'd'],
        seq!['.', 'x', 's', 'l', 't'],
        seq!['.', 'x', 's', 'l'],
        seq!['.', 's', 'v', 'g'],
        seq!['.', 'p', 'l', 'i', 's', 't'],
        seq!['.', 'c', 's', 'p', 'r', 'o', 'j'],
        seq!['.', 'v', 'b', 'p', 'r', 'o', 'j'],
        seq!['.', 'f', 's', 'p', 'r', 'o', 'j'],
        seq!['.', 'p', 'r', 'o', 'p', 's'],
        seq!['.', 't', 'a', 'r', 'g', 'e', 't', 's'],
    ]
}

proof fn lemma_extensions()
    ensures
        ".xml"@ == extensions()[0],
        ".xsd"@ == extensions()[1],
        ".xslt"@ == extensions()[2],
        ".xsl"@ == extensions()[3],
        ".svg"@ == extensions()[4],
        ".plist"@ == extensions()[5],
        ".csproj"@ == extensions()[6],
        ".vbproj"@ == extensions()[7],
        ".fsproj"@ == extensions()[8],
        ".props"@ == extensions()[9],
        ".targets"@ == extensions()[10],
        extensions().len() == 11,
{
    reveal_strlit(".xml");
    reveal_strlit(".xsd");
    reveal_strlit(".xslt");
    reveal_strlit(".xsl");
    reveal_strlit(".svg");
    reveal_strlit(".plist");
    reveal_strlit(".csproj");
    reveal_strlit(".vbproj");
    reveal_strlit(".fsproj");
    reveal_strlit(".props");
    reveal_strlit(".targets");
    assert(".xml"@ =~= extensions()[0]);
    assert(".xsd"@ =~= extensions()[1]);
    assert(".xslt"@ =~= extensions()[2]);
    assert(".xsl"@ =~= extensions()[3]);
    assert(".svg"@ =~= extensions()[4]);
    assert(".plist"@ =~= extensions()[5]);
    assert(".csproj"@ =~= extensions()[6]);
    assert(".vbproj"@ =~= extensions()[7]);
    assert(".fsproj"@ =~= extensions()[8]);
    assert(".props"@ =~= extensions()[9]);
    assert(".targets"@ =~= extensions()[10]);
}

/// A file whose name in lowercase ends with the extension of an XML file is an XML file.
pub proof fn law_known_extensions(stem: Seq<char>, k: int)
    requires
        0 <= k < extensions().len(),
    ensures
        plugin::language_of(stem + extensions()[k]) == seq!['x', 'm', 'l'],
{
    lemma_extensions();
    reveal_strlit("xml");
    assert("xml"@ =~= seq!['x', 'm', 'l']);
    let e = extensions()[k];
    let name = stem + e;
    assert(name.subrange(stem.len() as int, name.len() as int) =~= e);
    assert(e.is_suffix_of(name));
}

/// A file with any other name in lowercase is of no language.
pub proof fn law_unknown_extensions(name: Seq<char>)
    requires
        forall|k: int, stem: Seq<char>|
            0 <= k < extensions().len() ==> name != #[trigger] (stem + #[trigger] extensions()[k]),
    ensures
        plugin::language_of(name) == Seq::<char>::empty(),
{
    lemma_extensions();
    assert forall|k: int| 0 <= k < extensions().len() implies !(
    #[trigger] extensions()[k]).is_suffix_of(name) by {
        let e = extensions()[k];
        if e.is_suffix_of(name) {
            let n = name.len() - e.len();
            assert(name =~= name.take(n) + e);
        }
    }
    assert(!extensions()[0].is_suffix_of(name));
    assert(!extensions()[1].is_suffix_of(name));
    assert(!extensions()[2].is_suffix_of(name));
    assert(!extensions()[3].is_suffix_of(name));
    assert(!extensions()[4].is_suffix_of(name));
    assert(!extensions()[5].is_suffix_of(name));
    assert(!extensions()[6].is_suffix_of(name));
    assert(!extensions()[7].is_suffix_of(name));
    assert(!extensions()[8].is_suffix_of(name));
    assert(!extensions()[9].is_suffix_of(name));
    assert(!extensions()[10].is_suffix_of(name));
}

/// The lowercase form of the letters from `A` to `Z` lies 32 codes behind them; no other
/// ASCII character has one.
pub proof fn law_ascii_lower(c: char)
    ensures
        65 <= c as u32 <= 90 ==> plugin::ascii_lower(c) as u32 == c as u32 + 32,
        !(65 <= c as u32 <= 90) ==> plugin::ascii_lower(c) == c,
{
}

/// A record has all that is known of the language and of the plugin.
pub proof fn law_record(language: plugin::LanguageDetails, details: plugin::PluginDetails)
    ensures
        ({
            let r = plugin::record(language, details);
            &&& r.language_id == language.language_id
            &&& r.language_name == language.language_name
            &&& r.language_short_name == language.language_short_name
            &&& r.monaco_language == language.monaco_language
            &&& r.default_filename == language.default_filename
            &&& r.language_file_extensions == language.language_file_extensions
            &&& r.author == details.author
            &&& r.plugin_version == details.plugin_version
            &&& r.last_updated == details.last_updated
        }),
{
}

/// The response that reports an error holds the whole message, between `{"error":"` and
/// `"}`.
pub proof fn law_error_response(message: Seq<char>)
    ensures
        process::error_json(message) == seq!['{', '"', 'e', 'r', 'r', 'o', 'r', '"', ':', '"']
            + message + seq!['"', '}'],
{
    reveal_strlit("{\"error\":\"");
    reveal_strlit("\"}");
    assert("{\"error\":\""@ =~= seq!['{', '"', 'e', 'r', 'r', 'o', 'r', '"', ':', '"']);
    assert("\"}"@ =~= seq!['"', '}']);
}

} // verus!
