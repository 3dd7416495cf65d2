use vstd::prelude::*;

verus! {

use crate::parser::spec_lines;

#[verifier::external_type_specification]
#[verifier::external_body]
pub struct ExSyntaxSet(syntect::parsing::SyntaxSet);

/// Holds loaded syntaxes for reuse across requests.
pub struct Highlighter {
    syntax_set: syntect::parsing::SyntaxSet,
}

/// The display name of the language a file extension maps to, under the
/// default syntax set.  The lookup is a function of the extension alone.
pub uninterp spec fn language_of(ext: Seq<char>) -> Option<Seq<char>>;

/// The per-line token markup of a file's content under the default syntax
/// set, as a class prefix decorates it: one markup string per physical
/// line, absent when the extension maps to no language.  Highlighting is
/// pure: the result is a function of its inputs alone.
pub uninterp spec fn highlight_of(content: Seq<char>, path: Seq<char>, prefix: Seq<char>) -> Option<
    Seq<Seq<char>>,
>;

impl Highlighter {
    /// Relies on syntect's `SyntaxSet::load_defaults_newlines`: every
    /// highlighter carries the same embedded default syntax set.
    #[verifier::external_body]
    pub fn new() -> Highlighter {
        Highlighter { syntax_set: syntect::parsing::SyntaxSet::load_defaults_newlines() }
    }

    /// Relies on syntect's `SyntaxSet::find_syntax_by_extension`: the
    /// lookup in the default set depends on the extension alone.
    #[verifier::external_body]
    pub fn language_name(&self, ext: &str) -> (r: Option<String>)
        ensures
            match r {
                Some(s) => language_of(ext@) == Some(s@),
                None => language_of(ext@) is None,
            },
    {
        self.syntax_set.find_syntax_by_extension(ext).map(|s| s.name.clone())
    }

    /// Relies on syntect's `ParseState::parse_line` and
    /// `line_tokens_to_classed_spans`: highlighting in the default set is
    /// deterministic, emits one markup string per physical line of the
    /// content with its trailing line terminator stripped, and yields
    /// nothing when the extension is unknown.
    #[verifier::external_body]
    fn highlight_spans(&self, content: &str, path: &str, prefix: &'static str) -> (r: Option<
        Vec<String>,
    >)
        ensures
            match r {
                Some(v) => highlight_of(content@, path@, prefix@) == Some(
                    crate::types::str_views(v@),
                ) && v@.len() == spec_lines(content@).len() && forall|i: int|
                    0 <= i < v@.len() ==> ((#[trigger] v@[i])@.len() == 0 || v@[i]@.last() != '\n'),
                None => highlight_of(content@, path@, prefix@) is None,
            },
    {
        let ext = std::path::Path::new(path).extension()?.to_str()?;
        let syntax = self.syntax_set.find_syntax_by_extension(ext)?;
        let mut st = syntect::parsing::ParseState::new(syntax);
        let mut stack = syntect::parsing::ScopeStack::new();
        let style = syntect::html::ClassStyle::SpacedPrefixed { prefix };
        let mut lines = Vec::new();
        for line in syntect::util::LinesWithEndings::from(content) {
            let ops = st.parse_line(line, &self.syntax_set).ok()?;
            let (html, _) =
                syntect::html::line_tokens_to_classed_spans(line, ops.as_slice(), style, &mut stack).ok()?;
            lines.push(html.trim_end_matches('\n').to_string());
        }
        Some(lines)
    }

    /// Highlight a file's content, returning one markup string per line,
    /// none ending in a newline, with token classes under the library's
    /// fixed class prefix.  Returns nothing when the language is not
    /// recognized.
    pub fn highlight_file(&self, content: &str, path: &str) -> (r: Option<Vec<String>>)
        ensures
            match r {
                Some(v) => highlight_of(content@, path@, "sy-"@) == Some(
                    crate::types::str_views(v@),
                ) && v@.len() == spec_lines(content@).len() && forall|i: int|
                    0 <= i < v@.len() ==> ((#[trigger] v@[i])@.len() == 0 || v@[i]@.last() != '\n'),
                None => highlight_of(content@, path@, "sy-"@) is None,
            },
    {
        self.highlight_spans(content, path, "sy-")
    }
}


/// The extension of a path, as the standard path parsing sees it: a
/// function of the path text alone.
pub uninterp spec fn ext_of(path: Seq<char>) -> Option<Seq<char>>;

/// Relies on std's `Path::extension`: the extension is derived from the
/// path string alone.
#[verifier::external_body]
pub fn path_extension(path: &str) -> (r: Option<String>)
    ensures
        match r {
            Some(e) => ext_of(path@) == Some(e@),
            None => ext_of(path@) is None,
        },
{
    std::path::Path::new(path).extension().and_then(|e| e.to_str()).map(|s| s.to_string())
}

} // verus!
