//! Definitions of the paired markers of the markup.

use vstd::prelude::*;
use crate::ast::style::MarkupStyle;

verus! {

/// Definition of a markup marker.
#[derive(Debug, Clone)]
pub struct MarkerDef {
    pub open: &'static str,
    pub close: &'static str,
    pub style: MarkupStyle,
    pub multiline: bool,
    /// Track nesting of markers of the same kind.
    pub track_depth: bool,
}

/// The markers as `(open, close, style bits, multiline, track_depth)`,
/// longer openings before shorter ones of the same byte.
pub open spec fn marker_table() -> Seq<(Seq<char>, Seq<char>, u32, bool, bool)> {
    seq![
        ("%%"@, "%%"@, 4096u32, true, false),
        ("$$"@, "$$"@, 16384u32, true, true),
        ("!!!"@, "!!!"@, 512u32, true, true),
        ("!!"@, "!!"@, 256u32, false, true),
        ("//"@, "//"@, 2u32, false, true),
        ("**"@, "**"@, 1u32, false, true),
        ("__"@, "__"@, 4u32, false, true),
        ("''"@, "''"@, 16u32, false, true),
        (",,"@, ",,"@, 32u32, false, true),
        ("~~"@, "~~"@, 8u32, false, true),
        ("=="@, "=="@, 128u32, false, true),
        ("++"@, "++"@, 1024u32, false, true),
        ("--"@, "--"@, 2048u32, false, true),
        ("$"@, "$"@, 8192u32, false, true),
    ]
}

/// Whether a definition is the entry `e` of the table.
pub open spec fn is_entry(m: MarkerDef, e: (Seq<char>, Seq<char>, u32, bool, bool)) -> bool {
    m.open@ == e.0 && m.close@ == e.1 && m.style.0 == e.2 && m.multiline == e.3 && m.track_depth == e.4
}

fn def(open: &'static str, close: &'static str, style: MarkupStyle, multiline: bool, track_depth: bool) -> (m: MarkerDef)
    ensures
        m.open == open,
        m.close == close,
        m.style == style,
        m.multiline == multiline,
        m.track_depth == track_depth,
{
    MarkerDef { open, close, style, multiline, track_depth }
}

/// All markers of the markup, longer openings first so that they take
/// precedence.
pub fn markers() -> (r: Vec<MarkerDef>)
    ensures
        r@.len() == marker_table().len(),
        forall|i: int| 0 <= i < r@.len() ==> is_entry(#[trigger] r@[i], marker_table()[i]),
{
    let r = vec![
        def("%%", "%%", MarkupStyle::comment(), true, false),
        def("$$", "$$", MarkupStyle::display_formula(), true, true),
        def("!!!", "!!!", MarkupStyle::spoiler_block(), true, true),
        def("!!", "!!", MarkupStyle::spoiler(), false, true),
        def("//", "//", MarkupStyle::italic(), false, true),
        def("**", "**", MarkupStyle::bold(), false, true),
        def("__", "__", MarkupStyle::underline(), false, true),
        def("''", "''", MarkupStyle::superscript(), false, true),
        def(",,", ",,", MarkupStyle::subscript(), false, true),
        def("~~", "~~", MarkupStyle::strikethrough(), false, true),
        def("==", "==", MarkupStyle::highlight(), false, true),
        def("++", "++", MarkupStyle::insertion(), false, true),
        def("--", "--", MarkupStyle::deletion(), false, true),
        def("$", "$", MarkupStyle::formula(), false, true),
    ];
    r
}

} // verus!
