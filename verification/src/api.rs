//! String-level entry points: the same pipeline with `&str` in and `String`
//! out, for callers that do not work on character vectors.
use vstd::prelude::*;
use crate::chars::chars_to_string;
use crate::chars::str_to_chars;
use crate::decode::split_lines;
use crate::decode::split_lines_spec;
use crate::decode::lines_view;
use crate::layout::InputDoc;
use crate::layout::InputMeta;
use crate::layout::RenderConfig;
use crate::layout::render_inputs;
use crate::layout::render_inputs_spec;
use crate::ranges::LineRange;
use crate::ranges::RangeParseError;
use crate::ranges::parse_range;
use crate::ranges::parse_range_spec;

verus! {

/// Build one input from its decoded content.
pub fn make_doc(name: Option<&str>, size: Option<u64>, binary: bool, content: &str) -> (doc:
    InputDoc)
    ensures
        lines_view(doc.lines@) == split_lines_spec(content@),
        crate::layout::name_view(doc.meta.name) == match name {
            Option::Some(n) => Option::Some(n@),
            Option::None => None::<Seq<char>>,
        },
        doc.meta.size == size,
        doc.meta.binary == binary,
{
    let chars = str_to_chars(content);
    let lines = split_lines(chars.as_slice());
    let meta = InputMeta {
        name: match name {
            Option::Some(n) => Option::Some(str_to_chars(n)),
            Option::None => Option::None,
        },
        size,
        binary,
    };
    InputDoc { meta, lines }
}

/// Render a list of inputs to a string.
pub fn render_to_string(cfg: &RenderConfig, docs: &Vec<InputDoc>, ranges: &[LineRange]) -> (r:
    String)
    requires
        cfg.term_width <= 100000,
        cfg.tab_width <= 100,
        forall|d: int, i: int|
            0 <= d < docs@.len() && 0 <= i < docs@[d].lines@.len() ==> (
            #[trigger] docs@[d].lines@[i]).text@.len() <= 1000000,
    ensures
        r@ == render_inputs_spec(*cfg, docs@, ranges@),
{
    let out = render_inputs(cfg, docs, ranges);
    chars_to_string(out.as_slice())
}

/// Parse one range token given as a string.
pub fn parse_range_str(s: &str) -> (r: Result<LineRange, RangeParseError>)
    ensures
        r == parse_range_spec(s@),
{
    let chars = str_to_chars(s);
    parse_range(chars.as_slice())
}

} // verus!
