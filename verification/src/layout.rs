use vstd::prelude::*;
use crate::css::{Val, Value};
use crate::style::StyledNode;

verus! {

broadcast use vstd::string::group_string_axioms;

/// How a box takes part in layout.
#[derive(Debug, Clone, PartialEq)]
pub enum BoxType {
    Block,
    Inline,
    Anonymous,
}

/// The box a node with these styles gets: inline for `display: inline` and for
/// `display: none`, a block otherwise.
pub open spec fn box_type_of(styles: Map<Seq<char>, Val>) -> BoxType {
    let inline = styles.contains_key("display"@) && (styles["display"@] matches Val::Keyword(k) && (k
        == "inline"@ || k == "none"@));
    if inline {
        BoxType::Inline
    } else {
        BoxType::Block
    }
}

/// The box type of a styled node.
pub fn display_type(styled_node: &StyledNode) -> (b: BoxType)
    requires
        styled_node.styles.wf(),
    ensures
        b == box_type_of(styled_node.styles@),
{
    match styled_node.styles.get("display") {
        Some(Value::Keyword(kw)) => {
            if crate::text::str_eq(kw.as_str(), "inline") || crate::text::str_eq(kw.as_str(), "none") {
                BoxType::Inline
            } else {
                BoxType::Block
            }
        },
        _ => BoxType::Block,
    }
}

} // verus!
