use vstd::prelude::*;
use vstd::string::StringSliceAdditionalSpecFns;
use vstd::string::StringExecFns;
pub use crate::js::{DomMutation, JsError};
use crate::js::{range_texts, ranges_fit, script_ranges, strings_view};

verus! {

/// The contents of the `<script>` elements of a page, in order; the same search as
/// `js::extract_scripts`.
pub fn extract_scripts(html: &str) -> (r: Vec<String>)
    requires
        ranges_fit(html.spec_bytes(), script_ranges(html@)),
    ensures
        strings_view(r@) == range_texts(html.spec_bytes(), script_ranges(html@)),
{
    crate::js::extract_scripts(html)
}

/// Texts joined by single spaces.
pub open spec fn spaced(parts: Seq<Seq<char>>) -> Seq<char>
    decreases parts.len(),
{
    if parts.len() == 0 {
        Seq::empty()
    } else if parts.len() == 1 {
        parts[0]
    } else {
        spaced(parts.drop_last()) + seq![' '] + parts.last()
    }
}

/// The line that `console.log` records for its arguments, each already turned into
/// text: the texts joined by single spaces.
pub fn console_line(parts: &Vec<String>) -> (line: String)
    ensures
        line@ == spaced(strings_view(parts@)),
{
    let mut line = String::new();
    let mut i: usize = 0;
    while i < parts.len()
        invariant
            i <= parts.len(),
            line@ == spaced(strings_view(parts@).subrange(0, i as int)),
        decreases parts.len() - i,
    {
        if i > 0 {
            line.append(" ");
            proof {
                reveal_strlit(" ");
            }
        }
        line.append(parts[i].as_str());
        proof {
            let v = strings_view(parts@);
            assert(v.subrange(0, i + 1).drop_last() =~= v.subrange(0, i as int));
        }
        i = i + 1;
    }
    proof {
        assert(strings_view(parts@).subrange(0, parts@.len() as int) =~= strings_view(parts@));
    }
    line
}

} // verus!
