//! One figure of the summary bar.

use vstd::prelude::*;
use vstd::string::*;

verus! {

/// A labelled figure; `active` when it holds a result rather than the
/// placeholder `—`.
pub struct StatCell<'a> {
    pub label: &'static str,
    pub value: &'a str,
    pub active: bool,
}

impl<'a> StatCell<'a> {
    /// The cell for `value`, active unless `value` is the placeholder `—`.
    pub fn new(label: &'static str, value: &'a str) -> (c: Self)
        ensures
            c.label == label,
            c.value == value,
            c.active == (value@ != "—"@),
    {
        proof {
            reveal_strlit("—");
        }
        let placeholder = value.unicode_len() == 1 && value.get_char(0) == '—';
        proof {
            if value@.len() == 1 && value@[0] == '—' {
                assert(value@ =~= "—"@);
            }
        }
        StatCell { label, value, active: !placeholder }
    }
}

} // verus!
