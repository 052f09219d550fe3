//! Decisions the shared page frame makes.

use vstd::prelude::*;

verus! {

/// The `aria-current` value of a header link: `"page"` on the page it leads to,
/// `"false"` elsewhere (so the attribute never has to be left out).
pub open spec fn aria_current_text(current: Seq<char>, page: Seq<char>) -> Seq<char> {
    if current == page {
        "page"@
    } else {
        "false"@
    }
}

/// The `aria-current` value of the header link to `page` while `current` is shown.
pub fn aria_current(current: &str, page: &str) -> (r: &'static str)
    ensures
        r@ == aria_current_text(current@, page@),
        current@ == page@ ==> r@ == "page"@,
        current@ != page@ ==> r@ == "false"@,
{
    if crate::text::same_text(current, page) {
        "page"
    } else {
        "false"
    }
}

} // verus!
