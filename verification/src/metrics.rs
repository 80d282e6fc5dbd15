//! The metrics page.

use vstd::prelude::*;

verus! {

/// The content type of the metrics page.
pub fn metrics_content_type() -> (r: &'static str)
    ensures
        r@ == "text/plain; version=0.0.4; charset=utf-8"@,
{
    "text/plain; version=0.0.4; charset=utf-8"
}

} // verus!
