//! The rendering boundary: error taxonomy and the post-processing applied
//! to fetched page content. The network fetch itself lives outside the
//! library.

use vstd::prelude::*;

verus! {

/// Failures of page rendering.
#[derive(Debug)]
pub enum RendererError {
    BrowserError(String),
    NetworkError(String),
    TimeoutError,
}

/// Post-processes fetched page content. The enhancement pass is the
/// identity on the markup and always succeeds.
pub fn enhanced_html(html: &str) -> (r: Result<String, RendererError>)
    ensures
        r is Ok,
        r is Ok ==> r->Ok_0@ == html@,
{
    Ok(String::from_str(html))
}

} // verus!
