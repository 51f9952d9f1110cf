//! The output formats a caller can ask the presentation layer for. The
//! rendering itself is the presentation layer's business; the library only
//! fixes the choice.

use vstd::prelude::*;

verus! {

/// How a pack listing is to be rendered.
#[derive(Clone, Copy, Debug, PartialEq, Eq)]
pub enum Formats {
    Debug,
    PrettyDebug,
    Json,
    Yaml,
}

} // verus!
