//! A placeholder for a selector-compiling backend.  It only carries the
//! stylesheet it was made from; no compilation exists yet.

use vstd::prelude::*;

use crate::css::StyleSheet;

verus! {

/// The (empty) selector compiler, holding its stylesheet.
#[derive(Debug, PartialEq)]
pub struct CssJitCompiler {
    pub stylesheet: StyleSheet,
}

impl CssJitCompiler {
    /// Wrap a stylesheet for later compilation.
    pub fn new(stylesheet: StyleSheet) -> (r: Self)
        ensures
            r.stylesheet == stylesheet,
    {
        CssJitCompiler { stylesheet }
    }
}

} // verus!
