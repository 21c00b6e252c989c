//! A severity-bucketed message collector.  It is infrastructure for
//! callers that want to gather problems instead of stopping at the first;
//! the parsers themselves report a single fatal error.

use vstd::prelude::*;

verus! {

/// Collected messages, bucketed by severity.
#[derive(Debug, PartialEq)]
pub struct Diagnostics {
    pub errors: Vec<String>,
    pub warnings: Vec<String>,
    pub infos: Vec<String>,
}

impl Diagnostics {
    /// An empty collector.
    pub fn new() -> (r: Diagnostics)
        ensures
            r.errors@ == Seq::<String>::empty(),
            r.warnings@ == Seq::<String>::empty(),
            r.infos@ == Seq::<String>::empty(),
    {
        Diagnostics { errors: Vec::new(), warnings: Vec::new(), infos: Vec::new() }
    }

    /// Record an error message.
    pub fn add_error(&mut self, message: String)
        ensures
            final(self).errors@ == old(self).errors@.push(message),
            final(self).warnings == old(self).warnings,
            final(self).infos == old(self).infos,
    {
        self.errors.push(message);
    }

    /// Record a warning message.
    pub fn add_warning(&mut self, message: String)
        ensures
            final(self).warnings@ == old(self).warnings@.push(message),
            final(self).errors == old(self).errors,
            final(self).infos == old(self).infos,
    {
        self.warnings.push(message);
    }

    /// Record an informational message.
    pub fn add_info(&mut self, message: String)
        ensures
            final(self).infos@ == old(self).infos@.push(message),
            final(self).errors == old(self).errors,
            final(self).warnings == old(self).warnings,
    {
        self.infos.push(message);
    }
}

} // verus!
