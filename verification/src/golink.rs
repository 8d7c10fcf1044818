//! An earlier shape of the link record, kept for data written under the old
//! name. Identical in structure to [`crate::rustlink::Rustlink`].

use vstd::prelude::*;

verus! {

/// One redirect entry under the legacy name.
pub struct Golink {
    pub alias: String,
    pub url: String,
}

impl Golink {
    /// A fresh record with the given alias and URL template.
    pub fn new(alias: String, url: String) -> (r: Golink)
        ensures
            r.alias@ == alias@,
            r.url@ == url@,
    {
        Golink { alias, url }
    }
}

/// Records compare by alias alone, as [`crate::rustlink::Rustlink`] does.
impl PartialEq for Golink {
    fn eq(&self, other: &Self) -> (r: bool) {
        crate::strings::str_eq(self.alias.as_str(), other.alias.as_str())
    }
}

impl vstd::std_specs::cmp::PartialEqSpecImpl for Golink {
    open spec fn obeys_eq_spec() -> bool {
        true
    }

    open spec fn eq_spec(&self, other: &Self) -> bool {
        self.alias@ == other.alias@
    }
}

impl Eq for Golink {

}

} // verus!
