//! The link record: an alias paired with the URL template it redirects to.

use vstd::prelude::*;

verus! {

/// One redirect entry. The alias is the unique key; the URL may contain
/// `{...^...}` template groups understood by the renderer.
pub struct Rustlink {
    pub alias: String,
    pub url: String,
}

impl Rustlink {
    /// A fresh record with the given alias and URL template.
    pub fn new(alias: String, url: String) -> (r: Rustlink)
        ensures
            r.alias@ == alias@,
            r.url@ == url@,
    {
        Rustlink { alias, url }
    }

    /// A field-for-field copy.
    pub fn duplicate(&self) -> (r: Rustlink)
        ensures
            r.alias@ == self.alias@,
            r.url@ == self.url@,
    {
        Rustlink { alias: self.alias.clone(), url: self.url.clone() }
    }
}

/// Records compare by alias alone: the alias is the identity of a link,
/// the URL merely its current value.
impl PartialEq for Rustlink {
    fn eq(&self, other: &Self) -> (r: bool) {
        crate::strings::str_eq(self.alias.as_str(), other.alias.as_str())
    }
}

impl vstd::std_specs::cmp::PartialEqSpecImpl for Rustlink {
    open spec fn obeys_eq_spec() -> bool {
        true
    }

    open spec fn eq_spec(&self, other: &Self) -> bool {
        self.alias@ == other.alias@
    }
}

impl Eq for Rustlink {

}

} // verus!
