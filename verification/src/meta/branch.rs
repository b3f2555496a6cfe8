use vstd::prelude::*;

verus! {

use crate::meta::Branch;
use crate::meta::BranchView;
use crate::meta::empty_branch_view;
use crate::meta::Patches;
use crate::meta::Properties;

/// Whether a branch record holds nothing worth serializing.
pub open spec fn branch_is_empty(b: BranchView) -> bool {
    b.props.len() == 0 && b.hidden.len() == 0 && b.popped.len() == 0 && b.pushed.len() == 0
}

impl View for Branch {
    type V = BranchView;

    open spec fn view(&self) -> BranchView {
        BranchView {
            name: self.name@,
            props: self.properties.entries(),
            hidden: self.hidden@,
            popped: self.popped@,
            pushed: self.pushed@,
        }
    }
}

impl Branch {
    /// The property store is well formed.
    pub open(crate) spec fn wf(&self) -> bool {
        self.properties.wf()
    }

    /// A fresh record for `name`, with no properties and empty queues.
    pub fn new(name: &str) -> (r: Branch)
        ensures
            r.wf(),
            r@ == empty_branch_view(name@),
    {
        Branch {
            name: name.to_owned(),
            properties: Properties::new(),
            hidden: Patches::new(),
            popped: Patches::new(),
            pushed: Patches::new(),
        }
    }

    /// Rekeys the record under a new branch name.
    pub(crate) fn set_name(&mut self, name: &str)
        requires
            old(self).wf(),
        ensures
            final(self).wf(),
            final(self)@ == (BranchView { name: name@, ..old(self)@ }),
    {
        self.name = name.to_owned();
    }

    /// The branch name the record is keyed by.
    pub fn name(&self) -> (r: &String)
        ensures
            r@ == self@.name,
    {
        &self.name
    }

    pub fn is_empty(&self) -> (r: bool)
        ensures
            r == branch_is_empty(self@),
    {
        self.properties.is_empty() && self.hidden.is_empty() && self.popped.is_empty()
            && self.pushed.is_empty()
    }
}

} // verus!
