use vstd::prelude::*;

verus! {

use vstd::string::StringExecFns;
use crate::error::Error;
use crate::error::is_precondition;
use crate::error::is_property_is_value;
use crate::meta::BranchView;
use crate::meta::HIDDEN;
use crate::meta::Metadata;
use crate::meta::properties::pairs_insert;
use crate::meta::properties::pairs_lookup;
use crate::meta::record_of;

/// Options of the command that hides a branch from the listings.
pub struct Args {
    pub help: bool,
    pub names: Vec<String>,
}

/// Sets the hidden flag on a branch record; a branch already hidden,
/// or one whose hidden property holds a value, is refused.
pub fn bhide_step(meta: &mut Metadata, name: &str) -> (r: Result<(), Error>)
    requires
        old(meta).wf(),
    ensures
        final(meta).wf(),
        final(meta)@.props == old(meta)@.props,
        final(meta)@.source == old(meta)@.source,
        ({
            let b0 = record_of(old(meta).branches@, name@);
            let fl = pairs_lookup(b0.props, "hidden"@);
            match r {
                Ok(()) => {
                    &&& fl is None
                    &&& final(meta).branches@ == old(meta).branches@.insert(
                        name@,
                        BranchView { props: pairs_insert(b0.props, "hidden"@, None), ..b0 },
                    )
                },
                Err(e) => {
                    &&& final(meta).branches@ == old(meta).branches@.insert(name@, b0)
                    &&& match fl {
                        Some(v) => if v is Some {
                            is_property_is_value(e, "hidden"@)
                        } else {
                            is_precondition(e, "branch '"@ + name@ + "' already hidden"@)
                        },
                        None => false,
                    }
                },
            }
        }),
{
    let mut branch = meta.branches.acquire(name);
    proof {
        branch.properties.lemma_lookup_entries("hidden"@);
    }
    match branch.properties.get_flag(HIDDEN) {
        Ok(true) => {
            meta.branches.release(branch);
            let mut message = "branch '".to_owned();
            message.append(name);
            message.append("' already hidden");
            Err(Error::Precondition { message })
        },
        Ok(false) => {
            branch.properties.set_flag(HIDDEN);
            meta.branches.release(branch);
            Ok(())
        },
        Err(e) => {
            meta.branches.release(branch);
            Err(e)
        },
    }
}

} // verus!
