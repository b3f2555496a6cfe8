use vstd::prelude::*;

verus! {

use vstd::string::StringExecFns;
use crate::error::Error;
use crate::error::is_precondition;
use crate::error::is_property_is_value;
use crate::meta::BranchView;
use crate::meta::HIDDEN;
use crate::meta::Metadata;
use crate::meta::properties::pairs_lookup;
use crate::meta::properties::pairs_remove;
use crate::meta::record_of;

/// Options of the command that unhides branches.
pub struct Args {
    pub help: bool,
    pub names: Vec<String>,
}

/// Clears the hidden flag of a branch record; a branch not hidden, or
/// one whose hidden property holds a value, is refused.
pub fn bunhide_step(meta: &mut Metadata, name: &str) -> (r: Result<(), Error>)
    requires
        old(meta).wf(),
    ensures
        final(meta).wf(),
        final(meta)@.props == old(meta)@.props,
        final(meta)@.source == old(meta)@.source,
        ({
            let b0 = record_of(old(meta).branches@, name@);
            let fl = pairs_lookup(b0.props, "hidden"@);
            match r {
                Ok(()) => {
                    &&& fl == Some(None::<Seq<char>>)
                    &&& final(meta).branches@ == old(meta).branches@.insert(
                        name@,
                        BranchView { props: pairs_remove(b0.props, "hidden"@), ..b0 },
                    )
                },
                Err(e) => {
                    &&& final(meta).branches@ == old(meta).branches@.insert(name@, b0)
                    &&& match fl {
                        Some(v) => v is Some && is_property_is_value(e, "hidden"@),
                        None => is_precondition(e, "branch '"@ + name@ + "' is not hidden"@),
                    }
                },
            }
        }),
{
    let mut branch = meta.branches.acquire(name);
    proof {
        branch.properties.lemma_lookup_entries("hidden"@);
    }
    match branch.properties.get_flag(HIDDEN) {
        Ok(true) => {
            branch.properties.remove(HIDDEN);
            meta.branches.release(branch);
            Ok(())
        },
        Ok(false) => {
            meta.branches.release(branch);
            let mut message = "branch '".to_owned();
            message.append(name);
            message.append("' is not hidden");
            Err(Error::Precondition { message })
        },
        Err(e) => {
            meta.branches.release(branch);
            Err(e)
        },
    }
}

} // verus!
