use vstd::prelude::*;

verus! {

use crate::error::Error;
use crate::error::is_property_is_value;
use crate::meta::HIDDEN;
use crate::meta::Metadata;
use crate::meta::properties::pairs_lookup;
use crate::meta::record_of;

/// Options of the command that lists branches.
pub struct Args {
    pub remote: bool,
    pub hidden: bool,
    pub help: bool,
}

/// Whether a branch record carries the hidden flag; the record is put
/// back untouched.
pub fn is_branch_hidden(meta: &mut Metadata, name: &str) -> (r: Result<bool, Error>)
    requires
        old(meta).wf(),
    ensures
        final(meta).wf(),
        final(meta)@.props == old(meta)@.props,
        final(meta)@.source == old(meta)@.source,
        ({
            let b0 = record_of(old(meta).branches@, name@);
            &&& final(meta).branches@ == old(meta).branches@.insert(name@, b0)
            &&& match r {
                Ok(h) => h == (pairs_lookup(b0.props, "hidden"@) == Some(None::<Seq<char>>)),
                Err(e) => (match pairs_lookup(b0.props, "hidden"@) {
                    Some(v) => v is Some,
                    None => false,
                }) && is_property_is_value(e, "hidden"@),
            }
        }),
{
    let branch = meta.branches.acquire(name);
    proof {
        branch.properties.lemma_lookup_entries("hidden"@);
    }
    let r = branch.properties.get_flag(HIDDEN);
    meta.branches.release(branch);
    r
}

} // verus!
