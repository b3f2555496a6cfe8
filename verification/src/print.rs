use vstd::prelude::*;

verus! {


/// The marker column of a listing: a star for the entry the repository
/// currently stands on, a space otherwise.
pub fn marker(enabled: bool) -> (r: String)
    ensures
        enabled ==> r@ == "*"@,
        !enabled ==> r@ == " "@,
{
    if enabled {
        "*".to_owned()
    } else {
        " ".to_owned()
    }
}

} // verus!
