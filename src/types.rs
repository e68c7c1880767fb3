use vstd::prelude::*;

verus! {

/// One reported difference: the identity of an object and the line diff
/// that turns the target's definition of it into the source's.
pub struct DiffItem {
    pub object: String,
    pub diff: String,
}

impl DiffItem {
    pub fn new(object: &str, diff: &str) -> (r: Self)
        ensures
            r.object@ == object@,
            r.diff@ == diff@,
    {
        DiffItem { object: object.to_string(), diff: diff.to_string() }
    }
}

} // verus!
