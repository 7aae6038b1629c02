//! Choosing among the named colour maps.
use vstd::prelude::*;

verus! {

/// The colour map that the renderer is told to use: the position of the
/// first map named `name` among the maps named `names`, or 0 when none is.
pub fn gradient_index(names: &Vec<String>, name: &String) -> (k: usize)
    ensures
        (exists|i: int| 0 <= i < names.len() && names[i]@ == name@) ==> {
            &&& k < names.len()
            &&& names[k as int]@ == name@
            &&& forall|j: int| 0 <= j < k ==> names[j]@ != name@
        },
        !(exists|i: int| 0 <= i < names.len() && names[i]@ == name@) ==> k == 0,
{
    let mut i: usize = 0;
    while i < names.len()
        invariant
            i <= names.len(),
            forall|j: int| 0 <= j < i ==> names[j]@ != name@,
        decreases names.len() - i,
    {
        if names[i] == *name {
            return i;
        }
        i += 1;
    }
    0
}

} // verus!
