//! Manifest edits: the version text a newly added package is pinned
//! to, and removal of a declared dependency.

use vstd::prelude::*;
use vstd::string::*;
use crate::kmap::KeyMap;

verus! {

/// The specifier text recorded when a package is added at its latest
/// version: the version itself when pinning, a caret range otherwise.
pub fn add_spec_text(latest: &str, pin: bool) -> (r: String)
    ensures
        pin ==> r@ == latest@,
        !pin ==> r@ == seq!['^'] + latest@,
{
    if pin {
        latest.to_owned()
    } else {
        let mut r = String::from_str("^");
        r.append(latest);
        proof {
            reveal_strlit("^");
            assert(r@ =~= seq!['^'] + latest@);
        }
        r
    }
}

/// Strikes a declared dependency from the manifest's dependency map;
/// a package that was never declared is an error.
pub fn remove_dependency(deps: &mut KeyMap<String>, name: &str) -> (r: Result<(), ()>)
    requires
        old(deps).wf(),
    ensures
        final(deps).wf(),
        (r is Ok) == old(deps).spec_contains(name@),
        !final(deps).spec_contains(name@),
        forall|k: Seq<char>|
            k != name@ ==> final(deps).spec_get_v(k) == old(deps).spec_get_v(k),
{
    let removed = deps.remove(name);
    proof {
        crate::kmap::lemma_key_index(deps.keys(), name@);
    }
    match removed {
        Some(_) => Ok(()),
        None => Err(()),
    }
}

} // verus!
