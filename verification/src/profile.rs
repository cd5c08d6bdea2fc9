//! Build profiles and the mapping from a profile to the build-output
//! subdirectory that the clean operation removes.
use vstd::prelude::*;

use crate::names::names_view;

verus! {

/// A build profile whose artifacts live in a dedicated subdirectory of the
/// build-output directory. `All` is a meta-value meaning "every profile at
/// once" and never names a subdirectory of its own.
#[derive(Clone, Copy, Debug, PartialEq, Eq, Structural)]
pub enum Profile {
    Debug,
    Release,
    All,
}

impl Profile {
    /// The subdirectory name of a physical profile. `All` names no
    /// subdirectory, so it is not a legal argument.
    pub fn as_str(&self) -> (r: &'static str)
        requires
            !(self is All),
        ensures
            self is Debug ==> r@ == "debug"@,
            self is Release ==> r@ == "release"@,
    {
        match self {
            Profile::Debug => "debug",
            Profile::Release => "release",
            Profile::All => vstd::pervasive::unreached(),
        }
    }
}

/// The path the clean operation removes, relative to the directory holding a
/// matched manifest: the whole build-output directory for `All`, one profile
/// subdirectory otherwise.
pub open spec fn spec_removal_suffix(p: Profile) -> Seq<Seq<char>> {
    match p {
        Profile::All => seq!["target"@],
        Profile::Debug => seq!["target"@, "debug"@],
        Profile::Release => seq!["target"@, "release"@],
    }
}

/// Computes the relative path (as components) that the clean operation
/// removes next to a matched manifest.
pub fn removal_suffix(p: &Profile) -> (r: Vec<String>)
    ensures
        names_view(r@) == spec_removal_suffix(*p),
{
    let mut r: Vec<String> = Vec::new();
    r.push("target".to_owned());
    if !matches!(p, Profile::All) {
        r.push(p.as_str().to_owned());
    }
    proof {
        assert(names_view(r@) =~= spec_removal_suffix(*p));
    }
    r
}

} // verus!
