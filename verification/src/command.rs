//! The two operations as data: each subcommand turns into a walk plan -- the
//! target file names to look for under the root and the action to apply to
//! every match. A host loop drives a directory walk with the plan's targets
//! and performs the plan's action on each matched path.
use vstd::prelude::*;

use crate::names::names_view;
use crate::profile::Profile;

verus! {

/// The toolchain operation: pin every found toolchain declaration to this
/// channel.
pub struct SetToolchainCmd {
    pub channel: String,
}

/// The clean operation: remove the build output of this profile next to
/// every found manifest.
pub struct CleanCmd {
    pub profile: Profile,
}

/// A validated subcommand, as the command line hands it over.
pub enum Subcmd {
    SetToolchain(SetToolchainCmd),
    Clean(CleanCmd),
}

/// The action a walk applies to each matched path.
pub enum PlanAction {
    /// Rewrite the channel value inside the matched toolchain file.
    Rewrite { channel: String },
    /// Remove the build output for this profile next to the matched
    /// manifest.
    Remove { profile: Profile },
}

/// One workspace-wide walk: which file names to look for, and what to do
/// with every match.
pub struct WalkPlan {
    pub targets: Vec<String>,
    pub action: PlanAction,
}

/// What the plan of each subcommand is: the toolchain rewrite looks for the
/// two toolchain-declaration names and rewrites each match's channel; the
/// clean looks for the manifest name and removes build output next to each
/// match.
pub open spec fn plan_of(s: Subcmd, plan: WalkPlan) -> bool {
    match s {
        Subcmd::SetToolchain(c) => {
            &&& names_view(plan.targets@) == seq!["rust-toolchain.toml"@, "rust-toolchain"@]
            &&& plan.action == (PlanAction::Rewrite { channel: c.channel })
        },
        Subcmd::Clean(c) => {
            &&& names_view(plan.targets@) == seq!["Cargo.toml"@]
            &&& plan.action == (PlanAction::Remove { profile: c.profile })
        },
    }
}

impl Subcmd {
    /// Turns a parsed subcommand into the walk it stands for.
    pub fn run(self) -> (plan: WalkPlan)
        ensures
            plan_of(self, plan),
    {
        match self {
            Subcmd::SetToolchain(c) => {
                let mut targets: Vec<String> = Vec::new();
                targets.push("rust-toolchain.toml".to_owned());
                targets.push("rust-toolchain".to_owned());
                proof {
                    assert(names_view(targets@) =~= seq![
                        "rust-toolchain.toml"@,
                        "rust-toolchain"@,
                    ]);
                }
                WalkPlan { targets, action: PlanAction::Rewrite { channel: c.channel } }
            },
            Subcmd::Clean(c) => {
                let mut targets: Vec<String> = Vec::new();
                targets.push("Cargo.toml".to_owned());
                proof {
                    assert(names_view(targets@) =~= seq!["Cargo.toml"@]);
                }
                WalkPlan { targets, action: PlanAction::Remove { profile: c.profile } }
            },
        }
    }
}

} // verus!
