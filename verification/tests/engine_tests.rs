use cargo_all::command::{PlanAction, SetToolchainCmd, CleanCmd, Subcmd};
use cargo_all::names::{is_excluded, name_in, temp_name};
use cargo_all::profile::{removal_suffix, Profile};
use cargo_all::rewrite::rewrite_channel;
use cargo_all::walk::{decide_entry, walk_tree, TreeNode, WalkDecision};

fn file(name: &str) -> TreeNode {
    TreeNode { name: name.to_owned(), children: Vec::new() }
}

fn dir(name: &str, children: Vec<TreeNode>) -> TreeNode {
    TreeNode { name: name.to_owned(), children }
}

fn names(targets: &[&str]) -> Vec<String> {
    targets.iter().map(|t| (*t).to_owned()).collect()
}

fn paths(found: &[Vec<String>]) -> Vec<String> {
    found.iter().map(|p| p.join("/")).collect()
}

fn rewrite(content: &[u8], channel: &str) -> Vec<u8> {
    rewrite_channel(&content.to_vec(), &channel.as_bytes().to_vec())
}

#[test]
fn excluded_names() {
    assert!(is_excluded(".git"));
    assert!(is_excluded(".hidden"));
    assert!(is_excluded("target"));
    assert!(!is_excluded("targets"));
    assert!(!is_excluded("src"));
    assert!(!is_excluded(""));
}

#[test]
fn name_membership() {
    let t = names(&["rust-toolchain.toml", "rust-toolchain"]);
    assert!(name_in(&t, "rust-toolchain"));
    assert!(name_in(&t, "rust-toolchain.toml"));
    assert!(!name_in(&t, "rust-toolchain.tom"));
    assert!(!name_in(&t, "Cargo.toml"));
}

#[test]
fn decisions() {
    let t = names(&["Cargo.toml"]);
    assert_eq!(decide_entry(".git", &t), WalkDecision::Prune);
    assert_eq!(decide_entry("target", &t), WalkDecision::Prune);
    assert_eq!(decide_entry("Cargo.toml", &t), WalkDecision::Act);
    assert_eq!(decide_entry("src", &t), WalkDecision::Ignore);
}

#[test]
fn excluded_target_named_file_is_pruned_not_matched() {
    // Exclusion wins over matching: a target-set entry that is itself an
    // excluded name is never acted on.
    let t = names(&["target"]);
    assert_eq!(decide_entry("target", &t), WalkDecision::Prune);
    let tree = dir("ws", vec![file("target")]);
    assert!(walk_tree(&tree, &t).is_empty());
}

#[test]
fn exclusion_invariant_hidden_and_build_output() {
    // Matching files inside a hidden directory or a build-output directory
    // are never passed to the action.
    let tree = dir(
        "ws",
        vec![
            dir(".hidden", vec![file("Cargo.toml")]),
            dir("target", vec![dir("debug", vec![file("Cargo.toml")])]),
            dir("a", vec![file("Cargo.toml")]),
        ],
    );
    let found = walk_tree(&tree, &names(&["Cargo.toml"]));
    assert_eq!(paths(&found), vec!["ws/a/Cargo.toml".to_owned()]);
}

#[test]
fn excluded_root_yields_nothing() {
    let tree = dir("target", vec![file("Cargo.toml")]);
    assert!(walk_tree(&tree, &names(&["Cargo.toml"])).is_empty());
    let tree2 = dir(".ws", vec![file("Cargo.toml")]);
    assert!(walk_tree(&tree2, &names(&["Cargo.toml"])).is_empty());
}

#[test]
fn match_completeness_counts_every_reachable_target_once() {
    let tree = dir(
        "ws",
        vec![
            dir("a", vec![file("Cargo.toml"), file("lib.rs")]),
            dir("b", vec![dir("nested", vec![file("Cargo.toml")]), file("Cargo.toml")]),
            dir(".skip", vec![file("Cargo.toml")]),
            file("Cargo.toml"),
        ],
    );
    let found = walk_tree(&tree, &names(&["Cargo.toml"]));
    let mut got = paths(&found);
    got.sort();
    assert_eq!(
        got,
        vec![
            "ws/Cargo.toml".to_owned(),
            "ws/a/Cargo.toml".to_owned(),
            "ws/b/Cargo.toml".to_owned(),
            "ws/b/nested/Cargo.toml".to_owned(),
        ]
    );
}

#[test]
fn directory_with_target_name_is_matched_and_descended() {
    // The match is by name only: an entry of any kind matches, and a matching
    // directory is still walked.
    let tree = dir("ws", vec![dir("Cargo.toml", vec![file("Cargo.toml")])]);
    let mut got = paths(&walk_tree(&tree, &names(&["Cargo.toml"])));
    got.sort();
    assert_eq!(got, vec!["ws/Cargo.toml".to_owned(), "ws/Cargo.toml/Cargo.toml".to_owned()]);
}

#[test]
fn two_target_names_both_match() {
    let tree = dir(
        "ws",
        vec![file("rust-toolchain"), dir("a", vec![file("rust-toolchain.toml")])],
    );
    let mut got = paths(&walk_tree(&tree, &names(&["rust-toolchain.toml", "rust-toolchain"])));
    got.sort();
    assert_eq!(
        got,
        vec!["ws/a/rust-toolchain.toml".to_owned(), "ws/rust-toolchain".to_owned()]
    );
}

#[test]
fn rewrite_replaces_channel_value() {
    let out = rewrite(b"channel = \"stable\"\n", "nightly-2024-01-01");
    assert_eq!(out, b"channel = \"nightly-2024-01-01\"\n".to_vec());
}

#[test]
fn rewrite_preserves_every_other_byte() {
    let content = b"[toolchain]\nchannel = \"stable\"\ncomponents = [\"rustfmt\"]\nprofile = \"minimal\"\n";
    let out = rewrite(content, "beta");
    assert_eq!(
        out,
        b"[toolchain]\nchannel = \"beta\"\ncomponents = [\"rustfmt\"]\nprofile = \"minimal\"\n"
            .to_vec()
    );
}

#[test]
fn rewrite_keeps_spacing_and_trailing_content() {
    let out = rewrite(b"  channel   =   \"old\"  # note", "new");
    assert_eq!(out, b"  channel   =   \"new\"  # note".to_vec());
}

#[test]
fn rewrite_value_runs_to_last_quote_of_the_line() {
    // The quoted value is read greedily: it closes at the line's last quote.
    let out = rewrite(b"channel = \"a\" # \"b\"", "c");
    assert_eq!(out, b"channel = \"c\"".to_vec());
}

#[test]
fn rewrite_replaces_every_matching_line() {
    let out = rewrite(b"channel = \"a\"\nx = 1\nchannel = \"b\"\n", "c");
    assert_eq!(out, b"channel = \"c\"\nx = 1\nchannel = \"c\"\n".to_vec());
}

#[test]
fn rewrite_without_match_is_a_no_op() {
    let content = b"[toolchain]\ncomponents = [\"rustfmt\"]\n";
    assert_eq!(rewrite(content, "nightly"), content.to_vec());
    // A malformed line (no closing quote) fails to match and stays.
    let malformed = b"channel = \"unterminated\n";
    assert_eq!(rewrite(malformed, "nightly"), malformed.to_vec());
    // Another key does not match.
    let other = b"mychannel = \"x\"\n";
    assert_eq!(rewrite(other, "nightly"), other.to_vec());
}

#[test]
fn rewrite_empty_file_stays_empty() {
    assert_eq!(rewrite(b"", "nightly"), b"".to_vec());
}

#[test]
fn rewrite_twice_is_rewrite_once() {
    let content = b"pre\n  channel = \"stable\" # keep\npost\n";
    let once = rewrite(content, "nightly-2023-01-01");
    let twice = rewrite_channel(&once, &b"nightly-2023-01-01".to_vec());
    assert_eq!(twice, once);
}

#[test]
fn profile_subdirectory_names() {
    assert_eq!(Profile::Debug.as_str(), "debug");
    assert_eq!(Profile::Release.as_str(), "release");
}

#[test]
fn removal_suffix_mapping() {
    assert_eq!(removal_suffix(&Profile::Debug), vec!["target".to_owned(), "debug".to_owned()]);
    assert_eq!(
        removal_suffix(&Profile::Release),
        vec!["target".to_owned(), "release".to_owned()]
    );
    assert_eq!(removal_suffix(&Profile::All), vec!["target".to_owned()]);
}

#[test]
fn temp_file_names() {
    assert_eq!(temp_name("rust-toolchain.toml"), "rust-toolchain.cargo-all");
    assert_eq!(temp_name("rust-toolchain"), "rust-toolchain.cargo-all");
    assert_eq!(temp_name("a.b.c"), "a.b.cargo-all");
    // A leading dot marks a hidden name, not an extension.
    assert_eq!(temp_name(".hidden"), ".hidden.cargo-all");
}

#[test]
fn set_toolchain_plan() {
    let cmd = Subcmd::SetToolchain(SetToolchainCmd { channel: "nightly".to_owned() });
    let plan = cmd.run();
    assert_eq!(plan.targets, vec!["rust-toolchain.toml".to_owned(), "rust-toolchain".to_owned()]);
    match plan.action {
        PlanAction::Rewrite { channel } => assert_eq!(channel, "nightly"),
        PlanAction::Remove { .. } => panic!("wrong action"),
    }
}

#[test]
fn clean_plan() {
    let cmd = Subcmd::Clean(CleanCmd { profile: Profile::Release });
    let plan = cmd.run();
    assert_eq!(plan.targets, vec!["Cargo.toml".to_owned()]);
    match plan.action {
        PlanAction::Remove { profile } => assert_eq!(profile, Profile::Release),
        PlanAction::Rewrite { .. } => panic!("wrong action"),
    }
}

#[test]
fn workspace_scenario() {
    // A workspace with one project holding build output and one project
    // pinning a toolchain.
    let tree = dir(
        "ws",
        vec![
            dir("a", vec![file("Cargo.toml"), dir("target", vec![dir("debug", vec![file("x")])])]),
            dir("b", vec![file("rust-toolchain.toml")]),
        ],
    );

    // Clean with profile debug: the only match is a's manifest, and the
    // removal target next to it is target/debug.
    let plan = Subcmd::Clean(CleanCmd { profile: Profile::Debug }).run();
    let found = walk_tree(&tree, &plan.targets);
    assert_eq!(paths(&found), vec!["ws/a/Cargo.toml".to_owned()]);
    let mut removed: Vec<String> = found[0][..found[0].len() - 1].to_vec();
    removed.extend(removal_suffix(&Profile::Debug));
    assert_eq!(removed.join("/"), "ws/a/target/debug");

    // Set-toolchain: the only match is b's declaration, whose channel line is
    // rewritten with all other bytes unchanged.
    let plan = Subcmd::SetToolchain(SetToolchainCmd { channel: "nightly-2024-01-01".to_owned() })
        .run();
    let found = walk_tree(&tree, &plan.targets);
    assert_eq!(paths(&found), vec!["ws/b/rust-toolchain.toml".to_owned()]);
    let content = b"[toolchain]\nchannel = \"stable\"\n";
    let out = rewrite(content, "nightly-2024-01-01");
    assert_eq!(out, b"[toolchain]\nchannel = \"nightly-2024-01-01\"\n".to_vec());
}
