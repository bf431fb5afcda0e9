//! Lookup through a branched tree: abbreviation, case folding, default
//! leaves, carried branch state and root anchoring.

use scpi_dispatch::command::{ieee488_trg, CommonTrg, Device, IEEE4882, TrgCommand};
use scpi_dispatch::dispatch::dispatch;
use scpi_dispatch::error::Error;
use scpi_dispatch::tree::{mnemonic_matches, short_len, Branch, Leaf, Node, check_node};

struct CountingDevice {
    triggers: u32,
}

impl Device for CountingDevice {}

impl IEEE4882 for CountingDevice {}

impl CommonTrg for CountingDevice {
    fn trig_spec(pre: Self, post: Self, r: Result<(), Error>) -> bool {
        post.triggers == pre.triggers.wrapping_add(1) && r.is_ok()
    }

    fn trig_bus(&mut self) -> Result<(), Error> {
        self.triggers += 1;
        Ok(())
    }
}

/// ROOT
///   *TRG                 (leaf, event-only)
///   SYSTem               (branch)
///     VERSion  (default) (leaf)
///     LOCK               (leaf)
fn branched_tree() -> Node<TrgCommand> {
    let mut sys_children: Vec<Node<TrgCommand>> = Vec::new();
    sys_children.push(Node::Leaf(Leaf {
        name: b"VERSion".to_vec(),
        default: true,
        handler: TrgCommand,
    }));
    sys_children.push(Node::Leaf(Leaf {
        name: b"LOCK".to_vec(),
        default: false,
        handler: TrgCommand,
    }));
    let mut children: Vec<Node<TrgCommand>> = Vec::new();
    children.push(Node::Leaf(ieee488_trg()));
    children.push(Node::Branch(Branch { name: b"SYSTem".to_vec(), children: sys_children }));
    Node::Branch(Branch { name: b"ROOT".to_vec(), children })
}

#[test]
fn branched_tree_is_well_formed() {
    assert!(check_node(&branched_tree()));
}

#[test]
fn long_form_resolves() {
    let tree = branched_tree();
    let mut dev = CountingDevice { triggers: 0 };
    let out = dispatch(&tree, &mut dev, b"SYSTEM:VERSION");
    assert_eq!(out.errors.len(), 0);
    assert_eq!(dev.triggers, 1);
}

#[test]
fn short_form_resolves() {
    let tree = branched_tree();
    let mut dev = CountingDevice { triggers: 0 };
    let out = dispatch(&tree, &mut dev, b"SYST:VERS");
    assert_eq!(out.errors.len(), 0);
    assert_eq!(dev.triggers, 1);
}

#[test]
fn mixed_case_resolves() {
    let tree = branched_tree();
    let mut dev = CountingDevice { triggers: 0 };
    let out = dispatch(&tree, &mut dev, b"sYsT:vErSiOn");
    assert_eq!(out.errors.len(), 0);
    assert_eq!(dev.triggers, 1);
}

#[test]
fn default_leaf_serves_a_path_ending_at_its_branch() {
    let tree = branched_tree();
    let mut dev = CountingDevice { triggers: 0 };
    let out = dispatch(&tree, &mut dev, b"SYST");
    assert_eq!(out.errors.len(), 0);
    assert_eq!(dev.triggers, 1);
}

#[test]
fn unknown_path_at_depth_is_undefined_header() {
    let tree = branched_tree();
    let mut dev = CountingDevice { triggers: 0 };
    let out = dispatch(&tree, &mut dev, b"SYST:BOGUS");
    assert_eq!(dev.triggers, 0);
    assert_eq!(out.errors.len(), 1);
    assert_eq!(out.errors[0].err, Error::UndefinedHeader);
}

#[test]
fn too_short_abbreviation_is_undefined_header() {
    let tree = branched_tree();
    let mut dev = CountingDevice { triggers: 0 };
    let out = dispatch(&tree, &mut dev, b"SYS:VERS");
    assert_eq!(dev.triggers, 0);
    assert_eq!(out.errors[0].err, Error::UndefinedHeader);
}

#[test]
fn carried_branch_state_serves_second_unit() {
    let tree = branched_tree();
    let mut dev = CountingDevice { triggers: 0 };
    // Unit 1 resolves SYSTem:VERSion; unit 2 continues from SYSTem.
    let out = dispatch(&tree, &mut dev, b"SYST:VERS;LOCK");
    assert_eq!(out.errors.len(), 0);
    assert_eq!(dev.triggers, 2);
}

#[test]
fn leading_colon_anchors_to_root() {
    let tree = branched_tree();
    let mut dev = CountingDevice { triggers: 0 };
    let out = dispatch(&tree, &mut dev, b"SYST:VERS;:SYST:LOCK");
    assert_eq!(out.errors.len(), 0);
    assert_eq!(dev.triggers, 2);
}

#[test]
fn carried_state_does_not_reach_root_names() {
    let tree = branched_tree();
    let mut dev = CountingDevice { triggers: 0 };
    // After SYST:VERS the carried branch is SYSTem, where VERSB does not
    // exist; the sibling unit still runs.
    let out = dispatch(&tree, &mut dev, b"SYST:VERS;VERSB;LOCK");
    assert_eq!(dev.triggers, 2);
    assert_eq!(out.errors.len(), 1);
    assert_eq!(out.errors[0].unit, 1);
    assert_eq!(out.errors[0].err, Error::UndefinedHeader);
}

#[test]
fn common_command_does_not_disturb_carried_state() {
    let tree = branched_tree();
    let mut dev = CountingDevice { triggers: 0 };
    let out = dispatch(&tree, &mut dev, b"SYST:VERS;*TRG;LOCK");
    assert_eq!(out.errors.len(), 0);
    assert_eq!(dev.triggers, 3);
}

#[test]
fn query_on_event_only_leaf_at_depth_is_rejected() {
    let tree = branched_tree();
    let mut dev = CountingDevice { triggers: 0 };
    let out = dispatch(&tree, &mut dev, b"SYST:VERS?");
    assert_eq!(dev.triggers, 0);
    assert_eq!(out.errors[0].err, Error::ModeNotSupported);
}

#[test]
fn short_len_is_the_uppercase_prefix() {
    assert_eq!(short_len(&b"SYSTem".to_vec()), 4);
    assert_eq!(short_len(&b"LOCK".to_vec()), 4);
    assert_eq!(short_len(&b"*TRG".to_vec()), 4);
}

#[test]
fn matching_accepts_short_to_long_prefixes() {
    let name = b"VERSion".to_vec();
    assert!(mnemonic_matches(&name, &b"VERS".to_vec()));
    assert!(mnemonic_matches(&name, &b"VERSI".to_vec()));
    assert!(mnemonic_matches(&name, &b"VERSION".to_vec()));
    assert!(mnemonic_matches(&name, &b"vers".to_vec()));
    assert!(!mnemonic_matches(&name, &b"VER".to_vec()));
    assert!(!mnemonic_matches(&name, &b"VERSIONS".to_vec()));
    assert!(!mnemonic_matches(&name, &b"".to_vec()));
}
