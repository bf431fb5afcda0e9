//! End-to-end dispatch scenarios: the `*TRG` trigger leaf driven through
//! the dispatcher on a counting test device.

use scpi_dispatch::command::{
    ieee488_trg, Command, CommandKind, CommandMeta, CommonTrg, Device, IEEE4882, TrgCommand,
};
use scpi_dispatch::dispatch::{dispatch, worst_error, Context, DispatchOutcome};
use scpi_dispatch::error::Error;
use scpi_dispatch::params::Parameters;
use scpi_dispatch::response::ResponseUnit;
use scpi_dispatch::tree::{Branch, Leaf, Node, check_node};

/// A test device that counts bus triggers and can be told to fail.
struct TestDevice {
    triggers: u32,
    fail_after: Option<u32>,
}

impl TestDevice {
    fn new() -> TestDevice {
        TestDevice { triggers: 0, fail_after: None }
    }
}

impl Device for TestDevice {}

impl IEEE4882 for TestDevice {}

impl CommonTrg for TestDevice {
    fn trig_spec(pre: Self, post: Self, _r: Result<(), Error>) -> bool {
        post.triggers == pre.triggers.wrapping_add(1) && post.fail_after == pre.fail_after
    }

    fn trig_bus(&mut self) -> Result<(), Error> {
        self.triggers += 1;
        match self.fail_after {
            Some(n) if self.triggers > n => Err(Error::DeviceError(-200)),
            _ => Ok(()),
        }
    }
}

fn trg_tree() -> Node<TrgCommand> {
    let mut children = Vec::new();
    children.push(Node::Leaf(ieee488_trg()));
    Node::Branch(Branch { name: b"ROOT".to_vec(), children })
}

fn run(tree: &Node<TrgCommand>, dev: &mut TestDevice, line: &[u8]) -> DispatchOutcome<TestDevice> {
    dispatch(tree, dev, line)
}

#[test]
fn trg_event_invokes_trigger_once() {
    let tree = trg_tree();
    let mut dev = TestDevice::new();
    let out = run(&tree, &mut dev, b"*TRG");
    assert_eq!(dev.triggers, 1);
    assert_eq!(out.errors.len(), 0);
    assert_eq!(out.response.len(), 0);
    assert!(worst_error(&out.errors).is_none());
}

#[test]
fn trg_query_rejected_without_invocation() {
    let tree = trg_tree();
    let mut dev = TestDevice::new();
    let out = run(&tree, &mut dev, b"*TRG?");
    assert_eq!(dev.triggers, 0);
    assert_eq!(out.errors.len(), 1);
    assert_eq!(out.errors[0].unit, 0);
    assert_eq!(out.errors[0].err, Error::ModeNotSupported);
    assert_eq!(out.response.len(), 0);
}

#[test]
fn trg_compound_invokes_twice_in_order() {
    let tree = trg_tree();
    let mut dev = TestDevice::new();
    let out = run(&tree, &mut dev, b"*TRG;*TRG");
    assert_eq!(dev.triggers, 2);
    assert_eq!(out.errors.len(), 0);
    assert_eq!(out.response.len(), 0);
}

#[test]
fn misspelled_common_command_is_undefined_header() {
    let tree = trg_tree();
    let mut dev = TestDevice::new();
    let out = run(&tree, &mut dev, b"*TRX");
    assert_eq!(dev.triggers, 0);
    assert_eq!(out.errors.len(), 1);
    assert_eq!(out.errors[0].err, Error::UndefinedHeader);
}

#[test]
fn failing_unit_does_not_abort_siblings() {
    let tree = trg_tree();
    let mut dev = TestDevice::new();
    dev.fail_after = Some(1);
    // Unit 0 triggers and succeeds, unit 1 triggers and fails, unit 2 must
    // still be invoked.
    let out = run(&tree, &mut dev, b"*TRG;*TRG;*TRG");
    assert_eq!(dev.triggers, 3);
    assert_eq!(out.errors.len(), 2);
    assert_eq!(out.errors[0].unit, 1);
    assert_eq!(out.errors[0].err, Error::DeviceError(-200));
    assert_eq!(out.errors[1].unit, 2);
    assert_eq!(worst_error(&out.errors), Some(Error::DeviceError(-200)));
}

#[test]
fn undefined_unit_does_not_abort_siblings() {
    let tree = trg_tree();
    let mut dev = TestDevice::new();
    let out = run(&tree, &mut dev, b"*TRX;*TRG");
    assert_eq!(dev.triggers, 1);
    assert_eq!(out.errors.len(), 1);
    assert_eq!(out.errors[0].unit, 0);
    assert_eq!(out.errors[0].err, Error::UndefinedHeader);
}

#[test]
fn common_command_is_case_insensitive() {
    let tree = trg_tree();
    let mut dev = TestDevice::new();
    let out = run(&tree, &mut dev, b"*trg");
    assert_eq!(dev.triggers, 1);
    assert_eq!(out.errors.len(), 0);
}

#[test]
fn blank_line_is_a_no_op() {
    let tree = trg_tree();
    let mut dev = TestDevice::new();
    let out = run(&tree, &mut dev, b"   ");
    assert_eq!(dev.triggers, 0);
    assert_eq!(out.errors.len(), 0);
    assert_eq!(out.response.len(), 0);
}

#[test]
fn leading_blanks_before_header_are_accepted() {
    let tree = trg_tree();
    let mut dev = TestDevice::new();
    let out = run(&tree, &mut dev, b"*TRG; *TRG");
    assert_eq!(dev.triggers, 2);
    assert_eq!(out.errors.len(), 0);
}

#[test]
fn trg_leaf_shape_matches_registration() {
    let leaf: Leaf<TrgCommand> = ieee488_trg();
    assert_eq!(leaf.name, b"*TRG".to_vec());
    assert!(!leaf.default);
    assert_eq!(leaf.handler.kind(), CommandKind::EventOnly);
}

#[test]
fn trg_event_handler_propagates_device_outcome() {
    let mut dev = TestDevice::new();
    dev.fail_after = Some(0);
    let mut ctx = Context { leaf_pos: Vec::new(), unit_index: 0 };
    let mut prm = Parameters::new(Vec::new());
    let r = TrgCommand.event(&mut dev, &mut ctx, &mut prm);
    assert_eq!(r, Err(Error::DeviceError(-200)));
    assert_eq!(dev.triggers, 1);
}

#[test]
fn trg_query_handler_reports_mode_not_supported() {
    let mut dev = TestDevice::new();
    let mut ctx = Context { leaf_pos: Vec::new(), unit_index: 0 };
    let mut prm = Parameters::new(Vec::new());
    let mut ru = ResponseUnit::new();
    let r = TrgCommand.query(&mut dev, &mut ctx, &mut prm, &mut ru);
    assert_eq!(r, Err(Error::ModeNotSupported));
    assert_eq!(dev.triggers, 0);
}

#[test]
fn trg_tree_is_well_formed() {
    let tree = trg_tree();
    assert!(check_node(&tree));
}

#[test]
fn duplicate_mnemonics_fail_validation() {
    let mut children: Vec<Node<TrgCommand>> = Vec::new();
    children.push(Node::Leaf(ieee488_trg()));
    children.push(Node::Leaf(Leaf { name: b"*trg".to_vec(), default: false, handler: TrgCommand }));
    let tree = Node::Branch(Branch { name: b"ROOT".to_vec(), children });
    assert!(!check_node(&tree));
}

#[test]
fn two_default_leaves_fail_validation() {
    let mut children: Vec<Node<TrgCommand>> = Vec::new();
    children.push(Node::Leaf(Leaf { name: b"ONE".to_vec(), default: true, handler: TrgCommand }));
    children.push(Node::Leaf(Leaf { name: b"TWO".to_vec(), default: true, handler: TrgCommand }));
    let tree = Node::Branch(Branch { name: b"ROOT".to_vec(), children });
    assert!(!check_node(&tree));
}
