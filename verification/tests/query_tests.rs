//! The query path end to end: an integrator-side command set (an enum of
//! handlers) with a query-capable leaf, driving the response sink.

use scpi_dispatch::command::{Command, CommandKind, CommandMeta, CommonTrg, Device, IEEE4882};
use scpi_dispatch::dispatch::{dispatch, Context};
use scpi_dispatch::error::Error;
use scpi_dispatch::params::Parameters;
use scpi_dispatch::response::ResponseUnit;
use scpi_dispatch::tree::{Branch, Leaf, Node};

struct Meter {
    triggers: u32,
    value: u32,
}

impl Device for Meter {}

impl IEEE4882 for Meter {}

impl CommonTrg for Meter {
    fn trig_spec(pre: Self, post: Self, r: Result<(), Error>) -> bool {
        post.triggers == pre.triggers.wrapping_add(1) && post.value == pre.value && r.is_ok()
    }

    fn trig_bus(&mut self) -> Result<(), Error> {
        self.triggers += 1;
        Ok(())
    }
}

/// The integrator's command set: one handler type per tree, dispatching by
/// variant.
enum MeterCommand {
    Trg,
    Value,
}

impl CommandMeta for MeterCommand {
    fn kind_spec(&self) -> CommandKind {
        match self {
            MeterCommand::Trg => CommandKind::EventOnly,
            MeterCommand::Value => CommandKind::QueryOnly,
        }
    }

    fn kind(&self) -> CommandKind {
        match self {
            MeterCommand::Trg => CommandKind::EventOnly,
            MeterCommand::Value => CommandKind::QueryOnly,
        }
    }
}

impl Command<Meter> for MeterCommand {
    fn event_spec(&self, pre: Meter, post: Meter, r: Result<(), Error>) -> bool {
        match self {
            MeterCommand::Trg => {
                post.triggers == pre.triggers.wrapping_add(1) && post.value == pre.value
                    && r.is_ok()
            },
            MeterCommand::Value => r == Err(Error::ModeNotSupported),
        }
    }

    fn query_spec(&self, pre: Meter, post: Meter, r: Result<(), Error>, resp: ResponseUnit) -> bool {
        match self {
            MeterCommand::Trg => r == Err(Error::ModeNotSupported),
            MeterCommand::Value => {
                post.triggers == pre.triggers && post.value == pre.value && r.is_ok()
                    && resp.fields.len() == 2
            },
        }
    }

    fn event(
        &self,
        device: &mut Meter,
        _context: &mut Context,
        _params: &mut Parameters,
    ) -> Result<(), Error> {
        match self {
            MeterCommand::Trg => device.trig_bus(),
            MeterCommand::Value => Err(Error::ModeNotSupported),
        }
    }

    fn query(
        &self,
        device: &mut Meter,
        _context: &mut Context,
        _params: &mut Parameters,
        response: &mut ResponseUnit,
    ) -> Result<(), Error> {
        match self {
            MeterCommand::Trg => Err(Error::ModeNotSupported),
            MeterCommand::Value => {
                response.push_u32(device.value);
                response.push_bytes(b"OK".to_vec());
                Ok(())
            },
        }
    }
}

fn meter_tree() -> Node<MeterCommand> {
    let mut children: Vec<Node<MeterCommand>> = Vec::new();
    children.push(Node::Leaf(Leaf {
        name: b"*TRG".to_vec(),
        default: false,
        handler: MeterCommand::Trg,
    }));
    children.push(Node::Leaf(Leaf {
        name: b"VALue".to_vec(),
        default: false,
        handler: MeterCommand::Value,
    }));
    Node::Branch(Branch { name: b"ROOT".to_vec(), children })
}

#[test]
fn query_unit_writes_its_response_fields() {
    let tree = meter_tree();
    let mut dev = Meter { triggers: 0, value: 407 };
    let out = dispatch(&tree, &mut dev, b"VAL?");
    assert_eq!(out.errors.len(), 0);
    assert_eq!(out.response, b"407,OK".to_vec());
}

#[test]
fn two_query_units_join_with_the_response_delimiter() {
    let tree = meter_tree();
    let mut dev = Meter { triggers: 0, value: 7 };
    let out = dispatch(&tree, &mut dev, b"VAL?;VAL?");
    assert_eq!(out.errors.len(), 0);
    assert_eq!(out.response, b"7,OK;7,OK".to_vec());
}

#[test]
fn event_on_query_only_leaf_is_rejected() {
    let tree = meter_tree();
    let mut dev = Meter { triggers: 0, value: 7 };
    let out = dispatch(&tree, &mut dev, b"VAL");
    assert_eq!(out.errors.len(), 1);
    assert_eq!(out.errors[0].err, Error::ModeNotSupported);
    assert_eq!(out.response.len(), 0);
}

#[test]
fn events_between_queries_leave_no_response_text() {
    let tree = meter_tree();
    let mut dev = Meter { triggers: 0, value: 9 };
    let out = dispatch(&tree, &mut dev, b"*TRG;VAL?;*TRG");
    assert_eq!(out.errors.len(), 0);
    assert_eq!(dev.triggers, 2);
    assert_eq!(out.response, b"9,OK".to_vec());
}
