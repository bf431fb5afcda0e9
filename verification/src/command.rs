//! Handlers and capability interfaces: the `Command` contract a leaf's
//! handler satisfies, the device-side capability traits, and the IEEE488.2
//! `*TRG` (Group Execute Trigger analog) leaf.

use vstd::prelude::*;
use crate::error::Error;
use crate::params::Parameters;
use crate::response::ResponseUnit;
use crate::tree::Leaf;
use crate::dispatch::Context;

verus! {

/// Which of the two invocation modes a leaf's handler supports; declared
/// once per handler type and checked by the dispatcher before any call.
#[derive(Clone, Copy, PartialEq, Eq, Structural, Debug)]
pub enum CommandKind {
    EventOnly,
    QueryOnly,
    EventAndQuery,
}

/// Whether a handler of kind `k` may be invoked as an event.
pub open spec fn kind_allows_event(k: CommandKind) -> bool {
    !(k is QueryOnly)
}

/// Whether a handler of kind `k` may be invoked as a query.
pub open spec fn kind_allows_query(k: CommandKind) -> bool {
    !(k is EventOnly)
}

/// The mode declaration of a handler, independent of any device type.
pub trait CommandMeta {
    /// The declared invocation modes.
    spec fn kind_spec(&self) -> CommandKind;

    /// The declared invocation modes, as executable data.
    fn kind(&self) -> (k: CommandKind)
        ensures
            k == self.kind_spec(),
    ;
}

/// A leaf's handler, generic over the device it serves. The dispatcher
/// checks the declared kind before calling, so a handler is never invoked
/// in a mode it does not support.
///
/// Each handler declares its own contract: `event_spec` relates the device
/// before and after an event invocation to its outcome, and `query_spec`
/// additionally covers the response sink the query filled. `event` and
/// `query` promise those relations, so what the dispatcher proves about a
/// line holds for every handler that proves its own methods. The sink
/// handed to `query` is fresh: its lifetime is one compound unit.
pub trait Command<D>: CommandMeta {
    /// The handler's declared contract for one event invocation.
    spec fn event_spec(&self, pre: D, post: D, r: Result<(), Error>) -> bool;

    /// The handler's declared contract for one query invocation; `resp` is
    /// the response sink as the handler left it.
    spec fn query_spec(&self, pre: D, post: D, r: Result<(), Error>, resp: ResponseUnit) -> bool;

    /// Serves an event (no-query) invocation.
    fn event(&self, device: &mut D, context: &mut Context, params: &mut Parameters) -> (r: Result<
        (),
        Error,
    >)
        requires
            kind_allows_event(self.kind_spec()),
            old(params).wf(),
        ensures
            self.event_spec(*old(device), *final(device), r),
    ;

    /// Serves a query invocation, writing its answer to `response`.
    fn query(
        &self,
        device: &mut D,
        context: &mut Context,
        params: &mut Parameters,
        response: &mut ResponseUnit,
    ) -> (r: Result<(), Error>)
        requires
            kind_allows_query(self.kind_spec()),
            old(params).wf(),
            old(response).fields_view() == Seq::<Seq<u8>>::empty(),
        ensures
            self.query_spec(*old(device), *final(device), r, *final(response)),
    ;
}

/// The capability every device offers: being dispatchable at all.
/// Satisfaction is checked where the tree is specialized for a concrete
/// device type, never per call.
pub trait Device {

}

/// The capability of supporting the IEEE488.2 common-command baseline.
pub trait IEEE4882 {

}

/// The capability of implementing trigger logic for the `*TRG` command.
/// What one bus trigger does to the device is the implementor's own
/// contract: the implementor states it in `trig_spec`, and `trig_bus`
/// promises it, so everything proved of the trigger leaf holds for every
/// device that proves its own `trig_bus`.
pub trait CommonTrg: Sized {
    /// The implementor's contract for one bus trigger: how the device after
    /// the call relates to the device before it and to the outcome.
    spec fn trig_spec(pre: Self, post: Self, r: Result<(), Error>) -> bool;

    /// Called when `*TRG` is executed.
    fn trig_bus(&mut self) -> (r: Result<(), Error>)
        ensures
            Self::trig_spec(*old(self), *final(self), r),
    ;
}

/// The IEEE488.2 Trigger command, the command-protocol analog of the bus's
/// Group Execute Trigger: its event invocation performs the device's
/// bus-trigger operation and propagates its outcome unchanged. It has no
/// query form.
pub struct TrgCommand;

impl CommandMeta for TrgCommand {
    open spec fn kind_spec(&self) -> CommandKind {
        CommandKind::EventOnly
    }

    fn kind(&self) -> (k: CommandKind) {
        CommandKind::EventOnly
    }
}

impl<D: Device + IEEE4882 + CommonTrg> Command<D> for TrgCommand {
    open spec fn event_spec(&self, pre: D, post: D, r: Result<(), Error>) -> bool {
        D::trig_spec(pre, post, r)
    }

    open spec fn query_spec(&self, pre: D, post: D, r: Result<(), Error>, resp: ResponseUnit) -> bool {
        post == pre && r == Err::<(), Error>(Error::ModeNotSupported) && resp.fields_view() == Seq::<
            Seq<u8>,
        >::empty()
    }

    fn event(&self, device: &mut D, _context: &mut Context, _params: &mut Parameters) -> (r:
        Result<(), Error>)
        ensures
            D::trig_spec(*old(device), *final(device), r),
            *final(_context) == *old(_context),
            *final(_params) == *old(_params),
    {
        device.trig_bus()
    }

    fn query(
        &self,
        _device: &mut D,
        _context: &mut Context,
        _params: &mut Parameters,
        _response: &mut ResponseUnit,
    ) -> (r: Result<(), Error>)
        ensures
            r == Err::<(), Error>(Error::ModeNotSupported),
            *final(_device) == *old(_device),
            *final(_response) == *old(_response),
    {
        Err(Error::ModeNotSupported)
    }
}

/// The mnemonic of the trigger leaf.
pub open spec fn spec_trg_name() -> Seq<u8> {
    seq![42u8, 84u8, 82u8, 71u8]
}

/// A command node for `*TRG`: registered under the fixed common-command
/// mnemonic, non-default, served by `TrgCommand`.
pub fn ieee488_trg() -> (l: Leaf<TrgCommand>)
    ensures
        l.name@ == spec_trg_name(),
        l.default == false,
        l.handler.kind_spec() == CommandKind::EventOnly,
{
    let mut name: Vec<u8> = Vec::new();
    name.push(42);
    name.push(84);
    name.push(82);
    name.push(71);
    proof {
        assert(name@ =~= spec_trg_name());
    }
    Leaf { name, default: false, handler: TrgCommand }
}

} // verus!
