//! The dispatcher: a raw command line is split into compound units; each
//! unit's path is resolved against the tree from the carried branch state,
//! the query marker is checked against the leaf's declared modes, and the
//! handler is invoked. A failing unit is recorded and never aborts its
//! sibling units.

use vstd::prelude::*;
use crate::ascii::views;
use crate::error::Error;
use crate::command::{Command, CommandMeta, CommandKind, kind_allows_event, kind_allows_query};
use crate::params::Parameters;
use crate::response::ResponseUnit;
use crate::tokenizer::{
    ParsedUnitS,
    spec_line_units,
    spec_parse_unit,
    spec_split,
    lemma_parse_unit_path_nonempty,
    trim,
    split,
    parse_unit,
};
use crate::tree::{Node, spec_node_at, spec_walk, view_path, walk_exec};

verus! {

/// The per-dispatch state a handler may introspect: the index path of the
/// leaf being served and the position of its compound unit in the line.
pub struct Context {
    pub leaf_pos: Vec<usize>,
    pub unit_index: usize,
}

/// One handler invocation, as the model records it: the unit's position in
/// the line, the resolved leaf's index path, the invocation mode and the
/// raw parameter fields.
pub ghost struct Invocation {
    pub unit: int,
    pub leaf: Seq<int>,
    pub query: bool,
    pub params: Seq<Seq<u8>>,
}

/// The outcome of one handler invocation, as the model records it: the
/// handler's result, and the response sink as the handler left it (an
/// event invocation's sink stays empty: the handler never sees one).
pub ghost struct InvocationOutcome {
    pub result: Result<(), Error>,
    pub resp: ResponseUnit,
}

/// What the dispatcher does with one compound unit: invoke a resolved leaf,
/// or fail with a protocol error before any handler runs.
pub ghost enum UnitPlan {
    Invoke { leaf: Seq<int>, query: bool, params: Seq<Seq<u8>> },
    Fail { err: Error },
}

/// An error recorded against one compound unit.
#[derive(Clone, Copy, PartialEq, Eq, Structural, Debug)]
pub struct UnitError {
    pub unit: usize,
    pub err: Error,
}

/// Where resolution of a unit starts: the root for an anchored or common
/// header, else the carried branch state.
pub open spec fn spec_start_pos(carried: Seq<int>, p: ParsedUnitS) -> Seq<int> {
    if p.anchored || p.common {
        seq![]
    } else {
        carried
    }
}

/// The declared modes of the handler at `pos`; meaningful when `pos` names
/// a leaf.
pub open spec fn spec_kind_at<H: CommandMeta>(root: Node<H>, pos: Seq<int>) -> CommandKind {
    match spec_node_at(root, pos) {
        Some(n) => match n {
            Node::Leaf(l) => l.handler.kind_spec(),
            Node::Branch(_) => CommandKind::EventAndQuery,
        },
        None => CommandKind::EventAndQuery,
    }
}

/// The dispatcher's decision for one unit, and the carried branch state
/// left for the next unit: a malformed or unresolved header fails with
/// `UndefinedHeader` and leaves the carried state alone; a resolved leaf
/// updates the carried state to its parent (a common header leaves it
/// alone) and is invoked exactly when it supports the requested mode, else
/// the unit fails with `ModeNotSupported`.
pub open spec fn spec_plan_unit<H: CommandMeta>(
    root: Node<H>,
    carried: Seq<int>,
    pu: Option<ParsedUnitS>,
) -> (UnitPlan, Seq<int>) {
    match pu {
        None => (UnitPlan::Fail { err: Error::UndefinedHeader }, carried),
        Some(p) => match spec_walk(root, spec_start_pos(carried, p), p.path, 0) {
            None => (UnitPlan::Fail { err: Error::UndefinedHeader }, carried),
            Some(leafpos) => {
                let newc = if p.common {
                    carried
                } else {
                    leafpos.drop_last()
                };
                let k = spec_kind_at(root, leafpos);
                let ok = if p.query {
                    kind_allows_query(k)
                } else {
                    kind_allows_event(k)
                };
                if ok {
                    (UnitPlan::Invoke { leaf: leafpos, query: p.query, params: p.params }, newc)
                } else {
                    (UnitPlan::Fail { err: Error::ModeNotSupported }, newc)
                }
            },
        },
    }
}

/// The dispatcher's decisions for a sequence of units, threading the
/// carried branch state left to right; the second component is the carried
/// state after the last unit.
pub open spec fn spec_plan<H: CommandMeta>(
    root: Node<H>,
    carried: Seq<int>,
    parsed: Seq<Option<ParsedUnitS>>,
) -> (Seq<UnitPlan>, Seq<int>)
    decreases parsed.len(),
{
    if parsed.len() == 0 {
        (seq![], carried)
    } else {
        let hd = spec_plan_unit(root, carried, parsed[0]);
        let tl = spec_plan(root, hd.1, parsed.drop_first());
        (seq![hd.0] + tl.0, tl.1)
    }
}

/// The dispatcher's decisions for a whole raw line.
pub open spec fn spec_line_plan<H: CommandMeta>(root: Node<H>, line: Seq<u8>) -> Seq<UnitPlan> {
    spec_plan(root, seq![], spec_line_units(line)).0
}

/// The handler invocations a plan performs, in unit order; `base` is the
/// position of the plan's first unit in the line.
pub open spec fn spec_invocations(plan: Seq<UnitPlan>, base: int) -> Seq<Invocation>
    decreases plan.len(),
{
    if plan.len() == 0 {
        seq![]
    } else {
        let rest = spec_invocations(plan.drop_first(), base + 1);
        match plan[0] {
            UnitPlan::Invoke { leaf, query, params } => seq![
                Invocation { unit: base, leaf, query, params },
            ] + rest,
            UnitPlan::Fail { .. } => rest,
        }
    }
}

/// How many units a plan invokes.
pub open spec fn spec_count_invokes(plan: Seq<UnitPlan>) -> int
    decreases plan.len(),
{
    if plan.len() == 0 {
        0
    } else {
        (if plan[0] is Invoke {
            1int
        } else {
            0int
        }) + spec_count_invokes(plan.drop_first())
    }
}

/// The exact error record of a line: one entry per failed unit carrying the
/// plan's error, one entry per invoked unit whose handler returned an error
/// carrying that error, in unit order, and nothing else. `outs` holds the
/// outcomes of the plan's invocations, in order.
pub open spec fn spec_error_record(
    plan: Seq<UnitPlan>,
    outs: Seq<InvocationOutcome>,
    base: int,
) -> Seq<UnitError>
    decreases plan.len(),
{
    if plan.len() == 0 {
        seq![]
    } else {
        match plan[0] {
            UnitPlan::Fail { err } => seq![UnitError { unit: base as usize, err }]
                + spec_error_record(plan.drop_first(), outs, base + 1),
            UnitPlan::Invoke { .. } => if outs.len() == 0 {
                spec_error_record(plan.drop_first(), outs, base + 1)
            } else {
                (match outs[0].result {
                    Ok(_) => seq![],
                    Err(e) => seq![UnitError { unit: base as usize, err: e }],
                }) + spec_error_record(plan.drop_first(), outs.drop_first(), base + 1)
            },
        }
    }
}

/// The serialized reply of every successful query invocation, in unit
/// order: what the dispatcher concatenates into the line's response.
pub open spec fn spec_replies(invs: Seq<Invocation>, outs: Seq<InvocationOutcome>) -> Seq<Seq<u8>>
    decreases invs.len(),
{
    if invs.len() == 0 || outs.len() == 0 {
        seq![]
    } else {
        (if invs[0].query && outs[0].result is Ok {
            seq![crate::response::spec_join_fields(outs[0].resp.fields_view(), 0)]
        } else {
            seq![]
        }) + spec_replies(invs.drop_first(), outs.drop_first())
    }
}

/// What one recorded invocation promises of the device: the handler the
/// invocation's leaf holds relates the device before the call, the device
/// after it, and the recorded outcome by its own declared contract
/// (`event_spec` or `query_spec`); an event invocation leaves the sink
/// empty, since the handler never sees one.
pub open spec fn spec_handler_rel<D, H: Command<D>>(
    root: Node<H>,
    inv: Invocation,
    pre: D,
    post: D,
    o: InvocationOutcome,
) -> bool {
    match spec_node_at(root, inv.leaf) {
        Some(n) => match n {
            Node::Leaf(l) => if inv.query {
                l.handler.query_spec(pre, post, o.result, o.resp)
            } else {
                l.handler.event_spec(pre, post, o.result) && o.resp.fields_view() == Seq::<
                    Seq<u8>,
                >::empty()
            },
            Node::Branch(_) => true,
        },
        None => true,
    }
}

/// A plan covers exactly as many entries as there are units.
pub proof fn lemma_plan_len<H: CommandMeta>(
    root: Node<H>,
    carried: Seq<int>,
    parsed: Seq<Option<ParsedUnitS>>,
)
    ensures
        spec_plan(root, carried, parsed).0.len() == parsed.len(),
    decreases parsed.len(),
{
    if parsed.len() > 0 {
        lemma_plan_len(root, spec_plan_unit(root, carried, parsed[0]).1, parsed.drop_first());
    }
}

/// A plan never invokes a negative number of units.
pub proof fn lemma_count_invokes_nonneg(plan: Seq<UnitPlan>)
    ensures
        spec_count_invokes(plan) >= 0,
    decreases plan.len(),
{
    if plan.len() > 0 {
        lemma_count_invokes_nonneg(plan.drop_first());
    }
}

/// Appending one more unit to a plan adds one to its invocation count
/// exactly when that unit is invoked.
pub proof fn lemma_count_invokes_push(plan: Seq<UnitPlan>, entry: UnitPlan)
    ensures
        spec_count_invokes(plan.push(entry)) == spec_count_invokes(plan) + (if entry is Invoke {
            1int
        } else {
            0int
        }),
    decreases plan.len(),
{
    if plan.len() == 0 {
        assert(plan.push(entry)[0] == entry);
        assert(plan.push(entry).drop_first() =~= Seq::<UnitPlan>::empty());
        assert(spec_count_invokes(Seq::<UnitPlan>::empty()) == 0);
    } else {
        assert(plan.push(entry)[0] == plan[0]);
        assert(plan.push(entry).drop_first() =~= plan.drop_first().push(entry));
        lemma_count_invokes_push(plan.drop_first(), entry);
    }
}

/// The error record of a plan extended by one failed unit is the old
/// record with that unit's error appended.
pub proof fn lemma_error_record_extend_fail(
    plan: Seq<UnitPlan>,
    outs: Seq<InvocationOutcome>,
    base: int,
    err: Error,
)
    requires
        outs.len() == spec_count_invokes(plan),
    ensures
        spec_error_record(plan.push(UnitPlan::Fail { err }), outs, base) == spec_error_record(
            plan,
            outs,
            base,
        ) + seq![UnitError { unit: (base + plan.len()) as usize, err }],
    decreases plan.len(),
{
    let entry = UnitPlan::Fail { err };
    let pp = plan.push(entry);
    let c = seq![UnitError { unit: (base + plan.len()) as usize, err }];
    if plan.len() == 0 {
        assert(pp[0] == entry);
        assert(pp.drop_first() =~= Seq::<UnitPlan>::empty());
        assert(spec_error_record(Seq::<UnitPlan>::empty(), outs, base + 1) =~= Seq::<
            UnitError,
        >::empty());
        assert(spec_error_record(pp, outs, base) =~= c);
        assert(spec_error_record(plan, outs, base) + c =~= c);
    } else {
        assert(pp[0] == plan[0]);
        assert(pp.drop_first() =~= plan.drop_first().push(entry));
        match plan[0] {
            UnitPlan::Fail { err: e0 } => {
                lemma_error_record_extend_fail(plan.drop_first(), outs, base + 1, err);
                let a = seq![UnitError { unit: base as usize, err: e0 }];
                let b = spec_error_record(plan.drop_first(), outs, base + 1);
                assert(a + (b + c) =~= (a + b) + c);
            },
            UnitPlan::Invoke { .. } => {
                lemma_count_invokes_nonneg(plan.drop_first());
                assert(outs.len() >= 1);
                lemma_error_record_extend_fail(plan.drop_first(), outs.drop_first(), base + 1, err);
                let a = match outs[0].result {
                    Ok(_) => seq![],
                    Err(e) => seq![UnitError { unit: base as usize, err: e }],
                };
                let b = spec_error_record(plan.drop_first(), outs.drop_first(), base + 1);
                assert(a + (b + c) =~= (a + b) + c);
            },
        }
    }
}

/// The error record of a plan extended by one invoked unit, with that
/// unit's outcome, is the old record with the handler-reported error
/// appended when there is one, and the old record when the handler
/// succeeded.
pub proof fn lemma_error_record_extend_invoke(
    plan: Seq<UnitPlan>,
    outs: Seq<InvocationOutcome>,
    base: int,
    entry: UnitPlan,
    o: InvocationOutcome,
)
    requires
        outs.len() == spec_count_invokes(plan),
        entry is Invoke,
    ensures
        spec_error_record(plan.push(entry), outs.push(o), base) == spec_error_record(
            plan,
            outs,
            base,
        ) + (match o.result {
            Ok(_) => seq![],
            Err(e) => seq![UnitError { unit: (base + plan.len()) as usize, err: e }],
        }),
    decreases plan.len(),
{
    let pp = plan.push(entry);
    let oo = outs.push(o);
    let c = match o.result {
        Ok(_) => seq![],
        Err(e) => seq![UnitError { unit: (base + plan.len()) as usize, err: e }],
    };
    if plan.len() == 0 {
        assert(outs.len() == 0);
        assert(pp[0] == entry);
        assert(pp.drop_first() =~= Seq::<UnitPlan>::empty());
        assert(oo[0] == o);
        assert(oo.drop_first() =~= Seq::<InvocationOutcome>::empty());
        assert(oo.len() == 1);
        assert(spec_error_record(Seq::<UnitPlan>::empty(), oo.drop_first(), base + 1) =~= Seq::<
            UnitError,
        >::empty());
        assert(spec_error_record(pp, oo, base) =~= c);
        assert(spec_error_record(plan, outs, base) + c =~= c);
    } else {
        assert(pp[0] == plan[0]);
        assert(pp.drop_first() =~= plan.drop_first().push(entry));
        match plan[0] {
            UnitPlan::Fail { err: e0 } => {
                lemma_error_record_extend_invoke(plan.drop_first(), outs, base + 1, entry, o);
                let a = seq![UnitError { unit: base as usize, err: e0 }];
                let b = spec_error_record(plan.drop_first(), outs, base + 1);
                assert(a + (b + c) =~= (a + b) + c);
            },
            UnitPlan::Invoke { .. } => {
                lemma_count_invokes_nonneg(plan.drop_first());
                assert(outs.len() >= 1);
                assert(oo[0] == outs[0]);
                assert(oo.drop_first() =~= outs.drop_first().push(o));
                lemma_error_record_extend_invoke(
                    plan.drop_first(),
                    outs.drop_first(),
                    base + 1,
                    entry,
                    o,
                );
                let a = match outs[0].result {
                    Ok(_) => seq![],
                    Err(e) => seq![UnitError { unit: base as usize, err: e }],
                };
                let b = spec_error_record(plan.drop_first(), outs.drop_first(), base + 1);
                assert(a + (b + c) =~= (a + b) + c);
            },
        }
    }
}

/// Recording one more invocation appends its serialized reply exactly when
/// it was a successful query.
pub proof fn lemma_replies_extend(
    invs: Seq<Invocation>,
    outs: Seq<InvocationOutcome>,
    inv: Invocation,
    o: InvocationOutcome,
)
    requires
        invs.len() == outs.len(),
    ensures
        spec_replies(invs.push(inv), outs.push(o)) == spec_replies(invs, outs) + (if inv.query
            && o.result is Ok {
            seq![crate::response::spec_join_fields(o.resp.fields_view(), 0)]
        } else {
            seq![]
        }),
    decreases invs.len(),
{
    let ii = invs.push(inv);
    let oo = outs.push(o);
    let c: Seq<Seq<u8>> = if inv.query && o.result is Ok {
        seq![crate::response::spec_join_fields(o.resp.fields_view(), 0)]
    } else {
        seq![]
    };
    if invs.len() == 0 {
        assert(ii[0] == inv);
        assert(oo[0] == o);
        assert(ii.drop_first() =~= Seq::<Invocation>::empty());
        assert(oo.drop_first() =~= Seq::<InvocationOutcome>::empty());
        assert(spec_replies(Seq::<Invocation>::empty(), Seq::<InvocationOutcome>::empty())
            =~= Seq::<Seq<u8>>::empty());
        assert(spec_replies(ii, oo) =~= c);
        assert(spec_replies(invs, outs) + c =~= c);
    } else {
        assert(ii[0] == invs[0]);
        assert(oo[0] == outs[0]);
        assert(ii.drop_first() =~= invs.drop_first().push(inv));
        assert(oo.drop_first() =~= outs.drop_first().push(o));
        lemma_replies_extend(invs.drop_first(), outs.drop_first(), inv, o);
        let a: Seq<Seq<u8>> = if invs[0].query && outs[0].result is Ok {
            seq![crate::response::spec_join_fields(outs[0].resp.fields_view(), 0)]
        } else {
            seq![]
        };
        let b = spec_replies(invs.drop_first(), outs.drop_first());
        assert(a + (b + c) =~= (a + b) + c);
    }
}

/// A unit whose trailing query marker asks a query of a leaf declared
/// event-only is failed with `ModeNotSupported`, so its handler is never
/// invoked (no `Invoke` entry is planned for it).
pub proof fn lemma_event_only_query_rejected<H: CommandMeta>(
    root: Node<H>,
    carried: Seq<int>,
    p: ParsedUnitS,
)
    requires
        p.query,
        spec_walk(root, spec_start_pos(carried, p), p.path, 0) is Some,
        spec_kind_at(root, spec_walk(root, spec_start_pos(carried, p), p.path, 0)->0)
            is EventOnly,
    ensures
        spec_plan_unit(root, carried, Some(p)).0 == (UnitPlan::Fail {
            err: Error::ModeNotSupported,
        }),
{
}

/// A unit whose path does not resolve — a malformed header, or a mnemonic
/// with no matching child at any branch depth — is failed with
/// `UndefinedHeader`, so no handler is invoked for it, and the carried
/// branch state is left alone.
pub proof fn lemma_unknown_path_rejected<H: CommandMeta>(
    root: Node<H>,
    carried: Seq<int>,
    pu: Option<ParsedUnitS>,
)
    requires
        pu is None || spec_walk(root, spec_start_pos(carried, pu->0), pu->0.path, 0) is None,
    ensures
        spec_plan_unit(root, carried, pu).0 == (UnitPlan::Fail { err: Error::UndefinedHeader }),
        spec_plan_unit(root, carried, pu).1 == carried,
{
}

/// Every recorded invocation comes from a unit the plan invokes: a failed
/// unit never reaches a handler.
pub proof fn lemma_invocations_sound(plan: Seq<UnitPlan>, base: int, k: int)
    requires
        0 <= k < spec_invocations(plan, base).len(),
    ensures
        ({
            let inv = spec_invocations(plan, base)[k];
            base <= inv.unit < base + plan.len() && plan[inv.unit - base] == (UnitPlan::Invoke {
                leaf: inv.leaf,
                query: inv.query,
                params: inv.params,
            })
        }),
    decreases plan.len(),
{
    let rest = spec_invocations(plan.drop_first(), base + 1);
    match plan[0] {
        UnitPlan::Invoke { leaf, query, params } => {
            if k == 0 {
            } else {
                lemma_invocations_sound(plan.drop_first(), base + 1, k - 1);
                let inv = rest[k - 1];
                assert(plan.drop_first()[inv.unit - (base + 1)] == plan[inv.unit - base]);
            }
        },
        UnitPlan::Fail { .. } => {
            lemma_invocations_sound(plan.drop_first(), base + 1, k);
            let inv = rest[k];
            assert(plan.drop_first()[inv.unit - (base + 1)] == plan[inv.unit - base]);
        },
    }
}

/// Every unit the plan invokes is recorded as an invocation — in
/// particular, a unit that fails (in resolution, mode check, or in its
/// handler) never suppresses the invocation of a sibling unit.
pub proof fn lemma_invocations_complete(plan: Seq<UnitPlan>, base: int, j: int)
    requires
        0 <= j < plan.len(),
        plan[j] is Invoke,
    ensures
        exists|k: int|
            {
                &&& 0 <= k < spec_invocations(plan, base).len()
                &&& (#[trigger] spec_invocations(plan, base)[k]).unit == base + j
                &&& plan[j] == (UnitPlan::Invoke {
                    leaf: spec_invocations(plan, base)[k].leaf,
                    query: spec_invocations(plan, base)[k].query,
                    params: spec_invocations(plan, base)[k].params,
                })
            },
    decreases plan.len(),
{
    let invs = spec_invocations(plan, base);
    let rest = spec_invocations(plan.drop_first(), base + 1);
    if j == 0 {
        match plan[0] {
            UnitPlan::Invoke { leaf, query, params } => {
                assert(invs[0] == Invocation { unit: base, leaf, query, params });
            },
            UnitPlan::Fail { .. } => {
                assert(false);
            },
        }
    } else {
        assert(plan.drop_first()[j - 1] == plan[j]);
        lemma_invocations_complete(plan.drop_first(), base + 1, j - 1);
        let k0 = choose|k: int|
            {
                &&& 0 <= k < rest.len()
                &&& (#[trigger] rest[k]).unit == (base + 1) + (j - 1)
                &&& plan.drop_first()[j - 1] == (UnitPlan::Invoke {
                    leaf: rest[k].leaf,
                    query: rest[k].query,
                    params: rest[k].params,
                })
            };
        match plan[0] {
            UnitPlan::Invoke { leaf, query, params } => {
                assert(invs[k0 + 1] == rest[k0]);
            },
            UnitPlan::Fail { .. } => {
                assert(invs[k0] == rest[k0]);
            },
        }
    }
}

/// A clean line reports no error: when every unit of the plan is invoked
/// and every recorded outcome is a success, the error record is empty.
pub proof fn lemma_clean_line_reports_no_error(
    plan: Seq<UnitPlan>,
    outs: Seq<InvocationOutcome>,
    base: int,
)
    requires
        outs.len() == spec_count_invokes(plan),
        forall|j: int| 0 <= j < plan.len() ==> #[trigger] plan[j] is Invoke,
        forall|k: int| 0 <= k < outs.len() ==> (#[trigger] outs[k]).result is Ok,
    ensures
        spec_error_record(plan, outs, base).len() == 0,
    decreases plan.len(),
{
    if plan.len() > 0 {
        assert(plan[0] is Invoke);
        lemma_count_invokes_nonneg(plan.drop_first());
        assert(outs.len() >= 1);
        assert(outs[0].result is Ok);
        let rp = plan.drop_first();
        let ro = outs.drop_first();
        assert forall|j: int| 0 <= j < rp.len() implies #[trigger] rp[j] is Invoke by {
            assert(rp[j] == plan[j + 1]);
        }
        assert forall|k: int| 0 <= k < ro.len() implies (#[trigger] ro[k]).result is Ok by {
            assert(ro[k] == outs[k + 1]);
        }
        lemma_clean_line_reports_no_error(rp, ro, base + 1);
        assert(spec_error_record(plan, outs, base) =~= Seq::<UnitError>::empty()
            + spec_error_record(rp, ro, base + 1));
    }
}

/// A plan that fails every unit performs no invocation at all; with the
/// dispatcher's contract, such a line leaves the device untouched.
pub proof fn lemma_no_invocations_when_all_fail(plan: Seq<UnitPlan>, base: int)
    requires
        forall|j: int| 0 <= j < plan.len() ==> #[trigger] plan[j] is Fail,
    ensures
        spec_invocations(plan, base).len() == 0,
    decreases plan.len(),
{
    if plan.len() > 0 {
        assert(plan[0] is Fail);
        let rest = plan.drop_first();
        assert forall|j: int| 0 <= j < rest.len() implies #[trigger] rest[j] is Fail by {
            assert(rest[j] == plan[j + 1]);
        }
        lemma_no_invocations_when_all_fail(plan.drop_first(), base + 1);
    }
}

/// The plan of a unit depends only on the units before it: two lines that
/// agree on their first `n` units are planned alike on those units,
/// whatever follows — handler outcomes appear nowhere in a plan.
pub proof fn lemma_plan_prefix<H: CommandMeta>(
    root: Node<H>,
    carried: Seq<int>,
    parsed1: Seq<Option<ParsedUnitS>>,
    parsed2: Seq<Option<ParsedUnitS>>,
    n: int,
)
    requires
        0 <= n <= parsed1.len(),
        n <= parsed2.len(),
        parsed1.take(n) == parsed2.take(n),
    ensures
        spec_plan(root, carried, parsed1).0.take(n) == spec_plan(root, carried, parsed2).0.take(n),
    decreases n,
{
    lemma_plan_len(root, carried, parsed1);
    lemma_plan_len(root, carried, parsed2);
    if n == 0 {
        assert(spec_plan(root, carried, parsed1).0.take(0) =~= spec_plan(
            root,
            carried,
            parsed2,
        ).0.take(0));
    } else {
        assert(parsed1.take(n)[0] == parsed1[0]);
        assert(parsed2.take(n)[0] == parsed2[0]);
        let hd = spec_plan_unit(root, carried, parsed1[0]);
        assert(parsed1.drop_first().take(n - 1) =~= parsed1.take(n).drop_first());
        assert(parsed2.drop_first().take(n - 1) =~= parsed2.take(n).drop_first());
        lemma_plan_prefix(root, hd.1, parsed1.drop_first(), parsed2.drop_first(), n - 1);
        let tl1 = spec_plan(root, hd.1, parsed1.drop_first());
        let tl2 = spec_plan(root, hd.1, parsed2.drop_first());
        lemma_plan_len(root, hd.1, parsed1.drop_first());
        lemma_plan_len(root, hd.1, parsed2.drop_first());
        assert((seq![hd.0] + tl1.0).take(n) =~= seq![hd.0] + tl1.0.take(n - 1));
        assert((seq![hd.0] + tl2.0).take(n) =~= seq![hd.0] + tl2.0.take(n - 1));
    }
}

/// A copy of an index path.
fn copy_usizes(v: &Vec<usize>, n: usize) -> (r: Vec<usize>)
    requires
        n <= v@.len(),
    ensures
        r@ == v@.take(n as int),
{
    let mut out: Vec<usize> = Vec::new();
    let mut i: usize = 0;
    while i < n
        invariant
            i <= n <= v@.len(),
            out@ == v@.take(i as int),
        decreases n - i,
    {
        proof {
            assert(v@.take(i + 1) =~= v@.take(i as int).push(v@[i as int]));
        }
        out.push(v[i]);
        i += 1;
    }
    out
}

/// What one dispatched line produced: the serialized responses of its query
/// units, the errors recorded per unit, and, as ghost history, the handler
/// invocations that were performed, each invocation's outcome, and the
/// chain of device states the invocations passed through (`devices[0]` is
/// the device before the line, `devices[k + 1]` the device after the
/// `k`-th invocation).
///
/// The ghost history is the dispatcher's own verified record. The contract
/// pins `invoked` to the line's plan, `errors` and `response` to the
/// recorded outcomes, and each outcome together with its step of the
/// device chain to the declared contract of the handler invoked — a
/// relation the body can establish only by the real call, as far as that
/// relation pins anything down. What each handler's relation leaves open,
/// this record leaves open too.
pub struct DispatchOutcome<D> {
    pub response: Vec<u8>,
    pub errors: Vec<UnitError>,
    pub invoked: Ghost<Seq<Invocation>>,
    pub outcomes: Ghost<Seq<InvocationOutcome>>,
    pub devices: Ghost<Seq<D>>,
}

/// The worst error of a record, by severity; `None` for a clean line.
pub fn worst_error(errors: &Vec<UnitError>) -> (r: Option<Error>)
    ensures
        match r {
            None => errors@.len() == 0,
            Some(e) => errors@.len() > 0 && (exists|i: int|
                0 <= i < errors@.len() && #[trigger] errors@[i].err == e) && forall|i: int|
                0 <= i < errors@.len() ==> crate::error::spec_severity(
                    #[trigger] errors@[i].err,
                ) <= crate::error::spec_severity(e),
        },
{
    if errors.len() == 0 {
        return None;
    }
    let mut best = errors[0].err;
    let mut i: usize = 1;
    while i < errors.len()
        invariant
            1 <= i <= errors@.len(),
            errors@.len() > 0,
            exists|m: int| 0 <= m < i && #[trigger] errors@[m].err == best,
            forall|m: int|
                0 <= m < i ==> crate::error::spec_severity(#[trigger] errors@[m].err)
                    <= crate::error::spec_severity(best),
        decreases errors@.len() - i,
    {
        let e = errors[i].err;
        if crate::error::severity(e) > crate::error::severity(best) {
            best = e;
            proof {
                assert(errors@[i as int].err == best);
            }
        }
        i += 1;
    }
    Some(best)
}

/// Dispatches one raw command line against the tree, invoking the resolved
/// handlers on `device`.
///
/// The ghost record of invocations equals the line's plan: which leaf each
/// unit resolved to, in which mode, with which parameters — so a failing
/// unit never suppresses the invocations of its siblings. The error record
/// is exact: the plan's error for every failed unit, the handler-reported
/// error for every invoked unit whose outcome was an error, in unit order,
/// and nothing else. The response is the `;`-join of the serialized replies
/// of the successful query invocations. The device moves through a chain of
/// states, one step per invocation, each step related to its recorded
/// outcome by the declared contract of the handler invoked. A line whose
/// plan invokes nothing leaves the device untouched, and a line without
/// query invocations produces an empty response.
pub fn dispatch<D, H: Command<D>>(root: &Node<H>, device: &mut D, line: &[u8]) -> (out:
    DispatchOutcome<D>)
    ensures
        out.invoked@ == spec_invocations(spec_line_plan(*root, line@), 0),
        out.outcomes@.len() == out.invoked@.len(),
        out.devices@.len() == out.invoked@.len() + 1,
        out.devices@[0] == *old(device),
        out.devices@[out.invoked@.len() as int] == *final(device),
        forall|k: int|
            0 <= k < out.invoked@.len() ==> spec_handler_rel(
                *root,
                #[trigger] out.invoked@[k],
                out.devices@[k],
                out.devices@[k + 1],
                out.outcomes@[k],
            ),
        out.errors@ == spec_error_record(spec_line_plan(*root, line@), out.outcomes@, 0),
        out.response@ == crate::response::spec_join_sep(
            spec_replies(out.invoked@, out.outcomes@),
            59,
            0,
        ),
        spec_invocations(spec_line_plan(*root, line@), 0).len() == 0 ==> *final(device) == *old(
            device,
        ),
        (forall|k: int| 0 <= k < out.invoked@.len() ==> !(#[trigger] out.invoked@[k]).query)
            ==> out.response@.len() == 0,
{
    let ghost parsed_all = spec_line_units(line@);
    let ghost full_plan = spec_plan(*root, Seq::<int>::empty(), parsed_all).0;
    proof {
        lemma_plan_len(*root, Seq::<int>::empty(), parsed_all);
    }

    let tl = trim(line);
    if tl.len() == 0 {
        proof {
            assert(full_plan =~= Seq::<UnitPlan>::empty());
            assert(spec_invocations(full_plan, 0) =~= Seq::<Invocation>::empty());
        }
        proof {
            assert(crate::response::spec_join_sep(Seq::<Seq<u8>>::empty(), 59, 0) =~= Seq::<
                u8,
            >::empty());
            assert(spec_replies(Seq::<Invocation>::empty(), Seq::<InvocationOutcome>::empty())
                =~= Seq::<Seq<u8>>::empty());
            assert(spec_error_record(
                Seq::<UnitPlan>::empty(),
                Seq::<InvocationOutcome>::empty(),
                0,
            ) =~= Seq::<UnitError>::empty());
        }
        let ghost d0: Seq<D> = seq![*device];
        return DispatchOutcome {
            response: Vec::new(),
            errors: Vec::new(),
            invoked: Ghost(Seq::empty()),
            outcomes: Ghost(Seq::empty()),
            devices: Ghost(d0),
        };
    }
    let units = split(line, 59);
    proof {
        assert(parsed_all == views(units@).map_values(|u: Seq<u8>| spec_parse_unit(u)));
        assert(parsed_all.len() == units@.len());
    }

    let mut j: usize = 0;
    let mut carried: Vec<usize> = Vec::new();
    let mut carried_ref: &Node<H> = root;
    let mut errors: Vec<UnitError> = Vec::new();
    let mut response: Vec<u8> = Vec::new();
    let mut any_response = false;
    let ghost mut invoked_acc: Seq<Invocation> = Seq::empty();
    let ghost mut outcomes_acc: Seq<InvocationOutcome> = Seq::empty();
    let ghost mut devs_acc: Seq<D> = seq![*device];
    proof {
        assert(spec_replies(invoked_acc, outcomes_acc) =~= Seq::<Seq<u8>>::empty());
        assert(crate::response::spec_join_sep(spec_replies(invoked_acc, outcomes_acc), 59, 0)
            =~= Seq::<u8>::empty());
        assert(spec_error_record(Seq::<UnitPlan>::empty(), outcomes_acc, 0) =~= Seq::<
            UnitError,
        >::empty());
        assert(spec_count_invokes(Seq::<UnitPlan>::empty()) == 0);
    }
    proof {
        assert(view_path(carried@) =~= Seq::<int>::empty());
        assert(full_plan.skip(0) =~= full_plan);
        assert(parsed_all.skip(0) =~= parsed_all);
        assert(full_plan.take(0) =~= Seq::<UnitPlan>::empty());
    }

    while j < units.len()
        invariant
            j <= units@.len(),
            units@.len() == parsed_all.len(),
            parsed_all == spec_line_units(line@),
            parsed_all == views(units@).map_values(|u: Seq<u8>| spec_parse_unit(u)),
            full_plan == spec_plan(*root, Seq::<int>::empty(), parsed_all).0,
            full_plan.len() == parsed_all.len(),
            spec_node_at(*root, view_path(carried@)) == Some(*carried_ref),
            spec_plan(*root, view_path(carried@), parsed_all.skip(j as int)).0 == full_plan.skip(
                j as int,
            ),
            spec_invocations(full_plan, 0) == invoked_acc + spec_invocations(
                full_plan.skip(j as int),
                j as int,
            ),
            invoked_acc.len() == outcomes_acc.len(),
            devs_acc.len() == invoked_acc.len() + 1,
            devs_acc[0] == *old(device),
            devs_acc[invoked_acc.len() as int] == *device,
            forall|k: int|
                0 <= k < invoked_acc.len() ==> spec_handler_rel(
                    *root,
                    #[trigger] invoked_acc[k],
                    devs_acc[k],
                    devs_acc[k + 1],
                    outcomes_acc[k],
                ),
            spec_count_invokes(full_plan.take(j as int)) == outcomes_acc.len(),
            errors@ == spec_error_record(full_plan.take(j as int), outcomes_acc, 0),
            spec_invocations(full_plan, 0).len() == 0 ==> *device == *old(device),
            response@ == crate::response::spec_join_sep(
                spec_replies(invoked_acc, outcomes_acc),
                59,
                0,
            ),
            any_response == (spec_replies(invoked_acc, outcomes_acc).len() > 0),
            (forall|k: int| 0 <= k < invoked_acc.len() ==> !(#[trigger] invoked_acc[k]).query)
                ==> response@.len() == 0,
        decreases units@.len() - j,
    {
        let ghost carried0 = view_path(carried@);
        let ghost plan_entry = spec_plan_unit(*root, carried0, parsed_all[j as int]);
        proof {
            assert(parsed_all.skip(j as int)[0] == parsed_all[j as int]);
            assert(parsed_all.skip(j as int).drop_first() =~= parsed_all.skip(j + 1));
            assert(full_plan.skip(j as int)[0] == full_plan[j as int]);
            assert(full_plan.skip(j as int).drop_first() =~= full_plan.skip(j + 1));
            assert(full_plan[j as int] == plan_entry.0);
            assert(spec_plan(*root, plan_entry.1, parsed_all.skip(j + 1)).0 == full_plan.skip(
                j + 1,
            ));
            assert(full_plan.take(j + 1) =~= full_plan.take(j as int).push(full_plan[j as int]));
            assert(parsed_all[j as int] == spec_parse_unit(units@[j as int]@));
        }
        let ghost errors_before = errors@;
        let ghost invoked_before = invoked_acc;

        match parse_unit(units[j].as_slice()) {
            Err(e) => {
                errors.push(UnitError { unit: j, err: e });
                proof {
                    assert(errors@ =~= errors_before + seq![UnitError { unit: j, err: e }]);
                    assert(plan_entry.0 == (UnitPlan::Fail { err: e }));
                    lemma_count_invokes_push(full_plan.take(j as int), full_plan[j as int]);
                    lemma_error_record_extend_fail(full_plan.take(j as int), outcomes_acc, 0, e);
                    assert((0 + full_plan.take(j as int).len()) as usize == j);
                    assert(spec_invocations(full_plan.skip(j as int), j as int)
                        == spec_invocations(full_plan.skip(j + 1), j + 1));
                }
            },
            Ok(p) => {
                let ghost pv = p@;
                proof {
                    assert(parsed_all[j as int] == Some(pv));
                    lemma_parse_unit_path_nonempty(units@[j as int]@);
                    assert(pv.path.len() >= 1);
                    assert(views(p.path@).len() >= 1);
                }
                let from_root = p.anchored || p.common;
                let start_vec: Vec<usize> = if from_root {
                    Vec::new()
                } else {
                    copy_usizes(&carried, carried.len())
                };
                let start_ref: &Node<H> = if from_root {
                    root
                } else {
                    carried_ref
                };
                proof {
                    if from_root {
                        assert(view_path(start_vec@) =~= Seq::<int>::empty());
                    } else {
                        assert(start_vec@ =~= carried@);
                    }
                    assert(view_path(start_vec@) == spec_start_pos(carried0, pv));
                }
                match walk_exec(root, start_ref, start_vec, &p.path, 0) {
                    None => {
                        errors.push(UnitError { unit: j, err: Error::UndefinedHeader });
                        proof {
                            assert(errors@ =~= errors_before + seq![
                                UnitError { unit: j, err: Error::UndefinedHeader },
                            ]);
                            assert(plan_entry.0 == (UnitPlan::Fail {
                                err: Error::UndefinedHeader,
                            }));
                            lemma_count_invokes_push(
                                full_plan.take(j as int),
                                full_plan[j as int],
                            );
                            lemma_error_record_extend_fail(
                                full_plan.take(j as int),
                                outcomes_acc,
                                0,
                                Error::UndefinedHeader,
                            );
                            assert((0 + full_plan.take(j as int).len()) as usize == j);
                            assert(spec_invocations(full_plan.skip(j as int), j as int)
                                == spec_invocations(full_plan.skip(j + 1), j + 1));
                        }
                    },
                    Some(hit) => {
                        let ghost leafpos = view_path(hit.pos@);
                        let leaf = match hit.leaf {
                            Node::Leaf(l) => l,
                            Node::Branch(_) => {
                                proof {
                                    assert(false);
                                }
                                vstd::pervasive::unreached()
                            },
                        };
                        let k = leaf.handler.kind();
                        proof {
                            assert(spec_kind_at(*root, leafpos) == leaf.handler.kind_spec());
                        }
                        let is_q = p.query;
                        let allowed = match k {
                            CommandKind::EventOnly => !is_q,
                            CommandKind::QueryOnly => is_q,
                            CommandKind::EventAndQuery => true,
                        };
                        if !p.common {
                            let newc = copy_usizes(&hit.pos, hit.pos.len() - 1);
                            proof {
                                assert(view_path(newc@) =~= leafpos.drop_last());
                            }
                            carried = newc;
                            carried_ref = hit.parent;
                        }
                        proof {
                            assert(view_path(carried@) == plan_entry.1);
                        }
                        if !allowed {
                            errors.push(UnitError { unit: j, err: Error::ModeNotSupported });
                            proof {
                                assert(plan_entry.0 == (UnitPlan::Fail {
                                    err: Error::ModeNotSupported,
                                }));
                                assert(errors@ =~= errors_before + seq![
                                    UnitError { unit: j, err: Error::ModeNotSupported },
                                ]);
                                lemma_count_invokes_push(
                                    full_plan.take(j as int),
                                    full_plan[j as int],
                                );
                                lemma_error_record_extend_fail(
                                    full_plan.take(j as int),
                                    outcomes_acc,
                                    0,
                                    Error::ModeNotSupported,
                                );
                                assert((0 + full_plan.take(j as int).len()) as usize == j);
                                assert(spec_invocations(full_plan.skip(j as int), j as int)
                                    == spec_invocations(full_plan.skip(j + 1), j + 1));
                            }
                        } else {
                            let ghost params_v = views(p.params@);
                            let ghost inv = Invocation {
                                unit: j as int,
                                leaf: leafpos,
                                query: pv.query,
                                params: params_v,
                            };
                            proof {
                                assert(plan_entry.0 == (UnitPlan::Invoke {
                                    leaf: leafpos,
                                    query: pv.query,
                                    params: params_v,
                                }));
                                assert(spec_invocations(full_plan.skip(j as int), j as int)
                                    =~= seq![inv] + spec_invocations(full_plan.skip(j + 1), j + 1));
                                assert(invoked_before + spec_invocations(
                                    full_plan.skip(j as int),
                                    j as int,
                                ) =~= invoked_before.push(inv) + spec_invocations(
                                    full_plan.skip(j + 1),
                                    j + 1,
                                ));
                                assert(spec_invocations(full_plan, 0).len() >= 1) by {
                                    assert(spec_invocations(full_plan, 0) == invoked_before
                                        + spec_invocations(full_plan.skip(j as int), j as int));
                                }
                            }
                            let mut prm = Parameters::new(p.params);
                            let mut ctx = Context { leaf_pos: hit.pos, unit_index: j };
                            let mut ru = ResponseUnit::new();
                            let ghost outcomes_before = outcomes_acc;
                            let ghost devs_before = devs_acc;
                            let ghost dpre = *device;
                            let ghost replies_before = spec_replies(invoked_acc, outcomes_acc);
                            let ghost mut reply_data: Seq<u8> = Seq::empty();
                            let hres: Result<(), Error> = if is_q {
                                let r = leaf.handler.query(device, &mut ctx, &mut prm, &mut ru);
                                if r.is_ok() {
                                    let data = ru.serialize();
                                    if any_response {
                                        response.push(59);
                                    }
                                    crate::response::append_bytes(&mut response, &data);
                                    any_response = true;
                                    proof {
                                        reply_data = data@;
                                        crate::response::lemma_join_sep_push(
                                            replies_before,
                                            59,
                                            data@,
                                            0,
                                        );
                                    }
                                }
                                r
                            } else {
                                leaf.handler.event(device, &mut ctx, &mut prm)
                            };
                            let ghost dpost = *device;
                            let ghost o = InvocationOutcome { result: hres, resp: ru };
                            proof {
                                lemma_replies_extend(invoked_acc, outcomes_acc, inv, o);
                                lemma_count_invokes_push(
                                    full_plan.take(j as int),
                                    full_plan[j as int],
                                );
                                lemma_error_record_extend_invoke(
                                    full_plan.take(j as int),
                                    outcomes_before,
                                    0,
                                    plan_entry.0,
                                    o,
                                );
                                assert((0 + full_plan.take(j as int).len()) as usize == j);
                                invoked_acc = invoked_acc.push(inv);
                                outcomes_acc = outcomes_acc.push(o);
                                devs_acc = devs_acc.push(dpost);
                                assert(invoked_acc[invoked_acc.len() - 1] == inv);
                                assert(spec_node_at(*root, inv.leaf) == Some(Node::Leaf(*leaf)));
                                assert(spec_handler_rel(*root, inv, dpre, dpost, o));
                                assert forall|k: int|
                                    0 <= k < invoked_acc.len() implies spec_handler_rel(
                                    *root,
                                    #[trigger] invoked_acc[k],
                                    devs_acc[k],
                                    devs_acc[k + 1],
                                    outcomes_acc[k],
                                ) by {
                                    if k < invoked_before.len() {
                                        assert(invoked_acc[k] == invoked_before[k]);
                                        assert(outcomes_acc[k] == outcomes_before[k]);
                                        assert(devs_acc[k] == devs_before[k]);
                                        assert(devs_acc[k + 1] == devs_before[k + 1]);
                                    } else {
                                        assert(invoked_acc[k] == inv);
                                        assert(outcomes_acc[k] == o);
                                        assert(devs_acc[k] == dpre);
                                        assert(devs_acc[k + 1] == dpost);
                                    }
                                }
                                if is_q && hres is Ok {
                                    assert(reply_data == crate::response::spec_join_fields(
                                        o.resp.fields_view(),
                                        0,
                                    ));
                                    assert(spec_replies(invoked_acc, outcomes_acc)
                                        == replies_before.push(reply_data));
                                    assert(response@ == crate::response::spec_join_sep(
                                        spec_replies(invoked_acc, outcomes_acc),
                                        59,
                                        0,
                                    ));
                                } else {
                                    assert(spec_replies(invoked_acc, outcomes_acc)
                                        =~= replies_before + Seq::<Seq<u8>>::empty());
                                }
                                if !is_q {
                                    if forall|k: int|
                                        0 <= k < invoked_acc.len() ==> !(
                                        #[trigger] invoked_acc[k]).query {
                                        assert forall|k: int|
                                            0 <= k < invoked_before.len() implies !(
                                        #[trigger] invoked_before[k]).query by {
                                            assert(invoked_before[k] == invoked_acc[k]);
                                        }
                                    }
                                }
                            }
                            match hres {
                                Ok(_) => {
                                    proof {
                                        assert(errors@ =~= errors_before + Seq::<
                                            UnitError,
                                        >::empty());
                                        assert(errors@ =~= spec_error_record(
                                            full_plan.take(j + 1),
                                            outcomes_acc,
                                            0,
                                        ));
                                    }
                                },
                                Err(e) => {
                                    errors.push(UnitError { unit: j, err: e });
                                    proof {
                                        assert(errors@ =~= errors_before + seq![
                                            UnitError { unit: j, err: e },
                                        ]);
                                        assert(errors@ =~= spec_error_record(
                                            full_plan.take(j + 1),
                                            outcomes_acc,
                                            0,
                                        ));
                                    }
                                },
                            }
                        }
                    },
                }
            },
        }
        j += 1;
    }
    proof {
        assert(full_plan.skip(parsed_all.len() as int) =~= Seq::<UnitPlan>::empty());
        assert(spec_invocations(full_plan, 0) =~= invoked_acc);
        assert(full_plan.take(parsed_all.len() as int) =~= full_plan);
        assert(spec_line_plan(*root, line@) == full_plan);
    }
    let out = DispatchOutcome {
        response,
        errors,
        invoked: Ghost(invoked_acc),
        outcomes: Ghost(outcomes_acc),
        devices: Ghost(devs_acc),
    };
    proof {
        assert(out.invoked@ == invoked_acc);
        if forall|k: int| 0 <= k < out.invoked@.len() ==> !(#[trigger] out.invoked@[k]).query {
            assert forall|k: int| 0 <= k < invoked_acc.len() implies !(
            #[trigger] invoked_acc[k]).query by {
                assert(out.invoked@[k] == invoked_acc[k]);
            }
            assert(out.response@.len() == 0);
        }
    }
    out
}

} // verus!
