//! The decision core of recursive resolution.
//!
//! The walk over the DNS hierarchy alternates between sending a query and
//! deciding what the answer means.  The sockets live outside this crate;
//! here lives the state machine that, fed one upstream response at a time,
//! either names the next server to ask or finishes with the packet to
//! return.  Both the iteration budget of each query and the depth of
//! nameserver sub-resolutions are capped, so a walk can never go on
//! without end; `measure_from` is the decreasing measure that shows it.

use vstd::prelude::*;

use crate::codes::ResultCode;
use crate::header::Header;
use crate::packet::{first_a, first_matching_ns, first_resolved_ns, Packet, PacketV};
use crate::question::{Question, QuestionV};
use crate::record::{Ipv4, RecordType, RecordV};

verus! {

/// How many nameserver switches one query may make before it gives up.
pub const MAX_ITERS: u8 = 16;

/// How many nameserver sub-resolutions may be outstanding at once.
pub const MAX_DEPTH: usize = 8;

/// The IPv4 address of the root nameserver the walk starts from.
pub fn root_ns() -> (ip: Ipv4)
    ensures
        ip.octets@ == root_ns_octets(),
{
    Ipv4::new(198, 41, 0, 4)
}

/// The octets of the root nameserver's address.
pub open spec fn root_ns_octets() -> Seq<u8> {
    seq![198u8, 41u8, 0u8, 4u8]
}

/// One outstanding query: what is asked, whom to ask next, how many more
/// switches it may make, and - while a sub-resolution runs below it - the
/// referral response it will fall back to.
pub struct Frame {
    pub name: Vec<u8>,
    pub qtype: RecordType,
    pub ns: Ipv4,
    pub iters_left: u8,
    pub saved: Option<Packet>,
}

/// The spec-level image of a frame.
pub struct FrameV {
    pub name: Seq<u8>,
    pub qtype: RecordType,
    pub ns: Seq<u8>,
    pub iters_left: u8,
    pub saved: Option<PacketV>,
}

impl View for Frame {
    type V = FrameV;

    open spec fn view(&self) -> FrameV {
        FrameV {
            name: self.name@,
            qtype: self.qtype,
            ns: self.ns.octets@,
            iters_left: self.iters_left,
            saved: match &self.saved {
                Some(p) => Some(p@),
                None => None,
            },
        }
    }
}

/// What the loop around the machine must do next.
pub enum Action {
    /// Send the question to port 53 of this server and feed the response
    /// back into the machine.
    Query { ns: Ipv4, name: Vec<u8>, qtype: RecordType },
    /// Resolution has ended with this packet.
    Done(Packet),
}

/// The spec-level image of an action.
pub enum ActionV {
    Query { ns: Seq<u8>, name: Seq<u8>, qtype: RecordType },
    Done(PacketV),
}

impl View for Action {
    type V = ActionV;

    open spec fn view(&self) -> ActionV {
        match self {
            Action::Query { ns, name, qtype } => ActionV::Query {
                ns: ns.octets@,
                name: name@,
                qtype: *qtype,
            },
            Action::Done(p) => ActionV::Done(p@),
        }
    }
}

/// The stack shape the machine keeps: never deeper than the cap, every
/// budget within its bound, and every frame below the top holding the
/// referral it will fall back to.
pub open spec fn stack_ok(s: Seq<FrameV>) -> bool {
    &&& s.len() <= MAX_DEPTH
    &&& forall|i: int| 0 <= i < s.len() ==> (#[trigger] s[i]).iters_left <= MAX_ITERS
    &&& forall|i: int| 0 <= i < s.len() - 1 ==> (#[trigger] s[i]).saved is Some
}

/// A response is final for its query when it answers it, or denies the
/// name outright.
pub open spec fn response_final(resp: PacketV) -> bool {
    (resp.answers.len() > 0 && resp.header.response_code == ResultCode::NoError)
        || resp.header.response_code == ResultCode::NXDomain
}

/// Hands `result` to the frames below a finished query, youngest first.
/// A parent that still has budget switches to the first address among the
/// result's answers and asks again; one without an address in the result,
/// or without budget, falls back to its saved referral and finishes in
/// turn.  With no frame left, resolution is done.
pub open spec fn spec_unwind(stack: Seq<FrameV>, result: PacketV) -> (Seq<FrameV>, ActionV)
    decreases stack.len(),
{
    if stack.len() == 0 {
        (stack, ActionV::Done(result))
    } else {
        let parent = stack.last();
        match first_a(result.answers) {
            Option::Some(ip) => {
                if parent.iters_left == 0 {
                    match parent.saved {
                        Option::Some(saved) => spec_unwind(stack.drop_last(), saved),
                        Option::None => (stack.drop_last(), ActionV::Done(result)),
                    }
                } else {
                    let p2 = FrameV {
                        ns: ip,
                        iters_left: (parent.iters_left - 1) as u8,
                        saved: Option::None,
                        ..parent
                    };
                    (
                        stack.update(stack.len() - 1, p2),
                        ActionV::Query { ns: ip, name: parent.name, qtype: parent.qtype },
                    )
                }
            },
            Option::None => {
                match parent.saved {
                    Option::Some(saved) => spec_unwind(stack.drop_last(), saved),
                    Option::None => (stack.drop_last(), ActionV::Done(result)),
                }
            },
        }
    }
}

/// One decision of the resolution machine, given the response to the top
/// frame's query: return a final response upward, switch to a glue
/// address, start a sub-resolution for an unglued nameserver, or give up
/// with the response in hand when there is nothing left to follow.
pub open spec fn spec_step(stack: Seq<FrameV>, resp: PacketV) -> (Seq<FrameV>, ActionV) {
    if stack.len() == 0 {
        (stack, ActionV::Done(resp))
    } else {
        let f = stack.last();
        if response_final(resp) {
            spec_unwind(stack.drop_last(), resp)
        } else {
            match first_resolved_ns(resp.authorities, resp.additionals, f.name) {
                Option::Some(ip) => {
                    if f.iters_left == 0 {
                        spec_unwind(stack.drop_last(), resp)
                    } else {
                        let f2 = FrameV { ns: ip, iters_left: (f.iters_left - 1) as u8, ..f };
                        (
                            stack.update(stack.len() - 1, f2),
                            ActionV::Query { ns: ip, name: f.name, qtype: f.qtype },
                        )
                    }
                },
                Option::None => {
                    match first_matching_ns(resp.authorities, f.name) {
                        Option::None => spec_unwind(stack.drop_last(), resp),
                        Option::Some(host) => {
                            if stack.len() >= MAX_DEPTH || f.iters_left == 0 {
                                spec_unwind(stack.drop_last(), resp)
                            } else {
                                let f2 = FrameV {
                                    iters_left: (f.iters_left - 1) as u8,
                                    saved: Option::Some(resp),
                                    ..f
                                };
                                let child = FrameV {
                                    name: host,
                                    qtype: RecordType::A,
                                    ns: root_ns_octets(),
                                    iters_left: MAX_ITERS,
                                    saved: Option::None,
                                };
                                (
                                    stack.update(stack.len() - 1, f2).push(child),
                                    ActionV::Query {
                                        ns: root_ns_octets(),
                                        name: host,
                                        qtype: RecordType::A,
                                    },
                                )
                            }
                        },
                    }
                },
            }
        }
    }
}

/// The state of one recursive resolution: the stack of queries still in
/// flight, the bottom one being the client's own.
pub struct ResolveMachine {
    pub stack: Vec<Frame>,
}

/// The images of a frame stack.
pub open spec fn frame_views(v: Seq<Frame>) -> Seq<FrameV> {
    v.map_values(|f: Frame| f@)
}

impl View for ResolveMachine {
    type V = Seq<FrameV>;

    open spec fn view(&self) -> Seq<FrameV> {
        frame_views(self.stack@)
    }
}

impl ResolveMachine {
    /// The machine's invariant.
    pub open spec fn wf(&self) -> bool {
        stack_ok(self@) && self@.len() >= 1
    }

    /// Starts a resolution of `(name, qtype)` at the root nameserver and
    /// names the first query to send.
    pub fn start(name: Vec<u8>, qtype: RecordType) -> (r: (ResolveMachine, Action))
        ensures
            r.0.wf(),
            r.0@ == seq![
                FrameV {
                    name: name@,
                    qtype,
                    ns: root_ns_octets(),
                    iters_left: MAX_ITERS,
                    saved: Option::<PacketV>::None,
                },
            ],
            r.1@ == (ActionV::Query { ns: root_ns_octets(), name: name@, qtype }),
    {
        let ns = root_ns();
        let act = Action::Query { ns, name: vstd::slice::slice_to_vec(name.as_slice()), qtype };
        let frame = Frame { name, qtype, ns, iters_left: MAX_ITERS, saved: None };
        let mut stack: Vec<Frame> = Vec::new();
        stack.push(frame);
        let m = ResolveMachine { stack };
        proof {
            assert(m@ =~= seq![
                FrameV {
                    name: name@,
                    qtype,
                    ns: root_ns_octets(),
                    iters_left: MAX_ITERS,
                    saved: Option::<PacketV>::None,
                },
            ]);
        }
        (m, act)
    }

    /// Feeds the response to the top frame's query into the machine and
    /// returns what to do next, exactly as `spec_step` decides it.
    pub fn step(&mut self, response: Packet) -> (act: Action)
        requires
            old(self).wf(),
        ensures
            stack_ok(final(self)@),
            (final(self)@, act@) == spec_step(old(self)@, response@),
            act@ is Query ==> final(self)@.len() >= 1,
    {
        let ghost entry = self@;
        let top = self.stack.len() - 1;
        let rc = response.header.response_code;
        let is_final = (response.answers.len() > 0 && rc == ResultCode::NoError) || rc
            == ResultCode::NXDomain;
        if is_final {
            let _child = self.stack.pop();
            proof {
                assert(self@ =~= entry.drop_last());
            }
            return self.unwind(response);
        }
        let resolved = response.get_resolved_ns(self.stack[top].name.as_slice());
        match resolved {
            Some(ip) => {
                if self.stack[top].iters_left == 0 {
                    let _child = self.stack.pop();
                    proof {
                        assert(self@ =~= entry.drop_last());
                    }
                    return self.unwind(response);
                }
                let mut f = match self.stack.pop() {
                    Some(f) => f,
                    None => {
                        proof {
                            assert(false);
                        }
                        return Action::Done(response);
                    },
                };
                f.ns = ip;
                f.iters_left = f.iters_left - 1;
                let act = Action::Query {
                    ns: ip,
                    name: vstd::slice::slice_to_vec(f.name.as_slice()),
                    qtype: f.qtype,
                };
                self.stack.push(f);
                proof {
                    assert(self@ =~= entry.update(
                        entry.len() - 1,
                        FrameV {
                            ns: ip.octets@,
                            iters_left: (entry.last().iters_left - 1) as u8,
                            ..entry.last()
                        },
                    ));
                }
                act
            },
            None => {
                let unresolved = response.get_unresolved_ns(self.stack[top].name.as_slice());
                match unresolved {
                    None => {
                        let _child = self.stack.pop();
                        proof {
                            assert(self@ =~= entry.drop_last());
                        }
                        self.unwind(response)
                    },
                    Some(host) => {
                        if self.stack.len() >= MAX_DEPTH || self.stack[top].iters_left == 0 {
                            let _child = self.stack.pop();
                            proof {
                                assert(self@ =~= entry.drop_last());
                            }
                            return self.unwind(response);
                        }
                        let ghost respv = response@;
                        let mut f = match self.stack.pop() {
                            Some(f) => f,
                            None => {
                                proof {
                                    assert(false);
                                }
                                return Action::Done(response);
                            },
                        };
                        f.iters_left = f.iters_left - 1;
                        f.saved = Some(response);
                        self.stack.push(f);
                        let ns = root_ns();
                        let act = Action::Query {
                            ns,
                            name: vstd::slice::slice_to_vec(host.as_slice()),
                            qtype: RecordType::A,
                        };
                        let child = Frame {
                            name: host,
                            qtype: RecordType::A,
                            ns,
                            iters_left: MAX_ITERS,
                            saved: None,
                        };
                        self.stack.push(child);
                        proof {
                            let f2 = FrameV {
                                iters_left: (entry.last().iters_left - 1) as u8,
                                saved: Option::Some(respv),
                                ..entry.last()
                            };
                            assert(self@ =~= entry.update(entry.len() - 1, f2).push(
                                spec_step(entry, respv).0.last(),
                            ));
                        }
                        act
                    },
                }
            },
        }
    }

    /// Hands `result` down the stack, as `spec_unwind` decides it; every
    /// remaining frame holds a saved referral.
    fn unwind(&mut self, result: Packet) -> (act: Action)
        requires
            stack_ok(old(self)@),
            forall|i: int| 0 <= i < old(self)@.len() ==> (#[trigger] old(self)@[i]).saved is Some,
        ensures
            stack_ok(final(self)@),
            (final(self)@, act@) == spec_unwind(old(self)@, result@),
            act@ is Query ==> final(self)@.len() >= 1,
        decreases old(self)@.len(),
    {
        let ghost pre = self@;
        if self.stack.len() == 0 {
            proof {
                assert(self@ =~= Seq::<FrameV>::empty());
            }
            return Action::Done(result);
        }
        let pidx = self.stack.len() - 1;
        let a = result.get_random_a();
        match a {
            Some(ip) => {
                if self.stack[pidx].iters_left == 0 {
                    let parent = match self.stack.pop() {
                        Some(f) => f,
                        None => {
                            proof {
                                assert(false);
                            }
                            return Action::Done(result);
                        },
                    };
                    proof {
                        assert(self@ =~= pre.drop_last());
                    }
                    match parent.saved {
                        Some(saved) => self.unwind(saved),
                        None => {
                            proof {
                                assert(false);
                            }
                            Action::Done(result)
                        },
                    }
                } else {
                    let mut parent = match self.stack.pop() {
                        Some(f) => f,
                        None => {
                            proof {
                                assert(false);
                            }
                            return Action::Done(result);
                        },
                    };
                    parent.ns = ip;
                    parent.iters_left = parent.iters_left - 1;
                    parent.saved = None;
                    let act = Action::Query {
                        ns: ip,
                        name: vstd::slice::slice_to_vec(parent.name.as_slice()),
                        qtype: parent.qtype,
                    };
                    self.stack.push(parent);
                    proof {
                        assert(self@ =~= pre.update(
                            pre.len() - 1,
                            FrameV {
                                ns: ip.octets@,
                                iters_left: (pre.last().iters_left - 1) as u8,
                                saved: Option::None,
                                ..pre.last()
                            },
                        ));
                    }
                    act
                }
            },
            None => {
                let parent = match self.stack.pop() {
                    Some(f) => f,
                    None => {
                        proof {
                            assert(false);
                        }
                        return Action::Done(result);
                    },
                };
                proof {
                    assert(self@ =~= pre.drop_last());
                }
                match parent.saved {
                    Some(saved) => self.unwind(saved),
                    None => {
                        proof {
                            assert(false);
                        }
                        Action::Done(result)
                    },
                }
            },
        }
    }
}

/// The weight of a frame at stack depth `i`: each level outweighs a full
/// iteration budget of the level below it, so starting a sub-resolution
/// costs more than the whole sub-resolution can spend.
pub open spec fn frame_weight(i: int) -> int {
    if i <= 0 {
        6975757441
    } else if i == 1 {
        410338673
    } else if i == 2 {
        24137569
    } else if i == 3 {
        1419857
    } else if i == 4 {
        83521
    } else if i == 5 {
        4913
    } else if i == 6 {
        289
    } else {
        17
    }
}

/// What remains of the machine's budget: each frame's iterations left,
/// weighted by its depth.
pub open spec fn measure_from(frames: Seq<FrameV>, i: int) -> int
    decreases (if i < frames.len() {
        frames.len() - i
    } else {
        0
    }),
{
    if i < 0 || i >= frames.len() {
        0
    } else {
        frames[i].iters_left * frame_weight(i) + measure_from(frames, i + 1)
    }
}

/// The budget is never negative.
pub proof fn lemma_measure_nonneg(frames: Seq<FrameV>, i: int)
    ensures
        measure_from(frames, i) >= 0,
    decreases (if i < frames.len() {
        frames.len() - i
    } else {
        0
    }),
{
    if 0 <= i && i < frames.len() {
        lemma_measure_nonneg(frames, i + 1);
    }
}

/// One more frame adds its own weighted budget at the end.
proof fn lemma_measure_snoc(frames: Seq<FrameV>, f: FrameV, i: int)
    requires
        0 <= i <= frames.len(),
    ensures
        measure_from(frames.push(f), i) == measure_from(frames, i) + f.iters_left * frame_weight(
            frames.len() as int,
        ),
    decreases frames.len() - i,
{
    if i < frames.len() {
        assert(frames.push(f)[i] == frames[i]);
        lemma_measure_snoc(frames, f, i + 1);
    } else {
        assert(frames.push(f)[i] == f);
        assert(measure_from(frames.push(f), i + 1) == 0);
        assert(measure_from(frames, i) == 0);
    }
}

/// Removing the youngest frame takes back its weighted budget.
proof fn lemma_measure_drop_last(frames: Seq<FrameV>)
    requires
        frames.len() >= 1,
    ensures
        measure_from(frames.drop_last(), 0) == measure_from(frames, 0) - frames.last().iters_left
            * frame_weight(frames.len() - 1),
{
    assert(frames =~= frames.drop_last().push(frames.last()));
    lemma_measure_snoc(frames.drop_last(), frames.last(), 0);
}

/// Replacing the youngest frame swaps its weighted budget.
proof fn lemma_measure_update_last(frames: Seq<FrameV>, f: FrameV)
    requires
        frames.len() >= 1,
    ensures
        measure_from(frames.update(frames.len() - 1, f), 0) == measure_from(frames, 0)
            - frames.last().iters_left * frame_weight(frames.len() - 1) + f.iters_left
            * frame_weight(frames.len() - 1),
{
    lemma_measure_drop_last(frames);
    assert(frames.update(frames.len() - 1, f) =~= frames.drop_last().push(f));
    lemma_measure_snoc(frames.drop_last(), f, 0);
}

/// Unwinding keeps the stack shape, never grows the budget, and spends
/// strictly from it whenever it asks one more query.
proof fn lemma_unwind_measure(stack: Seq<FrameV>, result: PacketV)
    requires
        stack_ok(stack),
    ensures
        stack_ok(spec_unwind(stack, result).0),
        measure_from(spec_unwind(stack, result).0, 0) <= measure_from(stack, 0),
        spec_unwind(stack, result).1 is Query ==> measure_from(spec_unwind(stack, result).0, 0)
            < measure_from(stack, 0),
    decreases stack.len(),
{
    if stack.len() == 0 {
    } else {
        let parent = stack.last();
        let rest = stack.drop_last();
        assert(stack_ok(rest));
        lemma_measure_drop_last(stack);
        lemma_measure_nonneg(stack, 0);
        lemma_measure_nonneg(rest, 0);
        assert(parent.iters_left * frame_weight(stack.len() - 1) >= 0) by {
            if parent.iters_left > 0 {
                assert(frame_weight(stack.len() - 1) > 0);
            }
        }
        match first_a(result.answers) {
            Option::Some(ip) => {
                if parent.iters_left == 0 {
                    match parent.saved {
                        Option::Some(saved) => {
                            lemma_unwind_measure(rest, saved);
                        },
                        Option::None => {
                        },
                    }
                } else {
                    let p2 = FrameV {
                        ns: ip,
                        iters_left: (parent.iters_left - 1) as u8,
                        saved: Option::None,
                        ..parent
                    };
                    lemma_measure_update_last(stack, p2);
                    assert(p2.iters_left * frame_weight(stack.len() - 1) < parent.iters_left
                        * frame_weight(stack.len() - 1)) by {
                        assert(frame_weight(stack.len() - 1) > 0);
                        assert(p2.iters_left < parent.iters_left);
                        vstd::arithmetic::mul::lemma_mul_strict_inequality(
                            p2.iters_left as int,
                            parent.iters_left as int,
                            frame_weight(stack.len() - 1),
                        );
                    }
                    assert(stack_ok(stack.update(stack.len() - 1, p2)));
                }
            },
            Option::None => {
                match parent.saved {
                    Option::Some(saved) => {
                        lemma_unwind_measure(rest, saved);
                    },
                    Option::None => {
                    },
                }
            },
        }
    }
}

/// Law: recursive resolution terminates.  A machine step either finishes,
/// or asks one more query and strictly spends from a budget that is never
/// negative - so any resolution sends only finitely many queries, whatever
/// the upstream servers answer.
#[verifier::rlimit(60)]
pub proof fn lemma_resolution_terminates(stack: Seq<FrameV>, resp: PacketV)
    requires
        stack_ok(stack),
    ensures
        measure_from(stack, 0) >= 0,
        stack_ok(spec_step(stack, resp).0),
        spec_step(stack, resp).1 is Query ==> measure_from(spec_step(stack, resp).0, 0)
            < measure_from(stack, 0),
{
    lemma_measure_nonneg(stack, 0);
    if stack.len() == 0 {
    } else {
        let f = stack.last();
        let rest = stack.drop_last();
        assert(stack_ok(rest));
        lemma_measure_drop_last(stack);
        lemma_measure_nonneg(rest, 0);
        assert(f.iters_left * frame_weight(stack.len() - 1) >= 0) by {
            if f.iters_left > 0 {
                assert(frame_weight(stack.len() - 1) > 0);
            }
        }
        if response_final(resp) {
            lemma_unwind_measure(rest, resp);
        } else {
            match first_resolved_ns(resp.authorities, resp.additionals, f.name) {
                Option::Some(ip) => {
                    if f.iters_left == 0 {
                        lemma_unwind_measure(rest, resp);
                    } else {
                        let f2 = FrameV { ns: ip, iters_left: (f.iters_left - 1) as u8, ..f };
                        lemma_measure_update_last(stack, f2);
                        assert(f2.iters_left * frame_weight(stack.len() - 1) < f.iters_left
                            * frame_weight(stack.len() - 1)) by {
                            vstd::arithmetic::mul::lemma_mul_strict_inequality(
                                f2.iters_left as int,
                                f.iters_left as int,
                                frame_weight(stack.len() - 1),
                            );
                        }
                        assert(stack_ok(stack.update(stack.len() - 1, f2)));
                    }
                },
                Option::None => {
                    match first_matching_ns(resp.authorities, f.name) {
                        Option::None => {
                            lemma_unwind_measure(rest, resp);
                        },
                        Option::Some(host) => {
                            if stack.len() >= MAX_DEPTH || f.iters_left == 0 {
                                lemma_unwind_measure(rest, resp);
                            } else {
                                let f2 = FrameV {
                                    iters_left: (f.iters_left - 1) as u8,
                                    saved: Option::Some(resp),
                                    ..f
                                };
                                let child = FrameV {
                                    name: host,
                                    qtype: RecordType::A,
                                    ns: root_ns_octets(),
                                    iters_left: MAX_ITERS,
                                    saved: Option::None,
                                };
                                let k = stack.len() - 1;
                                let updated = stack.update(k, f2);
                                lemma_measure_update_last(stack, f2);
                                lemma_measure_snoc(updated, child, 0);
                                assert(updated.len() == stack.len());
                                // The parent spends one iteration, worth a
                                // whole level of weight; the child arrives
                                // with sixteen at the next level down.
                                assert(frame_weight(k) == 17 * frame_weight(k + 1) && frame_weight(
                                    k + 1,
                                ) > 0) by {
                                    assert(0 <= k < MAX_DEPTH - 1);
                                }
                                assert(f.iters_left * frame_weight(k) - f2.iters_left
                                    * frame_weight(k) == frame_weight(k)) by {
                                    vstd::arithmetic::mul::lemma_mul_is_distributive_sub_other_way(
                                        frame_weight(k),
                                        f.iters_left as int,
                                        f2.iters_left as int,
                                    );
                                }
                                assert(child.iters_left * frame_weight(k + 1) == 16 * frame_weight(
                                    k + 1,
                                )) by {
                                    vstd::arithmetic::mul::lemma_mul_is_commutative(
                                        child.iters_left as int,
                                        frame_weight(k + 1),
                                    );
                                }
                                let m0 = measure_from(stack, 0);
                                let w1 = frame_weight(k + 1);
                                assert(measure_from(updated, 0) == m0 - frame_weight(k));
                                assert(measure_from(updated.push(child), 0) == m0 - 17 * w1 + 16
                                    * w1);
                                assert(m0 - 17 * w1 + 16 * w1 == m0 - w1) by (nonlinear_arith);
                                assert(w1 > 0);
                                assert(measure_from(updated.push(child), 0) < m0);
                                assert(stack_ok(updated.push(child)));
                            }
                        },
                    }
                },
            }
        }
    }
}

/// The configured endpoint a server binds for its clients.
pub struct Server {
    pub local_addr: String,
    pub local_port: u16,
}

impl Server {
    /// A server bound to the given local address and port.
    pub fn new(addr: String, port: u16) -> (s: Server)
        ensures
            s.local_addr@ == addr@,
            s.local_port == port,
    {
        Server { local_addr: addr, local_port: port }
    }
}

/// The query packet sent upstream for one question: a fresh header asking
/// for recursion, and that single question.
pub fn build_query(qname: Vec<u8>, qtype: RecordType) -> (p: Packet)
    ensures
        p@.header == (Header { recursion_desired: true, question_count: 1, ..Header::spec_query_default() }),
        p@.questions == seq![QuestionV { name: qname@, question_type: qtype, class: 1 }],
        p@.answers == Seq::<RecordV>::empty(),
        p@.authorities == Seq::<RecordV>::empty(),
        p@.additionals == Seq::<RecordV>::empty(),
{
    let mut header = Header::query_default();
    header.recursion_desired = true;
    let mut p = Packet::with_header(header);
    let _r = p.add_question(qname, qtype);
    proof {
        assert(p@.questions =~= seq![QuestionV { name: qname@, question_type: qtype, class: 1 }]);
    }
    p
}

/// The reply to one inbound request: the request's id with the response
/// bits set, then the question and the resolved sections when resolution
/// succeeded, `FormErr` when the request carried no question, `ServFail`
/// when resolution failed.
pub fn build_response(id: u16, question: Option<Question>, outcome: Option<Packet>) -> (p: Packet)
    requires
        outcome matches Some(o) ==> o@.answers.len() <= 0xFFFF && o@.authorities.len() <= 0xFFFF
            && o@.additionals.len() <= 0xFFFF,
    ensures
        p@.header.id == id,
        p@.header.is_response,
        p@.header.recursion_desired,
        p@.header.recursion_available,
        p@.header.opcode == 0 && p@.header.z == 0 && !p@.header.is_authoritative
            && !p@.header.is_truncated,
        match question {
            None => p@.header.response_code == ResultCode::FormErr && p@.questions.len() == 0
                && p@.answers.len() == 0 && p@.authorities.len() == 0 && p@.additionals.len() == 0
                && p@.header.question_count == 0 && p@.header.answer_count == 0
                && p@.header.authority_count == 0 && p@.header.additional_count == 0,
            Some(q) => match outcome {
                None => p@.header.response_code == ResultCode::ServFail && p@.questions.len() == 0
                    && p@.answers.len() == 0 && p@.authorities.len() == 0 && p@.additionals.len()
                    == 0 && p@.header.question_count == 0 && p@.header.answer_count == 0
                    && p@.header.authority_count == 0 && p@.header.additional_count == 0,
                Some(o) => p@.header.response_code == o@.header.response_code && p@.questions
                    == seq![q@] && p@.answers == o@.answers && p@.authorities == o@.authorities
                    && p@.additionals == o@.additionals && p@.header.question_count == 1
                    && p@.header.answer_count == o@.answers.len() && p@.header.authority_count
                    == o@.authorities.len() && p@.header.additional_count == o@.additionals.len(),
            },
        },
{
    let mut header = Header::query_default();
    header.id = id;
    header.recursion_desired = true;
    header.recursion_available = true;
    header.is_response = true;
    let mut p = Packet::with_header(header);
    match question {
        None => {
            p.header.response_code = ResultCode::FormErr;
            p
        },
        Some(q) => {
            match outcome {
                None => {
                    p.header.response_code = ResultCode::ServFail;
                    p
                },
                Some(o) => {
                    p.header.response_code = o.header.response_code;
                    p.questions.push(q);
                    p.header.question_count = 1;
                    let answer_count = o.answers.len() as u16;
                    let authority_count = o.authorities.len() as u16;
                    let additional_count = o.additionals.len() as u16;
                    p.answers = o.answers;
                    p.authorities = o.authorities;
                    p.additionals = o.additionals;
                    p.header.answer_count = answer_count;
                    p.header.authority_count = authority_count;
                    p.header.additional_count = additional_count;
                    proof {
                        assert(p@.questions =~= seq![q@]);
                    }
                    p
                },
            }
        },
    }
}

} // verus!
