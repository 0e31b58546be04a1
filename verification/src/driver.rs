//! The run as a state machine: which request goes out next, and what a
//! response changes.  The program around it performs the requests.

use crate::headers::declared_length;
use crate::request::Requests;
use crate::response::{lemma_split_offset, split, ProtocolError, Response};
use crate::transfer::{joined, lemma_joined_push, WholeData};
use vstd::prelude::*;

verus! {

/// Where a run stands.
#[derive(Debug, PartialEq, Eq, Clone, Copy)]
pub enum Phase {
    /// Nothing has been received yet.
    AwaitingInitial,
    /// Part of the payload has been received.
    AwaitingRange,
    /// The whole payload has been received.
    Complete,
}

/// What the program has to do next.
#[derive(Debug, PartialEq, Eq, Clone, Copy)]
pub enum Action {
    /// Send the request on the connection that is open, and read the response.
    Send(Requests),
    /// Open a new connection in place of the old one, send the request on it,
    /// and read the response.
    ReconnectAndSend(Requests),
    /// Write the payload to its destination: the run is complete.
    Persist,
}

/// Why a run stops before it is complete.
#[derive(Debug, PartialEq, Eq, Clone, Copy)]
pub enum TransferError {
    /// The server broke the protocol.
    Protocol(ProtocolError),
    /// More payload bytes arrived than a `usize` can count.
    LengthOverflow,
}

/// A run, as far as the protocol sees it.
pub struct Progress {
    pub phase: Phase,
    /// The declared length of the payload; 0 until it is known.
    pub target: nat,
    /// The payload pieces received, in the order of their arrival.
    pub bodies: Seq<Seq<u8>>,
}

impl Progress {
    /// The number of payload bytes received.
    pub open spec fn received(self) -> nat {
        joined(self.bodies).len()
    }

    /// A run before its first response.
    pub open spec fn initial() -> Progress {
        Progress { phase: Phase::AwaitingInitial, target: 0, bodies: Seq::empty() }
    }

    /// The run that holds `bodies` of a payload of `target` bytes: complete if
    /// it holds that many bytes, and waiting for more if not.
    pub open spec fn holding(target: nat, bodies: Seq<Seq<u8>>) -> Progress {
        Progress {
            phase: if joined(bodies).len() == target {
                Phase::Complete
            } else {
                Phase::AwaitingRange
            },
            target,
            bodies,
        }
    }

    /// The phase says whether everything has been received, and both counts
    /// are such as a `usize` can hold.
    pub open spec fn consistent(self) -> bool {
        match self.phase {
            Phase::AwaitingInitial => self == Progress::initial(),
            Phase::AwaitingRange => {
                &&& self.bodies.len() >= 1
                &&& self.received() <= usize::MAX
                &&& self.target <= usize::MAX
                &&& self.received() != self.target
            },
            Phase::Complete => {
                &&& self.bodies.len() >= 1
                &&& self.target <= usize::MAX
                &&& self.received() == self.target
            },
        }
    }

    /// What the program has to do in this state.  A range always begins at the
    /// number of bytes received and ends at the declared length.
    pub open spec fn action(self) -> Action {
        match self.phase {
            Phase::AwaitingInitial => Action::Send(Requests::Full),
            Phase::AwaitingRange => Action::ReconnectAndSend(
                Requests::Range(self.received() as usize, self.target as usize),
            ),
            Phase::Complete => Action::Persist,
        }
    }

    /// The run after the bytes `raw` of one response have arrived.
    ///
    /// The first response fixes the declared length.  Every response adds its body
    /// to what is held.  A response that cannot be split, a first response that
    /// declares no length, and a body that makes the count overflow stop the run.
    /// A complete run stays as it is.
    pub open spec fn step(self, raw: Seq<u8>) -> Result<Progress, TransferError> {
        match self.phase {
            Phase::Complete => Ok(self),
            Phase::AwaitingInitial => match split(raw) {
                Err(e) => Err(TransferError::Protocol(e)),
                Ok((text, offset)) => match declared_length(text) {
                    None => Err(TransferError::Protocol(ProtocolError::MissingLength)),
                    Some(target) => Ok(Progress::holding(target as nat, seq![raw.skip(offset)])),
                },
            },
            Phase::AwaitingRange => match split(raw) {
                Err(e) => Err(TransferError::Protocol(e)),
                Ok((text, offset)) => if self.received() + (raw.len() - offset) > usize::MAX {
                    Err(TransferError::LengthOverflow)
                } else {
                    Ok(Progress::holding(self.target, self.bodies.push(raw.skip(offset))))
                },
            },
        }
    }
}

/// A step keeps a run consistent.  Once a length has been declared it stays, and
/// what is held only grows: the bodies held before stay, in their order, before
/// the new one.  The run is complete exactly if it holds as many bytes as declared.
pub proof fn lemma_step_keeps(before: Progress, raw: Seq<u8>)
    requires
        before.consistent(),
        raw.len() <= usize::MAX,
        before.step(raw) is Ok,
    ensures
        before.step(raw)->Ok_0.consistent(),
        before.phase != Phase::AwaitingInitial ==> before.step(raw)->Ok_0.target == before.target,
        before.bodies.is_prefix_of(before.step(raw)->Ok_0.bodies),
        before.received() <= before.step(raw)->Ok_0.received(),
        before.step(raw)->Ok_0.phase == Phase::Complete <==> before.step(raw)->Ok_0.received()
            == before.step(raw)->Ok_0.target,
{
    let after = before.step(raw)->Ok_0;
    match before.phase {
        Phase::Complete => {},
        Phase::AwaitingInitial => {
            lemma_split_offset(raw);
            lemma_joined_push(Seq::empty(), after.bodies[0]);
            assert(before.bodies =~= after.bodies.subrange(0, 0));
        },
        Phase::AwaitingRange => {
            lemma_split_offset(raw);
            lemma_joined_push(before.bodies, after.bodies.last());
            assert(after.bodies =~= before.bodies.push(after.bodies.last()));
            assert(before.bodies =~= after.bodies.subrange(0, before.bodies.len() as int));
        },
    }
}

/// A first response whose body has the declared length completes the run at
/// once: nothing is left to ask for, and no reconnect follows.
pub proof fn lemma_whole_in_one(raw: Seq<u8>)
    requires
        split(raw) matches Ok((text, offset)) && 0 <= offset <= raw.len() && (declared_length(
            text,
        ) matches Some(target) && target == raw.len() - offset),
    ensures
        Progress::initial().step(raw) matches Ok(after) && after.phase == Phase::Complete
            && after.action() == Action::Persist,
{
    lemma_joined_push(Seq::empty(), raw.skip(split(raw)->Ok_0.1));
}

/// A first response that declares no length stops the run with a protocol
/// error, whatever else it holds.
pub proof fn lemma_no_length_stops(raw: Seq<u8>)
    requires
        split(raw) matches Ok((text, offset)) && declared_length(text) is None,
    ensures
        Progress::initial().step(raw) == Err::<Progress, TransferError>(
            TransferError::Protocol(ProtocolError::MissingLength),
        ),
{
}

/// The state in which a run stands, with what it holds.
#[derive(Debug)]
enum State {
    AwaitingInitial,
    AwaitingRange(WholeData),
    Complete(WholeData),
}

/// One run of the transfer.
#[derive(Debug)]
pub struct Driver {
    state: State,
}

impl View for Driver {
    type V = Progress;

    closed spec fn view(&self) -> Progress {
        match self.state {
            State::AwaitingInitial => Progress::initial(),
            State::AwaitingRange(acc) => Progress {
                phase: Phase::AwaitingRange,
                target: acc.target(),
                bodies: acc.bodies(),
            },
            State::Complete(acc) => Progress {
                phase: Phase::Complete,
                target: acc.target(),
                bodies: acc.bodies(),
            },
        }
    }
}

impl Driver {
    /// What is held is counted rightly, and the state says whether it is everything.
    #[verifier::type_invariant]
    closed spec fn wf(self) -> bool {
        match self.state {
            State::AwaitingInitial => true,
            State::AwaitingRange(acc) => {
                &&& acc.wf()
                &&& acc.bodies().len() >= 1
                &&& acc.received() != acc.target()
            },
            State::Complete(acc) => {
                &&& acc.wf()
                &&& acc.bodies().len() >= 1
                &&& acc.received() == acc.target()
            },
        }
    }

    /// What a run holds is counted in `usize`.
    proof fn lemma_counts_fit(self)
        ensures
            self@.target <= usize::MAX,
            self.wf() && self@.phase != Phase::AwaitingInitial ==> self@.received() <= usize::MAX,
    {
        match self.state {
            State::AwaitingInitial => {},
            State::AwaitingRange(acc) => acc.lemma_counts_fit(),
            State::Complete(acc) => acc.lemma_counts_fit(),
        }
    }

    /// A run that has not begun.
    pub fn new() -> (driver: Driver)
        ensures
            driver@ == Progress::initial(),
    {
        Driver { state: State::AwaitingInitial }
    }

    /// Where the run stands.
    pub fn phase(&self) -> (phase: Phase)
        ensures
            phase == self@.phase,
            self@.consistent(),
    {
        proof {
            use_type_invariant(self);
            self.lemma_counts_fit();
        }
        match &self.state {
            State::AwaitingInitial => Phase::AwaitingInitial,
            State::AwaitingRange(_) => Phase::AwaitingRange,
            State::Complete(_) => Phase::Complete,
        }
    }

    /// What the program has to do next.
    pub fn action(&self) -> (action: Action)
        ensures
            action == self@.action(),
            self@.consistent(),
    {
        proof {
            use_type_invariant(self);
            self.lemma_counts_fit();
        }
        match &self.state {
            State::AwaitingInitial => Action::Send(Requests::Full),
            State::AwaitingRange(acc) => Action::ReconnectAndSend(
                Requests::Range(acc.current_len(), acc.target_len()),
            ),
            State::Complete(_) => Action::Persist,
        }
    }

    /// What has been received, once there is anything.
    pub fn data(&self) -> (held: Option<&WholeData>)
        ensures
            self@.consistent(),
            match held {
                Some(acc) => {
                    &&& self@.phase != Phase::AwaitingInitial
                    &&& acc.wf()
                    &&& acc.target() == self@.target
                    &&& acc.bodies() == self@.bodies
                },
                None => self@.phase == Phase::AwaitingInitial,
            },
    {
        proof {
            use_type_invariant(self);
            self.lemma_counts_fit();
        }
        match &self.state {
            State::AwaitingInitial => None,
            State::AwaitingRange(acc) => Some(acc),
            State::Complete(acc) => Some(acc),
        }
    }

    /// Takes in the bytes of the response to the request that [`Self::action`] named.
    pub fn on_response(self, raw: Vec<u8>) -> (res: Result<Driver, TransferError>)
        ensures
            self@.consistent(),
            match res {
                Ok(next) => self@.step(raw@) == Ok::<Progress, TransferError>(next@)
                    && next@.consistent(),
                Err(e) => self@.step(raw@) == Err::<Progress, TransferError>(e),
            },
    {
        proof {
            use_type_invariant(&self);
            self.lemma_counts_fit();
        }
        match self.state {
            State::Complete(acc) => Ok(Driver { state: State::Complete(acc) }),
            State::AwaitingInitial => {
                let response = match Response::try_from(raw) {
                    Ok(response) => response,
                    Err(e) => {
                        return Err(TransferError::Protocol(e));
                    },
                };
                let target = match response.headers().content_length() {
                    Some(target) => target,
                    None => {
                        return Err(TransferError::Protocol(ProtocolError::MissingLength));
                    },
                };
                let acc = WholeData::new(target, response);
                if acc.current_len() == acc.target_len() {
                    Ok(Driver { state: State::Complete(acc) })
                } else {
                    Ok(Driver { state: State::AwaitingRange(acc) })
                }
            },
            State::AwaitingRange(acc) => {
                let response = match Response::try_from(raw) {
                    Ok(response) => response,
                    Err(e) => {
                        return Err(TransferError::Protocol(e));
                    },
                };
                proof {
                    response.lemma_parts();
                }
                if response.data().len() > usize::MAX - acc.current_len() {
                    return Err(TransferError::LengthOverflow);
                }
                let mut acc = acc;
                if acc.add(response) {
                    Ok(Driver { state: State::Complete(acc) })
                } else {
                    Ok(Driver { state: State::AwaitingRange(acc) })
                }
            },
        }
    }
}

} // verus!
