//! One bind at a directory, step by step: what is to be done over the network
//! next, and what follows from what came of it. Whoever holds the connection
//! performs each [`Action`] and reports it as an [`Event`].

use crate::ber;
use crate::ber::{unreadable, wanted};
use crate::bind;
use crate::bind::{unbind, BindRequest, BindResponse, Request, Response};
use crate::claim::AuthenticateError;
use crate::clock;
use crate::text::decimal;
use std::time::Duration;
use vstd::prelude::*;

verus! {

/// The id of the bind; the unbind after it has the next one.
pub const MESSAGE_ID: i64 = 1;

/// What is to be done next.
pub enum Action {
    /// Resolve the endpoint to its addresses.
    Resolve,
    /// Connect to the address at this place among them, in no more than this
    /// time.
    Connect(usize, Duration),
    /// Let no send and no receive of the connection wait longer than this.
    Prepare(Duration),
    /// Send these bytes, all of them.
    Send(Vec<u8>),
    /// Receive what there is, once there is something, up to this many bytes
    /// and in no more than this time: what is left to the directory to answer.
    Receive(usize, Duration),
    /// Send these bytes and close, whatever comes of it.
    Part(Vec<u8>),
}

/// What came of an action.
pub enum Event {
    /// The endpoint has this many addresses.
    Resolved(usize),
    /// It was done.
    Done,
    /// These bytes were received, this long after the request was sent. There
    /// may be none, where there was nothing to receive yet.
    Received(Vec<u8>, Duration),
    /// There is nothing more to receive.
    Ended,
    /// It could not be done, for this reason.
    Failed(String),
}

/// What an [`Event`] holds.
pub enum Report {
    /// The endpoint has this many addresses.
    Resolved(nat),
    /// It was done.
    Done,
    /// These bytes were received, this many nanoseconds after the request was
    /// sent.
    Received(Seq<u8>, nat),
    /// There is nothing more to receive.
    Ended,
    /// It could not be done, for this reason.
    Failed(Seq<char>),
}

impl View for Event {
    type V = Report;

    open spec fn view(&self) -> Report {
        match *self {
            Event::Resolved(count) => Report::Resolved(count as nat),
            Event::Done => Report::Done,
            Event::Received(bytes, elapsed) => Report::Received(
                bytes@,
                clock::nanos(elapsed) as nat,
            ),
            Event::Ended => Report::Ended,
            Event::Failed(reason) => Report::Failed(reason@),
        }
    }
}

/// How far a bind has come.
pub enum Stage {
    /// The endpoint is being resolved.
    Resolving,
    /// The address `at` of `count` is being tried.
    Connecting {
        /// Which address.
        at: nat,
        /// How many there are.
        count: nat,
    },
    /// The timeouts are being set.
    Preparing,
    /// The request is being sent.
    Sending,
    /// The response is being received.
    Receiving {
        /// How much of it is there.
        got: Seq<u8>,
        /// How many nanoseconds are left for the rest of it.
        left: nat,
    },
    /// The unbind is being sent, after this response.
    Parting(Response),
}

/// A bind on its way.
pub struct Binding {
    /// The directory.
    pub endpoint: Seq<char>,
    /// How long each of its addresses is given to connect, and how long the
    /// directory is given, once the request is sent, to answer it whole.
    pub timeout: Duration,
    /// The DN binding.
    pub name: Seq<char>,
    /// Its password.
    pub password: Seq<char>,
    /// How far it has come.
    pub stage: Stage,
}

/// Where a bind stands after one more event.
pub enum Next {
    /// On its way.
    Ongoing(Binding),
    /// Over, with the response or with what is said where there is none.
    Over(Result<Response, Seq<char>>),
}

/// What is said of a directory that cannot be reached for `reason`.
pub open spec fn unreachable_at(endpoint: Seq<char>, reason: Seq<char>) -> Seq<char> {
    "the directory at '"@ + endpoint + "' cannot be reached: "@ + reason
}

/// What is said of an endpoint without an address.
pub open spec fn no_address() -> Seq<char> {
    "the name resolves to no address"@
}

/// What is said of a response to another message.
pub open spec fn crossed(message_id: i64) -> Seq<char> {
    "the directory answered message "@ + crate::text::decimal_of(message_id as int)
        + " and the bind was message "@ + crate::text::decimal_of(MESSAGE_ID as int)
}

/// What a response comes to: itself, where it answers the bind.
pub open spec fn answered(response: Response) -> Result<Response, Seq<char>> {
    if response.message_id != MESSAGE_ID {
        Err(crossed(response.message_id))
    } else {
        Ok(response)
    }
}

/// What is said of an answer that is not whole before its time is used up.
pub open spec fn late() -> Seq<char> {
    "it did not come in time"@
}

impl Report {
    /// The reason an action could not be done, if there is one.
    pub open spec fn failure(self) -> Option<Seq<char>> {
        match self {
            Report::Failed(reason) => Some(reason),
            Report::Ended => Some(ber::ended()),
            _ => None,
        }
    }
}

impl Binding {
    /// How many nanoseconds the directory is given to answer.
    pub open spec fn time(self) -> nat {
        clock::nanos(self.timeout) as nat
    }

    /// The request of this bind.
    pub open spec fn request(self) -> Request {
        Request { message_id: MESSAGE_ID, name: self.name, password: self.password }
    }

    /// This bind at another stage.
    pub open spec fn at(self, stage: Stage) -> Binding {
        Binding { stage, ..self }
    }

    /// Over for want of a directory.
    pub open spec fn unreachable(self, reason: Seq<char>) -> Next {
        Next::Over(Err(unreachable_at(self.endpoint, reason)))
    }

    /// While addresses are tried there is one to try; and while a response is
    /// being received there is more of it to ask for, and time left for that,
    /// though never more than the directory was given.
    pub open spec fn well_formed(self) -> bool {
        match self.stage {
            Stage::Connecting { at, count } => at < count,
            Stage::Receiving { got, left } => {
                &&& ber::wanted_after(got) matches Ok(count)
                &&& count > 0
                &&& 0 < left <= self.time()
            },
            _ => true,
        }
    }

    /// Where this bind stands once `report` has come of its action.
    pub open spec fn after(self, report: Report) -> Next {
        match (self.stage, report.failure()) {
            (Stage::Resolving, Some(reason)) => self.unreachable(reason),
            (Stage::Resolving, None) => match report {
                Report::Resolved(count) if count > 0 => Next::Ongoing(
                    self.at(Stage::Connecting { at: 0, count }),
                ),
                _ => self.unreachable(no_address()),
            },
            (Stage::Connecting { at, count }, Some(reason)) => if at + 1 < count {
                Next::Ongoing(self.at(Stage::Connecting { at: at + 1, count }))
            } else {
                self.unreachable(reason)
            },
            (Stage::Connecting { .. }, None) => Next::Ongoing(self.at(Stage::Preparing)),
            (Stage::Preparing, Some(reason)) => self.unreachable(reason),
            (Stage::Preparing, None) => Next::Ongoing(self.at(Stage::Sending)),
            (Stage::Sending, Some(reason)) => self.unreachable(reason),
            (Stage::Sending, None) => self.having(Seq::empty(), 0),
            (Stage::Receiving { .. }, Some(reason)) => Next::Over(Err(ber::in_the_answer(reason))),
            (Stage::Receiving { got, .. }, None) => match report {
                Report::Received(bytes, elapsed) => self.having(got + bytes, elapsed),
                _ => Next::Over(Err(ber::in_the_answer(ber::ended()))),
            },
            (Stage::Parting(response), _) => Next::Over(answered(response)),
        }
    }

    /// Where this bind stands once `got` of the response is there, `elapsed`
    /// nanoseconds after the request was sent. What is not whole before the
    /// time is used up does not count.
    pub open spec fn having(self, got: Seq<u8>, elapsed: nat) -> Next {
        if elapsed >= self.time() {
            Next::Over(Err(ber::in_the_answer(late())))
        } else {
            match ber::wanted_after(got) {
                Err(message) => Next::Over(Err(ber::in_the_answer(message))),
                Ok(count) => if count > 0 {
                    let left = (self.time() - elapsed) as nat;
                    Next::Ongoing(self.at(Stage::Receiving { got, left }))
                } else {
                    match bind::response_in(got) {
                        Err(message) => Next::Over(Err(message)),
                        Ok(response) => Next::Ongoing(self.at(Stage::Parting(response))),
                    }
                },
            }
        }
    }
}

enum State {
    Resolving,
    Connecting { at: usize, count: usize },
    Preparing,
    Sending,
    Receiving { got: Vec<u8>, left: Duration },
    Parting(BindResponse),
}

spec fn stage_of(state: State) -> Stage {
    match state {
        State::Resolving => Stage::Resolving,
        State::Connecting { at, count } => Stage::Connecting { at: at as nat, count: count as nat },
        State::Preparing => Stage::Preparing,
        State::Sending => Stage::Sending,
        State::Receiving { got, left } => Stage::Receiving {
            got: got@,
            left: clock::nanos(left) as nat,
        },
        State::Parting(response) => Stage::Parting(response@),
    }
}

/// What an event leads to.
enum Turn {
    To(State),
    Unreachable(String),
    Over(Result<BindResponse, AuthenticateError>),
}

spec fn turned(binding: Binding, turn: Turn) -> Next {
    match turn {
        Turn::To(state) => Next::Ongoing(binding.at(stage_of(state))),
        Turn::Unreachable(reason) => binding.unreachable(reason@),
        Turn::Over(result) => Next::Over(came_to(result)),
    }
}

/// A bind on its way.
pub struct Exchange {
    endpoint: String,
    timeout: Duration,
    name: String,
    password: String,
    state: State,
}

/// Where an exchange stands after one more event.
pub enum Step {
    /// On its way: its next action is to be performed.
    Ongoing(Exchange),
    /// Over, with the response or with the reason there is none.
    Over(Result<BindResponse, AuthenticateError>),
}

/// What an exchange came to, the response by what it holds and the error by
/// its words.
pub open spec fn came_to(result: Result<BindResponse, AuthenticateError>) -> Result<
    Response,
    Seq<char>,
> {
    match result {
        Ok(response) => Ok(response@),
        Err(error) => Err(error.message@),
    }
}

impl View for Step {
    type V = Next;

    open spec fn view(&self) -> Next {
        match *self {
            Step::Ongoing(exchange) => Next::Ongoing(exchange@),
            Step::Over(result) => Next::Over(came_to(result)),
        }
    }
}

impl View for Exchange {
    type V = Binding;

    closed spec fn view(&self) -> Binding {
        Binding {
            endpoint: self.endpoint@,
            timeout: self.timeout,
            name: self.name@,
            password: self.password@,
            stage: stage_of(self.state),
        }
    }
}

fn unreachable(endpoint: &str, reason: &str) -> (error: AuthenticateError)
    ensures
        error.message@ == unreachable_at(endpoint@, reason@),
{
    let mut message = "the directory at '".to_owned();
    message.append(endpoint);
    message.append("' cannot be reached: ");
    message.append(reason);
    AuthenticateError::new(message)
}

/// What a response comes to: itself, where it answers the bind.
fn answer(response: BindResponse) -> (result: Result<BindResponse, AuthenticateError>)
    ensures
        came_to(result) == answered(response@),
{
    if response.message_id != MESSAGE_ID {
        let mut message = "the directory answered message ".to_owned();
        message.append(decimal(response.message_id).as_str());
        message.append(" and the bind was message ");
        message.append(decimal(MESSAGE_ID).as_str());
        return Err(AuthenticateError::new(message));
    }
    Ok(response)
}

impl Exchange {
    #[verifier::type_invariant]
    spec fn invariant_holds(self) -> bool {
        self@.well_formed()
    }

    /// A bind at `endpoint` as `name` with `password`, not yet begun, with
    /// `timeout` to connect, and again to answer once the request is sent.
    #[must_use]
    pub fn begin(endpoint: &str, timeout: Duration, name: &str, password: &str) -> (exchange:
        Self)
        ensures
            exchange@ == (Binding {
                endpoint: endpoint@,
                timeout,
                name: name@,
                password: password@,
                stage: Stage::Resolving,
            }),
    {
        Exchange {
            endpoint: endpoint.to_owned(),
            timeout,
            name: name.to_owned(),
            password: password.to_owned(),
            state: State::Resolving,
        }
    }

    /// What is to be done next.
    #[must_use]
    pub fn action(&self) -> (action: Action)
        ensures
            match (self@.stage, action) {
                (Stage::Resolving, Action::Resolve) => true,
                (Stage::Connecting { at, count }, Action::Connect(place, timeout)) => {
                    place == at && timeout == self@.timeout
                },
                (Stage::Preparing, Action::Prepare(timeout)) => timeout == self@.timeout,
                (Stage::Sending, Action::Send(bytes)) => bytes@ == bind::request_bytes(
                    self@.request(),
                ),
                (Stage::Receiving { got, left }, Action::Receive(count, time)) => {
                    ber::wanted_after(got) == Ok::<nat, Seq<char>>(count as nat)
                        && clock::nanos(time) == left
                },
                (Stage::Parting(_), Action::Part(bytes)) => bytes@ == bind::unbind_of(
                    MESSAGE_ID + 1,
                ),
                _ => false,
            },
            self@.well_formed(),
    {
        proof {
            use_type_invariant(self);
        }
        match &self.state {
            State::Resolving => Action::Resolve,
            State::Connecting { at, count } => Action::Connect(*at, self.timeout),
            State::Preparing => Action::Prepare(self.timeout),
            State::Sending => {
                let request = BindRequest {
                    message_id: MESSAGE_ID,
                    name: self.name.clone(),
                    password: self.password.clone(),
                };
                Action::Send(request.encode())
            },
            State::Receiving { got, left } => match wanted(got.as_slice()) {
                Ok(count) => Action::Receive(count, *left),
                Err(_) => Action::Receive(0, *left),
            },
            State::Parting(_) => Action::Part(unbind(MESSAGE_ID + 1)),
        }
    }

    /// Where this exchange stands once `event` has come of its action.
    #[must_use]
    pub fn step(self, event: Event) -> (step: Step)
        ensures
            step@ == self@.after(event@),
    {
        proof {
            use_type_invariant(&self);
        }
        let ghost before = self@;
        let ghost report = event@;
        let Exchange { endpoint, timeout, name, password, state } = self;
        let event = match event {
            Event::Ended => Event::Failed("the stream ended within an element".to_owned()),
            event => event,
        };
        let turn = match (state, event) {
            (State::Resolving, Event::Failed(reason)) => Turn::Unreachable(reason),
            (State::Resolving, Event::Resolved(count)) => if count > 0 {
                Turn::To(State::Connecting { at: 0, count })
            } else {
                Turn::Unreachable("the name resolves to no address".to_owned())
            },
            (State::Resolving, _) => Turn::Unreachable(
                "the name resolves to no address".to_owned(),
            ),
            (State::Connecting { at, count }, Event::Failed(reason)) => if at + 1 < count {
                Turn::To(State::Connecting { at: at + 1, count })
            } else {
                Turn::Unreachable(reason)
            },
            (State::Connecting { .. }, _) => Turn::To(State::Preparing),
            (State::Preparing, Event::Failed(reason)) => Turn::Unreachable(reason),
            (State::Preparing, _) => Turn::To(State::Sending),
            (State::Sending, Event::Failed(reason)) => Turn::Unreachable(reason),
            (State::Sending, _) => receive(Vec::new(), timeout, Duration::from_secs(0)),
            (State::Receiving { .. }, Event::Failed(reason)) => Turn::Over(
                Err(unreadable(reason.as_str())),
            ),
            (State::Receiving { got, .. }, Event::Received(bytes, elapsed)) => {
                let mut got = got;
                let mut bytes = bytes;
                got.append(&mut bytes);
                receive(got, timeout, elapsed)
            },
            (State::Receiving { .. }, _) => Turn::Over(
                Err(unreadable("the stream ended within an element")),
            ),
            (State::Parting(response), _) => Turn::Over(answer(response)),
        };
        assert(turned(before, turn) == before.after(report));
        match turn {
            Turn::To(state) => Step::Ongoing(
                Exchange { endpoint, timeout, name, password, state },
            ),
            Turn::Unreachable(reason) => Step::Over(
                Err(unreachable(endpoint.as_str(), reason.as_str())),
            ),
            Turn::Over(result) => Step::Over(result),
        }
    }
}

/// What it leads to that `got` of a response is there, `elapsed` after the
/// request was sent.
fn receive(got: Vec<u8>, timeout: Duration, elapsed: Duration) -> (turn: Turn)
    ensures
        forall|binding: Binding|
            binding.timeout == timeout ==> #[trigger] turned(binding, turn) == binding.having(
                got@,
                clock::nanos(elapsed) as nat,
            ),
{
    if elapsed.as_nanos() >= timeout.as_nanos() {
        return Turn::Over(Err(unreadable("it did not come in time")));
    }
    match wanted(got.as_slice()) {
        Err(error) => Turn::Over(Err(unreadable(error.message.as_str()))),
        Ok(count) => if count > 0 {
            Turn::To(State::Receiving { got, left: timeout.saturating_sub(elapsed) })
        } else {
            match BindResponse::decode(got.as_slice()) {
                Err(error) => Turn::Over(Err(error)),
                Ok(response) => Turn::To(State::Parting(response)),
            }
        },
    }
}

/// Whatever comes of its actions, a bind keeps its directory, the time it gives
/// it, its name and its password; and it sends nothing on a connection whose
/// sends and receives were not bounded by that time.
pub proof fn lemma_a_bind_keeps_what_it_was_begun_with(binding: Binding, report: Report)
    requires
        binding.well_formed(),
    ensures
        binding.after(report) matches Next::Ongoing(next) ==> {
            &&& next.well_formed()
            &&& next == binding.at(next.stage)
            &&& next.stage is Sending ==> binding.stage is Preparing && report.failure() is None
            &&& next.stage is Preparing ==> binding.stage is Connecting && report.failure() is None
            &&& next.stage is Receiving ==> binding.stage is Sending || binding.stage is Receiving
        },
{
}

/// The directory is given its time once, to answer whole, and not anew for
/// each part of its answer. Once the request is sent, the first receive is
/// given all of the time, and every later one what is left of it since the
/// request was sent. A response is taken only off what was received before the
/// time was used up; where it is used up first, the bind is over, with an
/// error.
pub proof fn lemma_the_time_to_answer_is_given_once(binding: Binding, report: Report)
    requires
        binding.well_formed(),
    ensures
        match (binding.stage, report, binding.after(report)) {
            (Stage::Sending, _, Next::Ongoing(next)) => next.stage == (Stage::Receiving {
                got: Seq::empty(),
                left: binding.time(),
            }),
            (
                Stage::Receiving { got, .. },
                Report::Received(bytes, elapsed),
                Next::Ongoing(next),
            ) => {
                &&& elapsed < binding.time()
                &&& next.stage is Parting || next.stage == (Stage::Receiving {
                    got: got + bytes,
                    left: (binding.time() - elapsed) as nat,
                })
            },
            (Stage::Receiving { .. }, Report::Received(_, elapsed), Next::Over(result)) => {
                &&& result is Err
                &&& elapsed >= binding.time() ==> result == Err::<Response, _>(
                    ber::in_the_answer(late()),
                )
            },
            (Stage::Receiving { .. }, _, next) => next matches Next::Over(result) && result is Err,
            _ => true,
        },
{
}

// A bind from its beginning to its end.

/// A directory, as one bind meets it.
pub struct Directory {
    /// What its endpoint resolves to: for each address the reason it cannot be
    /// connected to, if there is one; or the reason it does not resolve.
    pub addresses: Result<Seq<Option<Seq<char>>>, Seq<char>>,
    /// The reason the timeouts cannot be set, if there is one.
    pub preparing: Option<Seq<char>>,
    /// The reason the request cannot be sent, if there is one.
    pub sending: Option<Seq<char>>,
    /// All that it answers.
    pub answer: Seq<u8>,
    /// When each byte of that arrives, in nanoseconds after the request was
    /// sent, by its place.
    pub arrives: spec_fn(nat) -> nat,
    /// How many bytes a receive gives at a time, by the place of the first; at
    /// least one, though, and no more than it asks for and than arrive in time.
    pub gives: spec_fn(nat) -> nat,
    /// The reason a receive fails where nothing more arrives in time.
    pub waiting: Seq<char>,
    /// The reason a receive fails after all of the answer.
    pub ending: Seq<char>,
    /// The reason the unbind cannot be sent, if there is one.
    pub parting: Option<Seq<char>>,
}

/// What comes of an action that cannot be done only for the reason `failure`.
pub open spec fn done_unless(failure: Option<Seq<char>>) -> Report {
    match failure {
        None => Report::Done,
        Some(reason) => Report::Failed(reason),
    }
}

impl Directory {
    /// What comes of the next action of `binding` at this directory.
    pub open spec fn reports(self, binding: Binding) -> Report {
        match binding.stage {
            Stage::Resolving => match self.addresses {
                Ok(tries) => Report::Resolved(tries.len()),
                Err(reason) => Report::Failed(reason),
            },
            Stage::Connecting { at, count } => done_unless(self.addresses->Ok_0[at as int]),
            Stage::Preparing => done_unless(self.preparing),
            Stage::Sending => done_unless(self.sending),
            Stage::Receiving { got, .. } => if got.len() < self.prompt(binding.time()).len() {
                let size = self.given(got, binding.time());
                Report::Received(
                    self.answer.subrange(got.len() as int, (got.len() + size) as int),
                    (self.arrives)((got.len() + size - 1) as nat),
                )
            } else {
                Report::Failed(self.stops(binding.time()))
            },
            Stage::Parting(_) => done_unless(self.parting),
        }
    }

    /// How many of the first `count` bytes of the answer arrive before `time`
    /// is used up, each after all those before it.
    pub open spec fn in_time(self, count: nat, time: nat) -> nat
        decreases count,
    {
        if count == 0 {
            0
        } else {
            let before = self.in_time((count - 1) as nat, time);
            if before == count - 1 && (self.arrives)((count - 1) as nat) < time {
                count
            } else {
                before
            }
        }
    }

    /// What arrives of the answer before `time` is used up.
    pub open spec fn prompt(self, time: nat) -> Seq<u8> {
        self.answer.take(self.in_time(self.answer.len(), time) as int)
    }

    /// The reason no more is received than arrives in `time`.
    pub open spec fn stops(self, time: nat) -> Seq<char> {
        if self.prompt(time).len() < self.answer.len() {
            self.waiting
        } else {
            self.ending
        }
    }

    /// How many bytes the next receive gives where `got` is there.
    pub open spec fn given(self, got: Seq<u8>, time: nat) -> nat {
        let wanted = ber::wanted_after(got)->Ok_0;
        let there = (self.prompt(time).len() - got.len()) as nat;
        let most = if wanted < there { wanted } else { there };
        let size = (self.gives)(got.len());
        if size < 1 || most < 1 {
            1
        } else if size < most {
            size
        } else {
            most
        }
    }

    /// Whether one of its addresses can be connected to, or why none can.
    pub open spec fn connects(self) -> Result<(), Seq<char>> {
        match self.addresses {
            Err(reason) => Err(reason),
            Ok(tries) => if exists|at: int| 0 <= at < tries.len() && tries[at] is None {
                Ok(())
            } else if tries.len() == 0 {
                Err(no_address())
            } else {
                Err(tries.last()->0)
            },
        }
    }
}

/// The bytes that the next action of `binding` sends.
pub open spec fn sends(binding: Binding) -> Seq<Seq<u8>> {
    match binding.stage {
        Stage::Sending => seq![bind::request_bytes(binding.request())],
        Stage::Parting(_) => seq![bind::unbind_of(MESSAGE_ID + 1)],
        _ => Seq::empty(),
    }
}

/// How many kinds of stage are still ahead.
pub open spec fn rank(stage: Stage) -> nat {
    match stage {
        Stage::Resolving => 5,
        Stage::Connecting { .. } => 4,
        Stage::Preparing => 3,
        Stage::Sending => 2,
        Stage::Receiving { .. } => 1,
        Stage::Parting(_) => 0,
    }
}

/// How much is still ahead within a stage.
pub open spec fn left(stage: Stage, directory: Directory) -> int {
    match stage {
        Stage::Connecting { at, count } => count - at,
        Stage::Receiving { got, .. } => directory.answer.len() - got.len(),
        _ => 0,
    }
}

/// What arrives in time is the longest part of the answer of which every byte
/// does.
pub proof fn lemma_in_time(directory: Directory, count: nat, time: nat)
    ensures
        directory.in_time(count, time) <= count,
        forall|at: nat|
            at < directory.in_time(count, time) ==> #[trigger] (directory.arrives)(at) < time,
        directory.in_time(count, time) < count ==> (directory.arrives)(
            directory.in_time(count, time),
        ) >= time,
    decreases count,
{
    if count > 0 {
        lemma_in_time(directory, (count - 1) as nat, time);
    }
}

/// All that `binding` sends at `directory` from where it stands, and what it
/// comes to, one action after another.
#[verifier::opaque]
pub open spec fn run(binding: Binding, directory: Directory) -> (
    Seq<Seq<u8>>,
    Result<Response, Seq<char>>,
)
    decreases rank(binding.stage), left(binding.stage, directory),
{
    proof {
        lemma_in_time(directory, directory.answer.len(), binding.time());
    }
    match binding.after(directory.reports(binding)) {
        Next::Over(result) => (sends(binding), result),
        Next::Ongoing(next) => {
            let (sent, result) = run(next, directory);
            (sends(binding) + sent, result)
        },
    }
}

/// All that a bind sends at `directory`, and what it comes to: nothing is sent
/// before a connection is made and prepared; the request is sent once; and
/// once a response has been read, the unbind is, whichever message was
/// answered.
pub open spec fn bound(binding: Binding, directory: Directory) -> (
    Seq<Seq<u8>>,
    Result<Response, Seq<char>>,
) {
    let request = bind::request_bytes(binding.request());
    match (directory.connects(), directory.preparing, directory.sending) {
        (Err(reason), _, _) => (
            Seq::empty(),
            Err(unreachable_at(binding.endpoint, reason)),
        ),
        (_, Some(reason), _) => (
            Seq::empty(),
            Err(unreachable_at(binding.endpoint, reason)),
        ),
        (_, _, Some(reason)) => (
            seq![request],
            Err(unreachable_at(binding.endpoint, reason)),
        ),
        _ => match response_from(directory, binding.time()) {
            Err(message) => (seq![request], Err(message)),
            Ok(response) => (
                seq![request, bind::unbind_of(MESSAGE_ID + 1)],
                answered(response),
            ),
        },
    }
}

/// The response that `directory` answers with before `time` is used up,
/// whichever message it answers.
pub open spec fn response_from(directory: Directory, time: nat) -> Result<Response, Seq<char>> {
    if time == 0 {
        Err(ber::in_the_answer(late()))
    } else {
        match ber::first_element(directory.prompt(time), directory.stops(time)).0 {
            Err(message) => Err(ber::in_the_answer(message)),
            Ok(message) => bind::response_in(message),
        }
    }
}

proof fn lemma_run_goes_on(binding: Binding, next: Binding, directory: Directory)
    requires
        binding.after(directory.reports(binding)) == Next::Ongoing(next),
    ensures
        run(binding, directory) == (
            sends(binding) + run(next, directory).0,
            run(next, directory).1,
        ),
        sends(binding).len() == 0 ==> run(binding, directory) == run(next, directory),
{
    reveal_with_fuel(run, 1);
    assert(Seq::<Seq<u8>>::empty() + run(next, directory).0 =~= run(next, directory).0);
    if sends(binding).len() == 0 {
        assert(sends(binding) =~= Seq::empty());
    }
}

proof fn lemma_run_is_over(
    binding: Binding,
    result: Result<Response, Seq<char>>,
    directory: Directory,
)
    requires
        binding.after(directory.reports(binding)) == Next::Over(result),
    ensures
        run(binding, directory) == (sends(binding), result),
{
    reveal_with_fuel(run, 1);
}

proof fn lemma_run_from_receiving(
    binding: Binding,
    got: Seq<u8>,
    left: nat,
    directory: Directory,
)
    requires
        binding.stage == (Stage::Receiving { got, left }),
        binding.well_formed(),
        ber::is_part(got),
        got.len() <= directory.prompt(binding.time()).len(),
        got == directory.prompt(binding.time()).take(got.len() as int),
    ensures
        run(binding, directory) == (match response_from(directory, binding.time()) {
            Err(message) => (Seq::empty(), Err(message)),
            Ok(response) => (seq![bind::unbind_of(MESSAGE_ID + 1)], answered(response)),
        }),
    decreases directory.prompt(binding.time()).len() - got.len(),
{
    let time = binding.time();
    let prompt = directory.prompt(time);
    let stops = directory.stops(time);
    lemma_in_time(directory, directory.answer.len(), time);
    if got.len() < prompt.len() {
        let size = directory.given(got, time);
        let more = directory.answer.subrange(got.len() as int, (got.len() + size) as int);
        let elapsed = (directory.arrives)((got.len() + size - 1) as nat);
        let now = got + more;
        let rest = prompt.skip(now.len() as int);
        assert(now =~= prompt.take(now.len() as int));
        assert(now + rest =~= prompt);
        assert(directory.reports(binding) == Report::Received(more, elapsed));
        ber::lemma_wanted_leads_to_the_first_element(got, more, stops);
        ber::lemma_wanted_leads_to_the_first_element(now, rest, stops);
        match ber::wanted_after(now) {
            Err(message) => {
                lemma_run_is_over(binding, Err(ber::in_the_answer(message)), directory);
            },
            Ok(next) => if next > 0 {
                let further = (time - elapsed) as nat;
                let waiting = binding.at(Stage::Receiving { got: now, left: further });
                lemma_run_goes_on(binding, waiting, directory);
                lemma_run_from_receiving(waiting, now, further, directory);
            } else {
                match bind::response_in(now) {
                    Err(message) => {
                        lemma_run_is_over(binding, Err(message), directory);
                    },
                    Ok(response) => {
                        let parting = binding.at(Stage::Parting(response));
                        lemma_run_goes_on(binding, parting, directory);
                        lemma_run_is_over(parting, answered(response), directory);
                    },
                }
            },
        }
    } else {
        ber::lemma_wanted_leads_to_the_first_element(got, Seq::empty(), stops);
        assert(got + Seq::<u8>::empty() =~= prompt);
        lemma_run_is_over(binding, Err(ber::in_the_answer(stops)), directory);
    }
}

proof fn lemma_run_from_connecting(binding: Binding, at: nat, directory: Directory)
    requires
        directory.addresses is Ok,
        at < directory.addresses->Ok_0.len(),
        binding.stage == (Stage::Connecting { at, count: directory.addresses->Ok_0.len() }),
        forall|i: int| 0 <= i < at ==> directory.addresses->Ok_0[i] is Some,
    ensures
        run(binding, directory) == (match directory.connects() {
            Ok(()) => run(binding.at(Stage::Preparing), directory),
            Err(reason) => (
                Seq::<Seq<u8>>::empty(),
                Err(unreachable_at(binding.endpoint, reason)),
            ),
        }),
    decreases directory.addresses->Ok_0.len() - at,
{
    let tries = directory.addresses->Ok_0;
    if tries[at as int] is None {
        lemma_run_goes_on(binding, binding.at(Stage::Preparing), directory);
    } else if at + 1 < tries.len() {
        let next = binding.at(Stage::Connecting { at: at + 1, count: tries.len() });
        lemma_run_goes_on(binding, next, directory);
        lemma_run_from_connecting(next, at + 1, directory);
        assert(next.at(Stage::Preparing) == binding.at(Stage::Preparing));
    } else {
        let message = unreachable_at(binding.endpoint, tries[at as int]->0);
        lemma_run_is_over(binding, Err(message), directory);
    }
}

proof fn lemma_run_from_preparing(binding: Binding, directory: Directory)
    requires
        binding.stage is Preparing,
        directory.connects() is Ok,
    ensures
        run(binding, directory) == bound(binding, directory),
{
    if let Some(reason) = directory.preparing {
        lemma_run_is_over(binding, Err(unreachable_at(binding.endpoint, reason)), directory);
    } else {
        let sending = binding.at(Stage::Sending);
        assert(sending.request() == binding.request());
        lemma_run_goes_on(binding, sending, directory);
        if let Some(reason) = directory.sending {
            lemma_run_is_over(sending, Err(unreachable_at(binding.endpoint, reason)), directory);
        } else {
            let time = binding.time();
            let request = seq![bind::request_bytes(binding.request())];
            let unbind = seq![bind::unbind_of(MESSAGE_ID + 1)];
            assert(request + unbind =~= seq![request[0], unbind[0]]);
            assert(request + Seq::<Seq<u8>>::empty() =~= request);
            if time == 0 {
                lemma_run_is_over(sending, Err(ber::in_the_answer(late())), directory);
            } else {
                let receiving = sending.at(Stage::Receiving { got: Seq::empty(), left: time });
                lemma_run_goes_on(sending, receiving, directory);
                lemma_in_time(directory, directory.answer.len(), time);
                assert(directory.prompt(time).take(0) =~= Seq::empty());
                lemma_run_from_receiving(receiving, Seq::empty(), time, directory);
            }
        }
    }
}

/// A bind, performed action by action, sends what [`bound`] says and comes to
/// what it says, whatever the directory does, and at whatever times and in
/// whatever pieces its answer comes: it reaches the first address that can be
/// connected to, gives the last failure where none can, and reads its response
/// off what arrives of the answer before the time is used up.
pub proof fn lemma_a_bind_runs_to_its_end(binding: Binding, directory: Directory)
    requires
        binding.stage is Resolving,
    ensures
        run(binding, directory) == bound(binding, directory),
{
    match directory.addresses {
        Err(reason) => {
            lemma_run_is_over(binding, Err(unreachable_at(binding.endpoint, reason)), directory);
        },
        Ok(tries) => if tries.len() == 0 {
            let message = unreachable_at(binding.endpoint, no_address());
            lemma_run_is_over(binding, Err(message), directory);
        } else {
            let connecting = binding.at(Stage::Connecting { at: 0, count: tries.len() });
            lemma_run_goes_on(binding, connecting, directory);
            lemma_run_from_connecting(connecting, 0, directory);
            let preparing = binding.at(Stage::Preparing);
            assert(connecting.at(Stage::Preparing) == preparing);
            if directory.connects() is Ok {
                lemma_run_from_preparing(preparing, directory);
                assert(preparing.request() == binding.request());
            }
        },
    }
}

proof fn lemma_prompt_is_a_part(directory: Directory, time: nat)
    ensures
        forall|at: nat|
            at < directory.prompt(time).len() ==> #[trigger] (directory.arrives)(at) < time,
        match ber::first_element(directory.prompt(time), directory.stops(time)).0 {
            Ok(element) => {
                &&& ber::first_element(directory.answer, directory.ending).0 == Ok::<
                    _,
                    Seq<char>,
                >(element)
                &&& element.len() <= directory.prompt(time).len()
            },
            Err(message) => match ber::first_element(directory.answer, directory.ending).0 {
                Ok(element) => {
                    &&& message == directory.waiting
                    &&& directory.prompt(time).len() < element.len()
                },
                Err(_) => true,
            },
        },
{
    let prompt = directory.prompt(time);
    lemma_in_time(directory, directory.answer.len(), time);
    let rest = directory.answer.skip(prompt.len() as int);
    assert(prompt + rest =~= directory.answer);
    if prompt.len() >= 2 {
        ber::lemma_header_of_a_prefix(prompt, rest);
    }
    if let Ok(element) = ber::first_element(prompt, directory.stops(time)).0 {
        assert(directory.answer.take(element.len() as int) =~= element);
    }
}

/// A bind comes to a response only where the directory's answer begins with an
/// element that is whole before the time it is given is used up.
pub proof fn lemma_a_response_is_whole_in_time(binding: Binding, directory: Directory)
    requires
        binding.stage is Resolving,
    ensures
        run(binding, directory).1 is Ok ==> {
            &&& ber::first_element(directory.answer, directory.ending).0 is Ok
            &&& forall|at: nat|
                at < ber::first_element(directory.answer, directory.ending).0->Ok_0.len()
                    ==> #[trigger] (directory.arrives)(at) < binding.time()
        },
{
    lemma_a_bind_runs_to_its_end(binding, directory);
    lemma_prompt_is_a_part(directory, binding.time());
}

/// Where the directory has taken the request but its answer is not whole
/// before the time it is given is used up, the bind is an error, though every
/// part of the answer came sooner than that after the one before it.
pub proof fn lemma_an_answer_that_is_not_whole_in_time_is_an_error(
    binding: Binding,
    directory: Directory,
    element: Seq<u8>,
)
    requires
        binding.stage is Resolving,
        directory.connects() is Ok,
        directory.preparing is None,
        directory.sending is None,
        ber::first_element(directory.answer, directory.ending).0 == Ok::<_, Seq<char>>(element),
        exists|at: nat| at < element.len() && #[trigger] (directory.arrives)(at) >= binding.time(),
    ensures
        run(binding, directory).1 == Err::<Response, _>(
            ber::in_the_answer(
                if binding.time() == 0 {
                    late()
                } else {
                    directory.waiting
                },
            ),
        ),
{
    lemma_a_bind_runs_to_its_end(binding, directory);
    lemma_prompt_is_a_part(directory, binding.time());
    let at = choose|at: nat|
        at < element.len() && #[trigger] (directory.arrives)(at) >= binding.time();
    assert(directory.prompt(binding.time()).len() <= at);
}

// What a bind is for, by what is on the wire.

/// Whether `directory` can be connected to and takes the request.
pub open spec fn takes_the_request(directory: Directory) -> bool {
    directory.connects() is Ok && directory.preparing is None && directory.sending is None
}

/// Whether the first `size` bytes of the directory's answer arrive before the
/// time of `binding` is used up.
pub open spec fn arrives_in_time(directory: Directory, size: int, binding: Binding) -> bool {
    &&& 0 <= size <= directory.answer.len()
    &&& forall|at: nat| at < size ==> #[trigger] (directory.arrives)(at) < binding.time()
}

proof fn lemma_response_off_the_wire(
    binding: Binding,
    directory: Directory,
    size: int,
    tag: u8,
    contents: Seq<u8>,
)
    requires
        ber::is_element(directory.answer.take(size), tag, contents),
        size <= 65536,
        arrives_in_time(directory, size, binding),
    ensures
        response_from(directory, binding.time()) == bind::response_in(directory.answer.take(size)),
{
    let time = binding.time();
    let prompt = directory.prompt(time);
    let element = directory.answer.take(size);
    lemma_in_time(directory, directory.answer.len(), time);
    assert(size >= 2);
    assert((directory.arrives)(0) < time);
    assert(prompt.len() >= size) by {
        if prompt.len() < size {
            assert((directory.arrives)(prompt.len()) < time);
        }
    }
    assert(prompt =~= element + prompt.skip(size));
    ber::lemma_every_element_comes_off_a_stream(
        element,
        tag,
        contents,
        prompt.skip(size),
        directory.stops(time),
    );
}

/// A bind answers with what the directory said: where the directory takes the
/// request, and its answer begins with a response, whole in time and of at most
/// 65536 bytes, under message id 1, the bind comes to that response, with the
/// code, the matched DN and the diagnostic message that are on the wire. Under
/// another message id it is an error that names both.
pub proof fn lemma_a_bind_answers_with_what_is_on_the_wire(
    binding: Binding,
    directory: Directory,
    size: int,
    parts: bind::Parts,
)
    requires
        binding.stage is Resolving,
        takes_the_request(directory),
        arrives_in_time(directory, size, binding),
        size <= 65536,
        bind::is_laid_out(directory.answer.take(size), parts, 0x61, (0x0a, 0x04, 0x04)),
        parts.beyond.len() == 0,
        bind::is_readable_integer(parts.id.contents),
        bind::is_readable_integer(parts.first.contents),
        vstd::utf8::valid_utf8(parts.second.contents),
        vstd::utf8::valid_utf8(parts.third.contents),
    ensures
        match run(binding, directory).1 {
            Ok(response) => {
                &&& ber::complement(parts.id.contents) == 1
                &&& response.message_id == 1
                &&& response.result_code == ber::complement(parts.first.contents)
                &&& vstd::utf8::encode_utf8(response.matched_dn) == parts.second.contents
                &&& vstd::utf8::encode_utf8(response.diagnostic) == parts.third.contents
            },
            Err(message) => {
                &&& ber::complement(parts.id.contents) != 1
                &&& message == "the directory answered message "@ + crate::text::decimal_of(
                    ber::complement(parts.id.contents),
                ) + " and the bind was message "@ + crate::text::decimal_of(1)
            },
        },
{
    let element = directory.answer.take(size);
    lemma_a_bind_runs_to_its_end(binding, directory);
    assert(element =~= parts.message.whole);
    lemma_response_off_the_wire(binding, directory, size, 0x30, parts.message.contents);
    bind::lemma_a_response_is_read_off_its_places(element, parts);
}

/// A bind comes to a response only where the directory takes the request, and
/// its answer begins with that response: laid out as one, whole in time and of
/// at most 65536 bytes, under message id 1, with the same code, matched DN and
/// diagnostic message.
pub proof fn lemma_what_a_bind_answers_with_is_on_the_wire(
    binding: Binding,
    directory: Directory,
) -> (found: (int, bind::Parts))
    requires
        binding.stage is Resolving,
        run(binding, directory).1 is Ok,
    ensures
        takes_the_request(directory),
        arrives_in_time(directory, found.0, binding),
        found.0 <= 65536,
        bind::is_laid_out(directory.answer.take(found.0), found.1, 0x61, (0x0a, 0x04, 0x04)),
        ({
            let (_, parts) = found;
            let response = run(binding, directory).1->Ok_0;
            &&& response.message_id == 1
            &&& ber::complement(parts.id.contents) == 1
            &&& response.result_code == ber::complement(parts.first.contents)
            &&& vstd::utf8::encode_utf8(response.matched_dn) == parts.second.contents
            &&& vstd::utf8::encode_utf8(response.diagnostic) == parts.third.contents
        }),
{
    lemma_a_bind_runs_to_its_end(binding, directory);
    lemma_a_response_is_whole_in_time(binding, directory);
    lemma_prompt_is_a_part(directory, binding.time());
    let element = ber::first_element(directory.answer, directory.ending).0->Ok_0;
    ber::lemma_nothing_else_comes_off_a_stream(directory.answer, directory.ending);
    assert(directory.answer.take(element.len() as int) =~= element);
    (element.len() as int, bind::lemma_what_is_read_as_a_response_is_one(element))
}

/// A bind comes to the very response that the directory wrote, every field of
/// it, if that arrives whole in time and is under message id 1, whatever follows
/// it.
pub proof fn lemma_a_bind_answers_with_what_the_directory_wrote(
    binding: Binding,
    directory: Directory,
    response: Response,
)
    requires
        binding.stage is Resolving,
        takes_the_request(directory),
        response.message_id == 1,
        bind::response_bytes(response).len() <= 65536,
        bind::response_bytes(response).is_prefix_of(directory.answer),
        arrives_in_time(directory, bind::response_bytes(response).len() as int, binding),
    ensures
        run(binding, directory).1 == Ok::<_, Seq<char>>(response),
{
    let written = bind::response_bytes(response);
    lemma_a_bind_runs_to_its_end(binding, directory);
    let parts = bind::lemma_a_response_is_written_in_its_order(response);
    assert(directory.answer.take(written.len() as int) =~= written);
    assert(written =~= parts.message.whole);
    lemma_response_off_the_wire(
        binding,
        directory,
        written.len() as int,
        0x30,
        parts.message.contents,
    );
    bind::lemma_encoded_response_reads_back(response);
}

/// A bind sends nothing before it is connected and prepared. Then it sends the
/// request, under message id 1, with its own name and its own password, once;
/// after that at most an unbind, under message id 2, and always one where it
/// comes to a response.
pub proof fn lemma_what_a_bind_sends(binding: Binding, directory: Directory)
    requires
        binding.stage is Resolving,
    ensures
        ({
            let (sent, result) = run(binding, directory);
            &&& sent.len() > 0 <==> directory.connects() is Ok && directory.preparing is None
            &&& sent.len() > 0 ==> sent[0] == bind::request_bytes(
                (Request { message_id: 1, name: binding.name, password: binding.password }),
            )
            &&& sent.len() <= 2
            &&& sent.len() == 2 ==> sent[1] == bind::unbind_of(2)
            &&& result is Ok ==> sent.len() == 2
        }),
{
    lemma_a_bind_runs_to_its_end(binding, directory);
}

/// Where the directory cannot be reached, or does not take the request, the
/// bind is an error that names the directory and gives the reason: the one at
/// which the bind stopped, and of several addresses that of the last.
pub proof fn lemma_a_directory_out_of_reach_is_named(binding: Binding, directory: Directory)
    requires
        binding.stage is Resolving,
        !takes_the_request(directory),
    ensures
        run(binding, directory).1 == Err::<Response, _>(
            "the directory at '"@ + binding.endpoint + "' cannot be reached: "@ + (match (
                directory.addresses,
                directory.connects(),
                directory.preparing,
                directory.sending,
            ) {
                (Err(reason), _, _, _) => reason,
                (Ok(tries), Err(_), _, _) => if tries.len() == 0 {
                    "the name resolves to no address"@
                } else {
                    tries.last()->0
                },
                (_, _, Some(reason), _) => reason,
                (_, _, _, Some(reason)) => reason,
                _ => Seq::empty(),
            }),
        ),
{
    lemma_a_bind_runs_to_its_end(binding, directory);
}

/// While the answer is still a part of an element of at most 65536 bytes and
/// there is time left, the bind goes on, whatever a receive brings of it: what
/// came is kept in order, and the time that is left is what is not used up.
pub proof fn lemma_a_bind_goes_on_while_there_is_time(
    binding: Binding,
    got: Seq<u8>,
    left: nat,
    bytes: Seq<u8>,
    elapsed: nat,
    element: Seq<u8>,
    tag: u8,
    contents: Seq<u8>,
)
    requires
        binding.stage == (Stage::Receiving { got, left }),
        elapsed < binding.time(),
        ber::is_element(element, tag, contents),
        element.len() <= 65536,
        (got + bytes).is_prefix_of(element),
        got.len() + bytes.len() < element.len(),
    ensures
        binding.after(Report::Received(bytes, elapsed)) == Next::Ongoing(
            (Binding {
                stage: Stage::Receiving {
                    got: got + bytes,
                    left: (binding.time() - elapsed) as nat,
                },
                ..binding
            }),
        ),
{
    let size = (got + bytes).len() as int;
    assert(element.take(size) =~= got + bytes);
    ber::lemma_no_more_is_wanted_than_there_is(element, tag, contents, size);
}

/// A bind takes for the response only what it received: it parts with the
/// directory after bytes that are laid out as a response, and with that one.
pub proof fn lemma_a_bind_parts_after_what_it_received(
    binding: Binding,
    got: Seq<u8>,
    left: nat,
    bytes: Seq<u8>,
    elapsed: nat,
) -> (parts: bind::Parts)
    requires
        binding.stage == (Stage::Receiving { got, left }),
        binding.after(Report::Received(bytes, elapsed)) matches Next::Ongoing(next)
            && next.stage is Parting,
    ensures
        bind::is_laid_out(got + bytes, parts, 0x61, (0x0a, 0x04, 0x04)),
        ({
            let next = binding.after(Report::Received(bytes, elapsed))->Ongoing_0;
            let response = next.stage->Parting_0;
            &&& response.message_id == ber::complement(parts.id.contents)
            &&& response.result_code == ber::complement(parts.first.contents)
            &&& vstd::utf8::encode_utf8(response.matched_dn) == parts.second.contents
            &&& vstd::utf8::encode_utf8(response.diagnostic) == parts.third.contents
        }),
{
    bind::lemma_what_is_read_as_a_response_is_one(got + bytes)
}

/// What came of an action is reported as it is, and an exchange comes to what
/// it holds: the response itself, or the error's words.
pub proof fn lemma_what_is_reported_is_what_came(
    count: usize,
    bytes: Vec<u8>,
    elapsed: Duration,
    reason: String,
    response: BindResponse,
    error: AuthenticateError,
    exchange: Exchange,
)
    ensures
        Step::Ongoing(exchange)@ == Next::Ongoing(exchange@),
        Event::Resolved(count)@ == Report::Resolved(count as nat),
        Event::Done@ == Report::Done,
        Event::Ended@ == Report::Ended,
        Event::Received(bytes, elapsed)@ == Report::Received(
            bytes@,
            clock::nanos(elapsed) as nat,
        ),
        Event::Failed(reason)@ == Report::Failed(reason@),
        came_to(Ok(response)) == Ok::<_, Seq<char>>(response@),
        came_to(Err(error)) == Err::<Response, _>(error.message@),
        Step::Over(Ok(response))@ == Next::Over(Ok(response@)),
        Step::Over(Err(error))@ == Next::Over(Err(error.message@)),
{
}

/// Once a bind has read a response it is over, whatever comes of the unbind:
/// with that response, every field of it, where it is under message id 1, and
/// else with an error that names both messages.
pub proof fn lemma_whatever_comes_of_the_unbind(
    binding: Binding,
    response: Response,
    report: Report,
)
    requires
        binding.stage == Stage::Parting(response),
    ensures
        binding.after(report) == Next::Over(
            if response.message_id == 1 {
                Ok(response)
            } else {
                Err(
                    "the directory answered message "@ + crate::text::decimal_of(
                        response.message_id as int,
                    ) + " and the bind was message "@ + crate::text::decimal_of(1),
                )
            },
        ),
{
}

/// Before a bind has read a response, an action that fails is an error that
/// gives the reason whole, and names the directory or its answer; but where
/// there is another address, that is tried next.
pub proof fn lemma_a_failure_is_told(binding: Binding, reason: Seq<char>)
    requires
        !(binding.stage is Parting),
    ensures
        binding.after(Report::Failed(reason)) == (match binding.stage {
            Stage::Connecting { at, count } if at + 1 < count => Next::Ongoing(
                (Binding { stage: Stage::Connecting { at: at + 1, count }, ..binding }),
            ),
            Stage::Receiving { .. } => Next::Over(Err("the directory's answer: "@ + reason)),
            _ => Next::Over(
                Err(
                    "the directory at '"@ + binding.endpoint + "' cannot be reached: "@ + reason,
                ),
            ),
        }),
{
}

} // verus!
