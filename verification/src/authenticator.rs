//! The verifier: from a presented claim to a bind, and from what the bind came
//! to, to a verdict.

use crate::bind;
use crate::bind::{result_name, BindResponse, Response};
use crate::claim;
use crate::claim::{AuthenticateError, Claim, Mechanism, Presented, Verified};
use crate::clock;
use crate::dn;
use crate::dn::escape;
use crate::exchange;
use crate::exchange::{Binding, Directory, Exchange, Stage};
use crate::text;
use crate::text::{contains, decimal, replace, same};
use std::time::Duration;
use vstd::prelude::*;

verus! {

/// The proof name this verifier reads off a `Presented`.
pub const PROOF: &'static str = "password";

/// Where the username goes in a DN template.
pub const PLACEHOLDER: &'static str = "{username}";

/// How long the directory is given to connect and to answer unless
/// configured otherwise, in seconds.
pub const DEFAULT_TIMEOUT_SECONDS: u64 = 5;

/// How long the directory is given to connect and to answer unless
/// configured otherwise.
#[must_use]
pub fn default_timeout() -> (duration: Duration)
    ensures
        clock::nanos(duration) == DEFAULT_TIMEOUT_SECONDS * 1_000_000_000,
{
    Duration::from_secs(DEFAULT_TIMEOUT_SECONDS)
}

/// What an authenticator is configured with.
pub struct Settings {
    /// The directory it binds at.
    pub endpoint: Seq<char>,
    /// The DN template.
    pub template: Seq<char>,
    /// How long the directory is given to connect, and again to answer.
    pub timeout: Duration,
}

/// Verifies a `username` claim with a `password` proof by binding at a
/// directory.
#[derive(Debug)]
pub struct LdapAuthenticator {
    endpoint: String,
    template: String,
    timeout: Duration,
}

impl Clone for LdapAuthenticator {
    fn clone(&self) -> (copy: Self)
        ensures
            copy == *self,
    {
        proof {
            use_type_invariant(self);
        }
        LdapAuthenticator {
            endpoint: self.endpoint.clone(),
            template: self.template.clone(),
            timeout: self.timeout,
        }
    }
}

impl View for LdapAuthenticator {
    type V = Settings;

    closed spec fn view(&self) -> Settings {
        Settings { endpoint: self.endpoint@, template: self.template@, timeout: self.timeout }
    }
}

/// What is said of a template without a place for the username.
pub open spec fn no_place(template: Seq<char>) -> Seq<char> {
    "the DN template '"@ + template + "' has no '"@ + PLACEHOLDER@ + "' in it"@
}

/// The DN that `username` binds as under `template`.
pub open spec fn dn_of(template: Seq<char>, username: Seq<char>) -> Seq<char> {
    text::replaced(template, PLACEHOLDER@, dn::escaped(username))
}

/// Whether a claim read by `mechanism` is one this verifier reads.
pub open spec fn is_read(mechanism: Seq<char>) -> bool {
    mechanism == "username"@ || mechanism == "ldap"@
}

/// What is said of a claim this verifier does not read.
pub open spec fn not_read(mechanism: Seq<char>) -> Seq<char> {
    "'"@ + mechanism + "' is not a claim the LDAP verifier reads: it takes a username"@
}

/// What is said of a claim without a password.
pub open spec fn no_proof(value: Seq<char>) -> Seq<char> {
    "no '"@ + PROOF@ + "' proof was presented with the username '"@ + value + "'"@
}

/// What is said of a claim without a username.
pub open spec fn no_username() -> Seq<char> {
    "the username presented is empty"@
}

/// What is said of an empty password.
pub open spec fn no_password() -> Seq<char> {
    "the password presented is empty, and a bind without one proves nothing"@
}

/// The username and the password of a claim that can be put to a directory,
/// or what is said of one that cannot.
pub open spec fn credentials(claim: Claim) -> Result<(Seq<char>, Seq<char>), Seq<char>> {
    if !is_read(claim.mechanism) {
        Err(not_read(claim.mechanism))
    } else {
        match claim::secret_in(claim.proofs, PROOF@) {
            None => Err(no_proof(claim.value)),
            Some(password) => if claim.value.len() == 0 {
                Err(no_username())
            } else if password.len() == 0 {
                Err(no_password())
            } else {
                Ok((claim.value, password))
            },
        }
    }
}

/// A bind at the directory of `settings` as `name` with `password`, not yet
/// begun.
pub open spec fn binding_of(
    settings: Settings,
    name: Seq<char>,
    password: Seq<char>,
) -> Binding {
    Binding {
        endpoint: settings.endpoint,
        timeout: settings.timeout,
        name,
        password,
        stage: Stage::Resolving,
    }
}

/// What is said of a response that neither proves a claim nor refuses it.
pub open spec fn said(response: Response) -> Seq<char> {
    let head = "the directory answered the bind with "@ + text::decimal_of(
        response.result_code as int,
    ) + " ("@ + bind::name_of(response.result_code) + ")"@;
    if response.diagnostic.len() == 0 {
        head
    } else {
        head + ": "@ + response.diagnostic
    }
}

/// The verdict that a bind comes to.
pub open spec fn verdict(bound: Result<Response, Seq<char>>) -> Result<Verified, Seq<char>> {
    match bound {
        Err(message) => Err(message),
        Ok(response) => if response.result_code == bind::SUCCESS {
            Ok(Verified::Proven)
        } else if response.result_code == bind::INVALID_CREDENTIALS || response.result_code
            == bind::NO_SUCH_OBJECT {
            Ok(Verified::Refused)
        } else {
            Err(said(response))
        },
    }
}

impl LdapAuthenticator {
    #[verifier::type_invariant]
    spec fn has_a_place(self) -> bool {
        text::holds(self.template@, PLACEHOLDER@)
    }

    /// Binds at `endpoint` — `host:port` — as `template` with the username
    /// in place of `{username}`: `uid={username},ou=people,dc=example,dc=org`.
    ///
    /// # Errors
    ///
    /// The template has no `{username}` in it, so every user would bind as
    /// the same entry.
    pub fn new(endpoint: &str, template: &str) -> (result: Result<Self, AuthenticateError>)
        ensures
            match result {
                Ok(authenticator) => {
                    &&& text::holds(template@, PLACEHOLDER@)
                    &&& authenticator@.endpoint == endpoint@
                    &&& authenticator@.template == template@
                    &&& clock::nanos(authenticator@.timeout) == DEFAULT_TIMEOUT_SECONDS
                        * 1_000_000_000
                },
                Err(error) => {
                    &&& !text::holds(template@, PLACEHOLDER@)
                    &&& error.message@ == no_place(template@)
                },
            },
    {
        if !contains(template, PLACEHOLDER) {
            let mut message = "the DN template '".to_owned();
            message.append(template);
            message.append("' has no '");
            message.append(PLACEHOLDER);
            message.append("' in it");
            return Err(AuthenticateError::new(message));
        }
        Ok(
            LdapAuthenticator {
                endpoint: endpoint.to_owned(),
                template: template.to_owned(),
                timeout: default_timeout(),
            },
        )
    }

    /// How long the directory is given to connect, and again to answer: the
    /// time to answer begins when the request is sent, and the whole answer is
    /// to arrive before it is used up.
    #[must_use]
    pub fn with_timeout(self, timeout: Duration) -> (authenticator: Self)
        ensures
            authenticator@ == (Settings { timeout, ..self@ }),
    {
        let mut authenticator = self;
        proof {
            use_type_invariant(&authenticator);
        }
        authenticator.timeout = timeout;
        authenticator
    }

    /// The directory this binds at.
    #[must_use]
    pub fn endpoint(&self) -> (endpoint: &str)
        ensures
            endpoint@ == self@.endpoint,
    {
        self.endpoint.as_str()
    }

    /// How long the directory is given to connect, and again to answer.
    #[must_use]
    pub fn timeout(&self) -> (timeout: Duration)
        ensures
            timeout == self@.timeout,
    {
        self.timeout
    }

    /// The DN `username` binds as.
    #[must_use]
    pub fn distinguished_name(&self, username: &str) -> (name: String)
        ensures
            name@ == dn_of(self@.template, username@),
            text::holds(self@.template, PLACEHOLDER@),
    {
        proof {
            use_type_invariant(self);
            reveal_strlit("{username}");
        }
        replace(self.template.as_str(), PLACEHOLDER, escape(username).as_str())
    }

    /// The mechanism this verifies by.
    #[must_use]
    pub fn mechanism(&self) -> (mechanism: Mechanism)
        ensures
            mechanism.name@ == "ldap"@,
    {
        Mechanism::ldap()
    }

    /// Bind as `name` with `password`: the exchange to be had with the
    /// directory, which comes to what the directory said, or to an error where
    /// it cannot be reached, does not answer in time, or answers with something
    /// that is not the response to this bind.
    #[must_use]
    pub fn bind(&self, name: &str, password: &str) -> (exchange: Exchange)
        ensures
            exchange@ == binding_of(self@, name@, password@),
    {
        Exchange::begin(self.endpoint.as_str(), self.timeout, name, password)
    }

    /// Verify what was presented: the exchange to be had with the directory,
    /// for [`judge`] to turn into a verdict what it comes to.
    ///
    /// # Errors
    ///
    /// The claim is not one this verifier reads, comes without a password, or
    /// has an empty username or an empty password.
    pub fn verify(&self, presented: &Presented) -> (result: Result<Exchange, AuthenticateError>)
        ensures
            match (result, credentials(presented@)) {
                (Ok(exchange), Ok((username, password))) => exchange@ == binding_of(
                    self@,
                    dn_of(self@.template, username),
                    password,
                ),
                (Err(error), Err(message)) => error.message@ == message,
                _ => false,
            },
    {
        if !reads(&presented.mechanism) {
            let mut message = "'".to_owned();
            message.append(presented.mechanism.name());
            message.append("' is not a claim the LDAP verifier reads: it takes a username");
            return Err(AuthenticateError::new(message));
        }
        let password = match presented.proof_of(PROOF) {
            Some(password) => password,
            None => {
                let mut message = "no '".to_owned();
                message.append(PROOF);
                message.append("' proof was presented with the username '");
                message.append(presented.value.as_str());
                message.append("'");
                return Err(AuthenticateError::new(message));
            },
        };
        if presented.value.as_str().is_empty() {
            return Err(AuthenticateError::saying("the username presented is empty"));
        }
        if password.is_empty() {
            return Err(
                AuthenticateError::saying(
                    "the password presented is empty, and a bind without one proves nothing",
                ),
            );
        }
        let name = self.distinguished_name(presented.value.as_str());
        Ok(self.bind(name.as_str(), password))
    }
}

/// Whether a claim is one this verifier reads: a bare `username`, or one
/// already filed under `ldap`.
fn reads(mechanism: &Mechanism) -> (read: bool)
    ensures
        read == is_read(mechanism.name@),
{
    let name = mechanism.name();
    same(name, "username") || same(name, "ldap")
}

/// The verdict that a bind comes to: `success` proves the claim, and
/// `invalidCredentials` and `noSuchObject` refuse it.
///
/// # Errors
///
/// There was no response to the bind, or the directory said something else.
pub fn judge(bound: Result<BindResponse, AuthenticateError>) -> (result: Result<
    Verified,
    AuthenticateError,
>)
    ensures
        match (result, verdict(exchange::came_to(bound))) {
            (Ok(verified), Ok(expected)) => verified == expected,
            (Err(error), Err(message)) => error.message@ == message,
            _ => false,
        },
{
    let response = bound?;
    let code = response.result_code;
    if code == bind::SUCCESS {
        return Ok(Verified::Proven);
    }
    if code == bind::INVALID_CREDENTIALS || code == bind::NO_SUCH_OBJECT {
        return Ok(Verified::Refused);
    }
    let mut message = "the directory answered the bind with ".to_owned();
    message.append(decimal(code).as_str());
    message.append(" (");
    message.append(result_name(code));
    message.append(")");
    if !response.diagnostic.as_str().is_empty() {
        message.append(": ");
        message.append(response.diagnostic.as_str());
    }
    Err(AuthenticateError::new(message))
}

// What holds from a claim to its verdict.

/// Without a place for the username in it, a template is the same DN for
/// every user.
pub proof fn lemma_without_a_place_every_user_is_one_entry(
    template: Seq<char>,
    username: Seq<char>,
)
    requires
        !text::holds(template, PLACEHOLDER@),
    ensures
        dn_of(template, username) == template,
{
    text::lemma_replaced_without_pattern(template, PLACEHOLDER@, dn::escaped(username));
}

/// With a place for the username in it, no two users bind as one entry.
pub proof fn lemma_different_users_bind_as_different_entries(
    template: Seq<char>,
    left: Seq<char>,
    right: Seq<char>,
)
    requires
        text::holds(template, PLACEHOLDER@),
        dn_of(template, left) == dn_of(template, right),
    ensures
        left == right,
{
    reveal_strlit("{username}");
    text::lemma_replaced_keeps_replacements_apart(
        template,
        PLACEHOLDER@,
        dn::escaped(left),
        dn::escaped(right),
    );
    dn::lemma_escaped_keeps_values_apart(left, right);
}

/// A username cannot reach outside its place in the DN, whatever the template:
/// what the template has before its first place and after it stands in the DN
/// unchanged, but for further places; whoever reads the DN at that place reads
/// the username, whole, and then what the template has after it, as that is
/// read alone. Where the template has its end there or a separator, the value
/// read is the username and nothing else.
pub proof fn lemma_a_username_stays_in_its_place(
    before: Seq<char>,
    after: Seq<char>,
    username: Seq<char>,
)
    requires
        forall|at: int|
            0 <= at < before.len() ==> !text::stands_at(
                before + PLACEHOLDER@ + after,
                PLACEHOLDER@,
                at,
            ),
    ensures
        ({
            let whole = dn_of(before + PLACEHOLDER@ + after, username);
            let rest = dn_of(after, username);
            let octets = vstd::utf8::encode_utf8(username);
            let read = dn::value_read(whole.skip(before.len() as int));
            &&& whole == before + dn::escaped(username) + rest
            &&& read == (octets + dn::value_read(rest).0, dn::value_read(rest).1)
            &&& after.len() == 0 || dn::is_separator(after[0]) ==> {
                &&& read == (octets, rest)
                &&& rest.len() == 0 <==> after.len() == 0
                &&& after.len() > 0 ==> rest[0] == after[0]
            }
        }),
{
    reveal_strlit("{username}");
    let name = dn::escaped(username);
    text::lemma_replaced_at_first_place(before, PLACEHOLDER@, after, name);
    let rest = dn_of(after, username);
    if after.len() > 0 && dn::is_separator(after[0]) {
        assert(PLACEHOLDER@[0] == '{');
        if text::stands_at(after, PLACEHOLDER@, 0) {
            assert(after.subrange(0, PLACEHOLDER@.len() as int)[0] == after[0]);
        }
        assert(rest[0] == after[0]);
    }
    dn::lemma_escaped_stays_in_its_place(username, rest);
    assert((before + name + rest).skip(before.len() as int) =~= name + rest);
}

/// Every template that an authenticator takes has a first place for the
/// username, so [`lemma_a_username_stays_in_its_place`] speaks of all of them,
/// and of each further place in turn.
pub proof fn lemma_every_template_has_a_first_place(template: Seq<char>) -> (sides: (
    Seq<char>,
    Seq<char>,
))
    requires
        text::holds(template, PLACEHOLDER@),
    ensures
        template == sides.0 + PLACEHOLDER@ + sides.1,
        forall|at: int|
            0 <= at < sides.0.len() ==> !text::stands_at(template, PLACEHOLDER@, at),
{
    text::lemma_first_place(template, PLACEHOLDER@)
}

/// What a bind sends is read by the directory as the bind it is: the first
/// message is the request, and nothing else that is sent is one.
pub proof fn lemma_a_directory_reads_the_bind(
    settings: Settings,
    name: Seq<char>,
    password: Seq<char>,
    directory: Directory,
)
    requires
        bind::request_bytes(binding_of(settings, name, password).request()).len() <= usize::MAX,
    ensures
        ({
            let binding = binding_of(settings, name, password);
            let sent = exchange::run(binding, directory).0;
            forall|at: int|
                0 <= at < sent.len() ==> #[trigger] bind::request_in(sent[at]) == (if at == 0 {
                    Ok(binding.request())
                } else {
                    Err(crate::ber::misplaced(bind::UNBIND_REQUEST, bind::BIND_REQUEST))
                })
        }),
{
    let binding = binding_of(settings, name, password);
    exchange::lemma_a_bind_runs_to_its_end(binding, directory);
    let request = bind::request_bytes(binding.request());
    bind::lemma_request_reads_back(binding.request(), Seq::empty());
    assert(request + Seq::<u8>::empty() =~= request);
    bind::lemma_unbind_is_no_bind((exchange::MESSAGE_ID + 1) as i64);
}

/// An empty password is never sent, nor is an empty username bound as: of
/// what is sent to verify a claim, every message a directory reads as a bind
/// holds the password presented, which is not empty, and the DN of the
/// username presented, which is not empty either.
pub proof fn lemma_an_empty_password_is_never_sent(
    settings: Settings,
    claim: Claim,
    directory: Directory,
)
    requires
        credentials(claim) matches Ok((username, password)) && bind::request_bytes(
            binding_of(settings, dn_of(settings.template, username), password).request(),
        ).len() <= usize::MAX,
    ensures
        ({
            let (username, password) = credentials(claim)->Ok_0;
            let binding = binding_of(settings, dn_of(settings.template, username), password);
            let sent = exchange::run(binding, directory).0;
            &&& username == claim.value
            &&& username.len() > 0
            &&& forall|at: int|
                0 <= at < sent.len() ==> (#[trigger] bind::request_in(sent[at]) matches Ok(
                    request,
                ) ==> {
                    &&& request.password == password
                    &&& request.password.len() > 0
                    &&& request.name == dn_of(settings.template, username)
                })
        }),
{
    let (username, password) = credentials(claim)->Ok_0;
    lemma_a_directory_reads_the_bind(
        settings,
        dn_of(settings.template, username),
        password,
        directory,
    );
}

/// Whether `directory` takes the request and answers it, under its id and
/// before `time` is used up, with `code`.
pub open spec fn answers_with(directory: Directory, time: nat, code: i64) -> bool {
    &&& directory.connects() is Ok
    &&& directory.preparing is None
    &&& directory.sending is None
    &&& exchange::response_from(directory, time) matches Ok(response) && response.message_id
        == exchange::MESSAGE_ID && response.result_code == code
}

/// A claim is proven if and only if the directory answers its bind in time
/// with `success`, and refused if and only if it answers in time with
/// `invalidCredentials` or `noSuchObject`, the one like the other. Any other code it answers with
/// is an error that gives the code and the directory's own words.
pub proof fn lemma_the_directory_decides(binding: Binding, directory: Directory)
    requires
        binding.stage is Resolving,
    ensures
        ({
            let time = binding.time();
            let result = verdict(exchange::run(binding, directory).1);
            &&& result == Ok::<_, Seq<char>>(Verified::Proven) <==> answers_with(
                directory,
                time,
                bind::SUCCESS,
            )
            &&& result == Ok::<_, Seq<char>>(Verified::Refused) <==> answers_with(
                directory,
                time,
                bind::INVALID_CREDENTIALS,
            ) || answers_with(directory, time, bind::NO_SUCH_OBJECT)
            &&& match exchange::response_from(directory, time) {
                Ok(response) => {
                    let code = response.result_code;
                    answers_with(directory, time, code) && code != bind::SUCCESS && code
                        != bind::INVALID_CREDENTIALS && code != bind::NO_SUCH_OBJECT ==> result
                        == Err::<Verified, _>(said(response))
                },
                Err(_) => result is Err,
            }
        }),
{
    exchange::lemma_a_bind_runs_to_its_end(binding, directory);
}

/// A response that a directory writes, and that arrives whole before the time
/// is used up, is what the bind comes to, if it answers the bind, whatever the
/// directory sends after it.
pub proof fn lemma_a_written_response_is_what_a_bind_comes_to(
    binding: Binding,
    directory: Directory,
    response: Response,
    rest: Seq<u8>,
)
    requires
        binding.stage is Resolving,
        directory.connects() is Ok,
        directory.preparing is None,
        directory.sending is None,
        directory.answer == bind::response_bytes(response) + rest,
        bind::response_bytes(response).len() <= crate::ber::LARGEST,
        forall|at: nat|
            at < bind::response_bytes(response).len() ==> #[trigger] (directory.arrives)(at)
                < binding.time(),
    ensures
        exchange::run(binding, directory).1 == exchange::answered(response),
{
    exchange::lemma_a_bind_runs_to_its_end(binding, directory);
    let time = binding.time();
    let written = bind::response_bytes(response);
    let prompt = directory.prompt(time);
    exchange::lemma_in_time(directory, directory.answer.len(), time);
    let after = prompt.skip(written.len() as int);
    assert(prompt =~= written + after);
    assert((directory.arrives)(0) < time);
    let operation = crate::ber::tlv_of(
        bind::BIND_RESPONSE,
        bind::result_body(response.result_code, response.matched_dn, response.diagnostic),
    );
    crate::ber::lemma_element_comes_off_a_stream(
        crate::ber::SEQUENCE,
        crate::ber::integer_of(crate::ber::INTEGER, response.message_id as int) + operation,
        after,
        directory.stops(time),
    );
    bind::lemma_encoded_response_reads_back(response);
}

// What a verification is for, by what is presented and what is sent.

/// Whether the proof at `at` is the first one called `password`.
pub open spec fn is_the_password(claim: Claim, at: int) -> bool {
    &&& 0 <= at < claim.proofs.len()
    &&& claim.proofs[at].0 == "password"@
    &&& forall|i: int| 0 <= i < at ==> (#[trigger] claim.proofs[i]).0 != "password"@
}

/// A claim that is read, with a username and with a password that is not empty,
/// goes ahead, and the bind is made with what was presented: at the directory
/// and with the time of the settings, as the DN of the whole username, and with
/// the whole secret of the first proof called `password`, which is what the
/// request that is sent carries.
pub proof fn lemma_a_claim_is_bound_with_what_was_presented(
    settings: Settings,
    claim: Claim,
    at: int,
    directory: Directory,
)
    requires
        claim.mechanism == "username"@ || claim.mechanism == "ldap"@,
        claim.value.len() > 0,
        is_the_password(claim, at),
        claim.proofs[at].1.len() > 0,
    ensures
        credentials(claim) == Ok::<_, Seq<char>>((claim.value, claim.proofs[at].1)),
        ({
            let (username, password) = credentials(claim)->Ok_0;
            let binding = binding_of(settings, dn_of(settings.template, username), password);
            let sent = exchange::run(binding, directory).0;
            &&& binding.stage is Resolving
            &&& binding.endpoint == settings.endpoint
            &&& binding.timeout == settings.timeout
            &&& binding.name == dn_of(settings.template, claim.value)
            &&& binding.password == claim.proofs[at].1
            &&& sent.len() > 0 <==> directory.connects() is Ok && directory.preparing is None
            &&& sent.len() > 0 ==> sent[0] == bind::request_bytes(
                (bind::Request {
                    message_id: 1,
                    name: dn_of(settings.template, claim.value),
                    password: claim.proofs[at].1,
                }),
            )
        }),
{
    claim::lemma_the_first_proof_of_a_name_is_taken(claim.proofs, "password"@, at);
    let binding = binding_of(settings, dn_of(settings.template, claim.value), claim.proofs[at].1);
    exchange::lemma_what_a_bind_sends(binding, directory);
}

/// The request that a verification sends has, in the places of a bind, the
/// UTF-8 of the DN of the username presented and the UTF-8 of the whole password
/// presented, under the message id 1.
pub proof fn lemma_the_password_presented_is_on_the_wire(
    settings: Settings,
    claim: Claim,
    at: int,
    directory: Directory,
) -> (parts: bind::Parts)
    requires
        claim.mechanism == "username"@ || claim.mechanism == "ldap"@,
        claim.value.len() > 0,
        is_the_password(claim, at),
        claim.proofs[at].1.len() > 0,
        directory.connects() is Ok,
        directory.preparing is None,
        bind::request_bytes(
            (bind::Request {
                message_id: 1,
                name: dn_of(settings.template, claim.value),
                password: claim.proofs[at].1,
            }),
        ).len() <= usize::MAX,
    ensures
        ({
            let (username, password) = credentials(claim)->Ok_0;
            let binding = binding_of(settings, dn_of(settings.template, username), password);
            let sent = exchange::run(binding, directory).0;
            &&& sent.len() > 0
            &&& bind::is_laid_out_shortest(sent[0], parts, 0x60, (0x02, 0x04, 0x80))
            &&& crate::ber::complement(parts.id.contents) == 1
            &&& parts.first.whole == seq![0x02u8, 0x01, 0x03]
            &&& parts.second.contents == vstd::utf8::encode_utf8(
                dn_of(settings.template, claim.value),
            )
            &&& parts.third.contents == vstd::utf8::encode_utf8(claim.proofs[at].1)
        }),
{
    lemma_a_claim_is_bound_with_what_was_presented(settings, claim, at, directory);
    bind::lemma_a_bind_is_written_in_its_order(
        bind::Request {
            message_id: 1,
            name: dn_of(settings.template, claim.value),
            password: claim.proofs[at].1,
        },
    )
}

/// A claim that cannot be put to a directory is refused with the first of these
/// reasons that holds: it was read by a mechanism other than `username` and
/// `ldap`, which is named; it has no proof called `password`, and the username
/// is named; its username is empty; its password is empty.
pub proof fn lemma_a_claim_that_cannot_be_bound_is_told_why(claim: Claim, at: int)
    ensures
        claim.mechanism != "username"@ && claim.mechanism != "ldap"@ ==> credentials(claim) == Err::<
            (Seq<char>, Seq<char>),
            _,
        >(
            "'"@ + claim.mechanism
                + "' is not a claim the LDAP verifier reads: it takes a username"@,
        ),
        (claim.mechanism == "username"@ || claim.mechanism == "ldap"@) ==> {
            &&& (forall|i: int|
                0 <= i < claim.proofs.len() ==> (#[trigger] claim.proofs[i]).0 != "password"@)
                ==> credentials(claim) == Err::<(Seq<char>, Seq<char>), _>(
                "no '"@ + "password"@ + "' proof was presented with the username '"@ + claim.value
                    + "'"@,
            )
            &&& is_the_password(claim, at) && claim.value.len() == 0 ==> credentials(claim)
                == Err::<(Seq<char>, Seq<char>), _>("the username presented is empty"@)
            &&& is_the_password(claim, at) && claim.value.len() > 0 && claim.proofs[at].1.len()
                == 0 ==> credentials(claim) == Err::<(Seq<char>, Seq<char>), _>(
                "the password presented is empty, and a bind without one proves nothing"@,
            )
        },
{
    if is_the_password(claim, at) {
        claim::lemma_the_first_proof_of_a_name_is_taken(claim.proofs, "password"@, at);
    }
    if forall|i: int|
        0 <= i < claim.proofs.len() ==> (#[trigger] claim.proofs[i]).0 != "password"@ {
        claim::lemma_no_proof_of_another_name_is_taken(claim.proofs, "password"@);
    }
}

/// Code 0 proves a claim, codes 49 and 32 refuse it alike, and no other code
/// does either: it is an error that gives the code, its name and, whole, what
/// the directory has to say. Where there is no response, its reason is passed
/// on.
pub proof fn lemma_a_verdict_goes_by_the_code(response: Response, reason: Seq<char>)
    ensures
        ({
            let code = response.result_code;
            let result = verdict(Ok(response));
            let words = "the directory answered the bind with "@ + text::decimal_of(code as int)
                + " ("@ + bind::name_of(code) + ")"@;
            &&& code == 0 <==> result == Ok::<_, Seq<char>>(Verified::Proven)
            &&& code == 49 || code == 32 <==> result == Ok::<_, Seq<char>>(Verified::Refused)
            &&& code != 0 && code != 49 && code != 32 ==> result == Err::<Verified, _>(
                if response.diagnostic.len() == 0 {
                    words
                } else {
                    words + ": "@ + response.diagnostic
                },
            )
        }),
        verdict(Err(reason)) == Err::<Verified, _>(reason),
{
}

/// A template without `{username}` in it is refused by name, and one with it
/// has the escaped username there, at the first such place, and then in the rest
/// of the template likewise; the rest is as it was.
pub proof fn lemma_a_username_takes_its_place(
    template: Seq<char>,
    username: Seq<char>,
    at: int,
)
    requires
        0 <= at <= template.len(),
        forall|i: int|
            0 <= i < at && i + 10 <= template.len() ==> #[trigger] template.subrange(i, i + 10)
                != "{username}"@,
    ensures
        at + 10 <= template.len() && template.subrange(at, at + 10) == "{username}"@ ==> dn_of(
            template,
            username,
        ) == template.take(at) + dn::escaped(username) + dn_of(template.skip(at + 10), username),
        at + 10 > template.len() ==> dn_of(template, username) == template,
        no_place(template) == "the DN template '"@ + template + "' has no '"@ + "{username}"@
            + "' in it"@,
{
    reveal_strlit("{username}");
    text::lemma_replacing_goes_from_left_to_right(
        template,
        "{username}"@,
        dn::escaped(username),
        at,
    );
}

/// A bind is made at the directory and with the time of the settings, as the
/// name and with the password given, whatever they are.
pub proof fn lemma_a_bind_is_made_as_asked(
    settings: Settings,
    name: Seq<char>,
    password: Seq<char>,
)
    ensures
        binding_of(settings, name, password).endpoint == settings.endpoint,
        binding_of(settings, name, password).timeout == settings.timeout,
        binding_of(settings, name, password).name == name,
        binding_of(settings, name, password).password == password,
        binding_of(settings, name, password).stage is Resolving,
{
}

} // verus!
