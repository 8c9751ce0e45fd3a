use authenticate_ldap::bind::{unbind, INVALID_CREDENTIALS, NO_SUCH_OBJECT, SUCCESS};
use authenticate_ldap::claim::{Mechanism, Presented};
use authenticate_ldap::{
    default_timeout, escape, judge, Action, AuthenticateError, BindRequest, BindResponse, Event,
    Exchange, LdapAuthenticator, Step, Verified, DEFAULT_TIMEOUT_SECONDS, PLACEHOLDER, PROOF,
};
use std::time::Duration;

const TEMPLATE: &str = "uid={username},ou=people,dc=example,dc=org";

/// The far end: a directory that answers binds and keeps the DNs it was asked
/// about.
struct Directory {
    endpoint: String,
    seen: Vec<String>,
    wire: Vec<u8>,
    at: usize,
    elapsed: Duration,
    asked: i64,
}

fn answer(request: &BindRequest) -> BindResponse {
    let id = request.message_id;
    match (request.name.as_str(), request.password.as_str()) {
        ("uid=alice,ou=people,dc=example,dc=org", "pencil")
        | ("uid=Smith\\, John,ou=people,dc=example,dc=org", "pen") => {
            BindResponse::answering(id, SUCCESS)
        }
        ("uid=busy,ou=people,dc=example,dc=org", _) => {
            BindResponse::answering(id, 51).saying("try again later")
        }
        ("uid=ghost,ou=people,dc=example,dc=org", _) => {
            BindResponse::answering(id, NO_SUCH_OBJECT)
        }
        ("uid=crossed,ou=people,dc=example,dc=org", _) => {
            BindResponse::answering(id + 40, SUCCESS)
        }
        _ => BindResponse::answering(id, INVALID_CREDENTIALS).saying("80090308"),
    }
}

fn directory() -> Directory {
    Directory {
        endpoint: "127.0.0.1:389".to_string(),
        seen: Vec::new(),
        wire: Vec::new(),
        at: 0,
        elapsed: Duration::from_secs(0),
        asked: 0,
    }
}

impl Directory {
    fn authenticator(&self) -> LdapAuthenticator {
        LdapAuthenticator::new(&self.endpoint, TEMPLATE)
            .expect("a template")
            .with_timeout(Duration::from_secs(2))
    }

    fn perform(&mut self, action: Action) -> Event {
        match action {
            Action::Resolve => Event::Resolved(1),
            Action::Connect(at, timeout) => {
                assert_eq!(at, 0);
                assert_eq!(timeout, Duration::from_secs(2));
                Event::Done
            }
            Action::Prepare(timeout) => {
                assert_eq!(timeout, Duration::from_secs(2));
                Event::Done
            }
            Action::Send(wire) => {
                let request = BindRequest::decode(&wire).expect("a bind");
                self.seen.push(request.name.clone());
                self.asked = request.message_id;
                self.wire = answer(&request).encode();
                self.at = 0;
                self.elapsed = Duration::from_secs(0);
                Event::Done
            }
            Action::Receive(count, time) => {
                assert_eq!(time, Duration::from_secs(2) - self.elapsed);
                let from = self.at;
                self.at += count;
                self.elapsed += Duration::from_millis(3);
                Event::Received(self.wire[from..self.at].to_vec(), self.elapsed)
            }
            Action::Part(farewell) => {
                // The client reads the answer whole and unbinds before it closes.
                assert_eq!(self.at, self.wire.len());
                assert_eq!(farewell, unbind(self.asked + 1));
                Event::Done
            }
        }
    }

    fn run(&mut self, exchange: Exchange) -> Result<BindResponse, AuthenticateError> {
        let mut exchange = exchange;
        loop {
            let event = self.perform(exchange.action());
            match exchange.step(event) {
                Step::Ongoing(next) => exchange = next,
                Step::Over(result) => return result,
            }
        }
    }

    fn verify(
        &mut self,
        verifier: &LdapAuthenticator,
        presented: &Presented,
    ) -> Result<Verified, AuthenticateError> {
        let exchange = verifier.verify(presented)?;
        judge(self.run(exchange))
    }
}

fn claim(username: &str, password: &str) -> Presented {
    Presented::passed(Mechanism::username(), username).with_proof(PROOF, password)
}

fn refusal<T>(result: Result<T, AuthenticateError>) -> AuthenticateError {
    match result {
        Ok(_) => panic!("refused"),
        Err(error) => error,
    }
}

#[test]
fn a_bind_the_directory_takes_proves_the_username() {
    let mut directory = directory();
    let verifier = directory.authenticator();
    assert_eq!(
        directory
            .verify(&verifier, &claim("alice", "pencil"))
            .expect("verified"),
        Verified::Proven
    );
    // A claim already filed under this mechanism reads too.
    let filed = Presented::passed(Mechanism::ldap(), "alice").with_proof(PROOF, "pencil");
    assert_eq!(
        directory.verify(&verifier, &filed).expect("verified"),
        Verified::Proven
    );
    assert_eq!(verifier.mechanism().name(), "ldap");
    assert_eq!(verifier.endpoint(), directory.endpoint);
    assert_eq!(
        directory.seen,
        ["uid=alice,ou=people,dc=example,dc=org"; 2]
    );
}

#[test]
fn a_wrong_password_and_an_entry_the_directory_lacks_are_refused_alike() {
    let mut directory = directory();
    let verifier = directory.authenticator();
    assert_eq!(
        directory
            .verify(&verifier, &claim("alice", "pen"))
            .expect("verified"),
        Verified::Refused
    );
    assert_eq!(
        directory
            .verify(&verifier, &claim("ghost", "pencil"))
            .expect("verified"),
        Verified::Refused
    );
}

#[test]
fn a_name_cannot_reach_outside_its_place_in_the_dn() {
    assert_eq!(escape("Smith, John"), "Smith\\, John");
    assert_eq!(escape(" #a=b+c "), "\\ #a\\=b\\+c\\ ");
    assert_eq!(escape("#lead"), "\\#lead");
    assert_eq!(escape("a\0<b>;\"\\"), "a\\00\\<b\\>\\;\\\"\\\\");

    let mut directory = directory();
    let verifier = directory.authenticator();
    assert_eq!(
        directory
            .verify(&verifier, &claim("Smith, John", "pen"))
            .expect("verified"),
        Verified::Proven
    );
    // An injected DN binds as nobody the directory knows.
    let injected = "alice,ou=people,dc=example,dc=org";
    assert_eq!(
        directory
            .verify(&verifier, &claim(injected, "pencil"))
            .expect("verified"),
        Verified::Refused
    );
    assert_eq!(
        directory.seen[1],
        "uid=alice\\,ou\\=people\\,dc\\=example\\,dc\\=org,ou=people,dc=example,dc=org"
    );
}

#[test]
fn what_the_directory_says_beyond_yes_and_no_is_the_reason() {
    let mut directory = directory();
    let verifier = directory.authenticator();
    let busy = directory
        .verify(&verifier, &claim("busy", "pencil"))
        .expect_err("refused");
    assert_eq!(
        busy.message,
        "the directory answered the bind with 51 (busy): try again later"
    );
    let crossed = directory
        .verify(&verifier, &claim("crossed", "pencil"))
        .expect_err("refused");
    assert!(
        crossed.message.contains("answered message 41"),
        "{}",
        crossed.message
    );
    assert_eq!(
        crossed.message,
        "the directory answered message 41 and the bind was message 1"
    );
}

#[test]
fn an_empty_password_is_never_sent_and_a_missing_one_is_asked_for_by_name() {
    // No directory stands here: nothing may be sent for either claim.
    let verifier = LdapAuthenticator::new("127.0.0.1:9", TEMPLATE).expect("a template");
    let empty = refusal(verifier.verify(&claim("alice", "")));
    assert!(
        empty.message.contains("proves nothing"),
        "{}",
        empty.message
    );
    let bare = Presented::passed(Mechanism::username(), "alice");
    let missing = refusal(verifier.verify(&bare));
    assert!(
        missing.message.contains("'password' proof"),
        "{}",
        missing.message
    );
    let key = Presented::passed(Mechanism::named("api-key"), "k-1").with_proof("api-key", "s");
    let other = refusal(verifier.verify(&key));
    assert!(other.message.contains("'api-key'"), "{}", other.message);
}

#[test]
fn a_directory_that_is_not_there_and_a_template_without_a_name_say_so() {
    let verifier = LdapAuthenticator::new("127.0.0.1:65000", TEMPLATE)
        .expect("a template")
        .with_timeout(Duration::from_millis(500));
    let exchange = verifier
        .verify(&claim("alice", "pencil"))
        .ok()
        .expect("an exchange");
    let exchange = ongoing(exchange.step(Event::Resolved(1)));
    let failure = refusal(judge(over(exchange.step(failed("Connection refused")))));
    assert!(
        failure.message.contains("cannot be reached"),
        "{}",
        failure.message
    );

    let fixed = LdapAuthenticator::new("127.0.0.1:389", "cn=admin,dc=example,dc=org")
        .expect_err("refused");
    assert!(fixed.message.contains("'{username}'"), "{}", fixed.message);
    assert_eq!(
        fixed.message,
        "the DN template 'cn=admin,dc=example,dc=org' has no '{username}' in it"
    );
}

#[test]
fn every_claim_that_cannot_be_put_to_a_directory_is_told_why() {
    let verifier = directory().authenticator();
    let bare = Presented::passed(Mechanism::username(), "alice").with_proof("pin", "1");
    assert_eq!(
        refusal(verifier.verify(&bare)).message,
        "no 'password' proof was presented with the username 'alice'"
    );
    assert_eq!(
        refusal(verifier.verify(&claim("", "pencil"))).message,
        "the username presented is empty"
    );
    assert_eq!(
        refusal(verifier.verify(&claim("", ""))).message,
        "the username presented is empty"
    );
    assert_eq!(
        refusal(verifier.verify(&claim("alice", ""))).message,
        "the password presented is empty, and a bind without one proves nothing"
    );
    let key = Presented::passed(Mechanism::named("api-key"), "k-1").with_proof(PROOF, "s");
    assert_eq!(
        refusal(verifier.verify(&key)).message,
        "'api-key' is not a claim the LDAP verifier reads: it takes a username"
    );
}

#[test]
fn a_proof_is_found_by_its_name() {
    let presented = Presented::passed(Mechanism::username(), "alice")
        .with_proof("pin", "1")
        .with_proof(PROOF, "pencil");
    assert_eq!(presented.proof_of("pin"), Some("1"));
    assert_eq!(presented.proof_of(PROOF), Some("pencil"));
    assert_eq!(presented.proof_of("pass"), None);
}

#[test]
fn an_authenticator_keeps_what_it_is_configured_with() {
    let verifier = LdapAuthenticator::new("directory:389", TEMPLATE).expect("a template");
    assert_eq!(verifier.endpoint(), "directory:389");
    assert_eq!(DEFAULT_TIMEOUT_SECONDS, 5);
    assert_eq!(verifier.timeout(), Duration::from_secs(5));
    assert_eq!(default_timeout(), Duration::from_secs(5));
    let patient = verifier.clone().with_timeout(Duration::from_millis(7));
    assert_eq!(patient.timeout(), Duration::from_millis(7));
    assert_eq!(patient.endpoint(), "directory:389");
    assert_eq!(
        patient.distinguished_name("alice"),
        "uid=alice,ou=people,dc=example,dc=org"
    );
    assert_eq!(verifier.timeout(), Duration::from_secs(5));
}

#[test]
fn a_username_takes_every_place_and_is_not_searched_for_more() {
    let verifier =
        LdapAuthenticator::new("directory:389", "cn={username},uid={username}").expect("a template");
    assert_eq!(verifier.distinguished_name("a b"), "cn=a b,uid=a b");
    assert_eq!(
        verifier.distinguished_name(PLACEHOLDER),
        "cn={username},uid={username}"
    );
    assert_eq!(verifier.distinguished_name(""), "cn=,uid=");
    assert_ne!(
        verifier.distinguished_name("a,b"),
        verifier.distinguished_name("a\\,b")
    );
}

#[test]
fn spaces_and_number_signs_are_escaped_only_at_the_edges() {
    assert_eq!(escape(""), "");
    assert_eq!(escape(" "), "\\ ");
    assert_eq!(escape("  "), "\\ \\ ");
    assert_eq!(escape("a b # c"), "a b # c");
    assert_eq!(escape("#"), "\\#");
    assert_eq!(escape("a#"), "a#");
    assert_eq!(escape("\u{e9} \u{20ac} "), "\u{e9} \u{20ac}\\ ");
}

fn ongoing(step: Step) -> Exchange {
    match step {
        Step::Ongoing(exchange) => exchange,
        Step::Over(_) => panic!("on its way"),
    }
}

fn over(step: Step) -> Result<BindResponse, AuthenticateError> {
    match step {
        Step::Ongoing(_) => panic!("over"),
        Step::Over(result) => result,
    }
}

fn failed(reason: &str) -> Event {
    Event::Failed(reason.to_string())
}

fn received(bytes: &[u8], millis: u64) -> Event {
    Event::Received(bytes.to_vec(), Duration::from_millis(millis))
}

fn begun() -> Exchange {
    directory().authenticator().bind("cn=a", "pw")
}

fn receiving() -> Exchange {
    let exchange = ongoing(begun().step(Event::Resolved(1)));
    let exchange = ongoing(exchange.step(Event::Done));
    let exchange = ongoing(exchange.step(Event::Done));
    ongoing(exchange.step(Event::Done))
}

#[test]
fn the_first_address_that_answers_is_taken() {
    let exchange = begun();
    assert!(matches!(exchange.action(), Action::Resolve));
    let exchange = ongoing(exchange.step(Event::Resolved(3)));
    assert!(matches!(exchange.action(), Action::Connect(0, _)));
    let exchange = ongoing(exchange.step(failed("refused")));
    assert!(matches!(exchange.action(), Action::Connect(1, _)));
    let exchange = ongoing(exchange.step(Event::Done));
    assert!(matches!(exchange.action(), Action::Prepare(_)));
    let exchange = ongoing(exchange.step(Event::Done));
    match exchange.action() {
        Action::Send(wire) => {
            let request = BindRequest::decode(&wire).expect("a bind");
            assert_eq!(request.message_id, 1);
            assert_eq!(request.name, "cn=a");
            assert_eq!(request.password, "pw");
        }
        _ => panic!("the request"),
    }
    let exchange = ongoing(exchange.step(Event::Done));
    assert!(matches!(exchange.action(), Action::Receive(2, _)));
}

#[test]
fn the_configured_time_is_given_to_connect_and_again_to_answer() {
    for (authenticator, time) in [
        (
            LdapAuthenticator::new("directory:389", TEMPLATE).expect("a template"),
            Duration::from_secs(5),
        ),
        (
            LdapAuthenticator::new("directory:389", TEMPLATE)
                .expect("a template")
                .with_timeout(Duration::from_millis(7)),
            Duration::from_millis(7),
        ),
    ] {
        let exchange = ongoing(authenticator.bind("cn=a", "pw").step(Event::Resolved(2)));
        assert!(matches!(exchange.action(), Action::Connect(0, given) if given == time));
        let exchange = ongoing(exchange.step(failed("refused")));
        assert!(matches!(exchange.action(), Action::Connect(1, given) if given == time));
        let exchange = ongoing(exchange.step(Event::Done));
        assert!(matches!(exchange.action(), Action::Prepare(given) if given == time));
        let exchange = ongoing(exchange.step(Event::Done));
        let exchange = ongoing(exchange.step(Event::Done));
        assert!(matches!(exchange.action(), Action::Receive(2, given) if given == time));
    }
}

#[test]
fn each_receive_is_given_what_is_left_of_the_time_to_answer() {
    let left = |exchange: &Exchange| match exchange.action() {
        Action::Receive(_, time) => time,
        _ => panic!("a receive"),
    };
    let exchange = receiving();
    assert_eq!(left(&exchange), Duration::from_millis(2000));
    let exchange = ongoing(exchange.step(received(&[0x30], 700)));
    assert_eq!(left(&exchange), Duration::from_millis(1300));
    // A receive that brings nothing takes time all the same.
    let exchange = ongoing(exchange.step(received(&[], 1500)));
    assert!(matches!(exchange.action(), Action::Receive(1, _)));
    assert_eq!(left(&exchange), Duration::from_millis(500));
    let exchange = ongoing(exchange.step(received(&[0x0c], 1999)));
    assert!(matches!(exchange.action(), Action::Receive(12, _)));
    assert_eq!(left(&exchange), Duration::from_millis(1));
}

#[test]
fn an_answer_that_is_not_whole_in_time_is_an_error_however_it_trickles_in() {
    let wire = BindResponse::answering(1, SUCCESS).encode();
    // One byte every 200 ms: each sooner than the time after the one before.
    let mut exchange = receiving();
    let mut millis = 0;
    let mut late = None;
    for byte in &wire {
        millis += 200;
        match exchange.step(received(&[*byte], millis)) {
            Step::Ongoing(next) => exchange = next,
            Step::Over(result) => {
                late = Some(refusal(result).message);
                break;
            }
        }
    }
    assert_eq!(millis, 2000);
    assert_eq!(
        late.as_deref(),
        Some("the directory's answer: it did not come in time")
    );
    // The same answer, all of it, a millisecond before and when the time is
    // used up.
    let exchange = ongoing(receiving().step(received(&wire, 1999)));
    assert!(matches!(exchange.action(), Action::Part(_)));
    assert_eq!(
        refusal(over(receiving().step(received(&wire, 2000)))).message,
        "the directory's answer: it did not come in time"
    );
    assert_eq!(
        refusal(over(receiving().step(received(&[], 2001)))).message,
        "the directory's answer: it did not come in time"
    );
}

#[test]
fn no_time_to_answer_is_no_answer() {
    let authenticator = directory()
        .authenticator()
        .with_timeout(Duration::from_secs(0));
    let exchange = ongoing(authenticator.bind("cn=a", "pw").step(Event::Resolved(1)));
    let exchange = ongoing(exchange.step(Event::Done));
    let exchange = ongoing(exchange.step(Event::Done));
    assert_eq!(
        refusal(over(exchange.step(Event::Done))).message,
        "the directory's answer: it did not come in time"
    );
}

#[test]
fn a_username_with_more_of_its_value_after_it_stays_in_its_place() {
    let authenticator =
        LdapAuthenticator::new("directory:389", "mail={username}@example.org,dc=x")
            .expect("a template");
    assert_eq!(
        authenticator.distinguished_name("a,dc=y\\"),
        "mail=a\\,dc\\=y\\\\@example.org,dc=x"
    );
    assert_eq!(
        authenticator.distinguished_name("\0"),
        "mail=\\00@example.org,dc=x"
    );
}

#[test]
fn a_directory_that_cannot_be_reached_says_at_which_step() {
    let message = |result| refusal::<BindResponse>(result).message;
    assert_eq!(
        message(over(begun().step(failed("no such host")))),
        "the directory at '127.0.0.1:389' cannot be reached: no such host"
    );
    assert_eq!(
        message(over(begun().step(Event::Resolved(0)))),
        "the directory at '127.0.0.1:389' cannot be reached: the name resolves to no address"
    );
    let exchange = ongoing(begun().step(Event::Resolved(2)));
    let exchange = ongoing(exchange.step(failed("the first")));
    assert_eq!(
        message(over(exchange.step(failed("the last")))),
        "the directory at '127.0.0.1:389' cannot be reached: the last"
    );
    let exchange = ongoing(ongoing(begun().step(Event::Resolved(1))).step(Event::Done));
    assert_eq!(
        message(over(exchange.step(failed("timeouts")))),
        "the directory at '127.0.0.1:389' cannot be reached: timeouts"
    );
    let exchange = ongoing(ongoing(begun().step(Event::Resolved(1))).step(Event::Done));
    let exchange = ongoing(exchange.step(Event::Done));
    assert_eq!(
        message(over(exchange.step(failed("broken pipe")))),
        "the directory at '127.0.0.1:389' cannot be reached: broken pipe"
    );
    assert_eq!(
        message(over(receiving().step(failed("timed out")))),
        "the directory's answer: timed out"
    );
    assert_eq!(
        message(over(receiving().step(Event::Ended))),
        "the directory's answer: the stream ended within an element"
    );
    assert_eq!(
        message(over(receiving().step(received(&[0x30, 0x80], 0)))),
        "the directory's answer: an element's length is not definite"
    );
    let large = ongoing(receiving().step(received(&[0x30, 0x84], 0)));
    assert!(matches!(large.action(), Action::Receive(4, _)));
    assert_eq!(
        message(over(large.step(received(&[0x7f, 0xff, 0xff, 0xff], 0)))),
        "the directory's answer: the element is larger than the 65536 bytes this reads"
    );
    assert_eq!(
        message(over(receiving().step(received(&unbind(1), 0)))),
        "an element tagged 0x42 stands where one tagged 0x61 belongs"
    );
}

#[test]
fn a_response_is_what_the_bind_comes_to_even_if_the_unbind_fails() {
    let response = BindResponse::answering(1, 53).saying("not today");
    let wire = response.encode();
    let mut exchange = receiving();
    for byte in wire {
        assert!(matches!(exchange.action(), Action::Receive(_, _)));
        exchange = ongoing(exchange.step(received(&[byte], 1)));
    }
    match exchange.action() {
        Action::Part(wire) => assert_eq!(wire, unbind(2)),
        _ => panic!("the unbind"),
    }
    assert_eq!(
        over(exchange.step(failed("hung up"))).expect("a response"),
        response
    );
}

#[test]
fn a_verdict_goes_by_the_result_code_alone() {
    assert_eq!(
        judge(Ok(BindResponse::answering(1, 0).saying("welcome"))).expect("verified"),
        Verified::Proven
    );
    assert_eq!(
        judge(Ok(BindResponse::answering(1, 49).saying("52e"))).expect("verified"),
        Verified::Refused
    );
    assert_eq!(
        judge(Ok(BindResponse::answering(1, 32))).expect("verified"),
        Verified::Refused
    );
    assert_eq!(
        refusal(judge(Ok(BindResponse::answering(1, -3)))).message,
        "the directory answered the bind with -3 (a result code RFC 4511 does not name for a bind)"
    );
    let lost = AuthenticateError::new("lost".to_string());
    assert_eq!(refusal(judge(Err(lost.clone()))), lost);
}
