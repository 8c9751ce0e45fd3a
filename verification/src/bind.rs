//! The bind: RFC 4511 section 4.2's request and response, and nothing else
//! of LDAP.
//!
//! ```text
//! LDAPMessage  ::= SEQUENCE { messageID INTEGER, protocolOp CHOICE { ... } }
//! BindRequest  ::= [APPLICATION 0] SEQUENCE { version INTEGER (3),
//!                    name LDAPDN, authentication CHOICE { simple [0] OCTET STRING } }
//! BindResponse ::= [APPLICATION 1] SEQUENCE { resultCode ENUMERATED,
//!                    matchedDN LDAPDN, diagnosticMessage LDAPString, ... }
//! ```
//!
//! Both directions of both messages are here, because the far end a test
//! stands up reads the request and writes the response.

use crate::ber;
use crate::ber::{append, expect, integer, read_integer, tlv, ENUMERATED, INTEGER, OCTET_STRING, SEQUENCE};
use crate::claim::AuthenticateError;
use crate::text::decimal;
use vstd::prelude::*;

pub use crate::ber::LARGEST;

verus! {

/// `[APPLICATION 0]`, constructed: a `BindRequest`.
pub const BIND_REQUEST: u8 = 0x60;

/// `[APPLICATION 1]`, constructed: a `BindResponse`.
pub const BIND_RESPONSE: u8 = 0x61;

/// `[APPLICATION 2]`, primitive: an `UnbindRequest`.
pub const UNBIND_REQUEST: u8 = 0x42;

/// `[0]`, primitive: the simple authentication choice, a password.
pub const SIMPLE: u8 = 0x80;

/// The protocol version a bind asks for.
pub const VERSION: i64 = 3;

/// `success`: the bind held.
pub const SUCCESS: i64 = 0;

/// `noSuchObject`: the directory holds no such entry.
pub const NO_SUCH_OBJECT: i64 = 32;

/// `invalidCredentials`: the name or the password is wrong.
pub const INVALID_CREDENTIALS: i64 = 49;

/// One whole `LDAPMessage` off a stream, tag and length included.
///
/// # Errors
///
/// The stream ends first, or the message's length is not definite, or the
/// message is larger than [`LARGEST`].
pub fn read_message(stream: &mut &[u8]) -> (result: Result<Vec<u8>, AuthenticateError>)
    ensures
        final(stream)@ == ber::first_element(old(stream)@, ber::ended()).1,
        match (result, ber::first_element(old(stream)@, ber::ended()).0) {
            (Ok(message), Ok(expected)) => message@ == expected,
            (Err(error), Err(message)) => error.message@ == ber::in_the_answer(message),
            _ => false,
        },
{
    ber::read_element(stream)
}

/// The `LDAPMessage` that carries `operation` under `message_id`.
pub open spec fn message_of(message_id: int, operation: Seq<u8>) -> Seq<u8> {
    ber::tlv_of(SEQUENCE, ber::integer_of(INTEGER, message_id) + operation)
}

fn message(message_id: i64, operation: Vec<u8>) -> (out: Vec<u8>)
    ensures
        out@ == message_of(message_id as int, operation@),
{
    let mut contents = integer(INTEGER, message_id);
    append(&mut contents, operation.as_slice());
    tlv(SEQUENCE, contents.as_slice())
}

/// The `UnbindRequest` under `message_id`.
pub open spec fn unbind_of(message_id: int) -> Seq<u8> {
    message_of(message_id, ber::tlv_of(UNBIND_REQUEST, Seq::empty()))
}

/// An `UnbindRequest` under `message_id`: `[APPLICATION 2]` NULL, which a
/// client sends before it closes and a directory does not answer.
#[must_use]
pub fn unbind(message_id: i64) -> (out: Vec<u8>)
    ensures
        out@ == unbind_of(message_id as int),
{
    let nothing: Vec<u8> = Vec::new();
    message(message_id, tlv(UNBIND_REQUEST, nothing.as_slice()))
}

/// What RFC 4511 appendix A calls a result code, for the ones a bind meets.
pub open spec fn name_of(code: i64) -> Seq<char> {
    match code {
        0 => "success"@,
        1 => "operationsError"@,
        2 => "protocolError"@,
        7 => "authMethodNotSupported"@,
        8 => "strongerAuthRequired"@,
        13 => "confidentialityRequired"@,
        32 => "noSuchObject"@,
        34 => "invalidDNSyntax"@,
        48 => "inappropriateAuthentication"@,
        49 => "invalidCredentials"@,
        50 => "insufficientAccessRights"@,
        51 => "busy"@,
        52 => "unavailable"@,
        53 => "unwillingToPerform"@,
        80 => "other"@,
        _ => "a result code RFC 4511 does not name for a bind"@,
    }
}

/// What RFC 4511 appendix A calls a result code, for the ones a bind meets.
#[must_use]
pub fn result_name(code: i64) -> (name: &'static str)
    ensures
        name@ == name_of(code),
{
    match code {
        0 => "success",
        1 => "operationsError",
        2 => "protocolError",
        7 => "authMethodNotSupported",
        8 => "strongerAuthRequired",
        13 => "confidentialityRequired",
        32 => "noSuchObject",
        34 => "invalidDNSyntax",
        48 => "inappropriateAuthentication",
        49 => "invalidCredentials",
        50 => "insufficientAccessRights",
        51 => "busy",
        52 => "unavailable",
        53 => "unwillingToPerform",
        80 => "other",
        _ => "a result code RFC 4511 does not name for a bind",
    }
}

/// `String::from_utf8`: the string that `bytes` encode, where they are valid
/// UTF-8, and an error where they are not.
#[verifier::external_body]
fn utf8(bytes: Vec<u8>) -> (result: Option<String>)
    ensures
        result is Some <==> vstd::utf8::valid_utf8(bytes@),
        result matches Some(string) ==> string@ == vstd::utf8::decode_utf8(bytes@),
{
    String::from_utf8(bytes).ok()
}

/// What is said where the bind's `what` is not UTF-8.
pub open spec fn not_utf8(what: Seq<char>) -> Seq<char> {
    "the bind's "@ + what + " is not UTF-8"@
}

/// The text that `contents` encode, for the bind's `what`.
pub open spec fn text_in(contents: Seq<u8>, what: Seq<char>) -> Result<Seq<char>, Seq<char>> {
    if vstd::utf8::valid_utf8(contents) {
        Ok(vstd::utf8::decode_utf8(contents))
    } else {
        Err(not_utf8(what))
    }
}

fn text(contents: &[u8], what: &str) -> (result: Result<String, AuthenticateError>)
    ensures
        match (result, text_in(contents@, what@)) {
            (Ok(string), Ok(expected)) => string@ == expected,
            (Err(error), Err(message)) => error.message@ == message,
            _ => false,
        },
{
    match utf8(vstd::slice::slice_to_vec(contents)) {
        Some(string) => Ok(string),
        None => {
            let mut message = "the bind's ".to_owned();
            message.append(what);
            message.append(" is not UTF-8");
            Err(AuthenticateError::new(message))
        },
    }
}

/// The envelope: the message id, then the contents of the operation under
/// `operation`.
pub open spec fn opened(message: Seq<u8>, operation: u8) -> Result<(i64, Seq<u8>), Seq<char>> {
    match ber::expected_of(message, SEQUENCE) {
        Err(message) => Err(message),
        Ok((envelope, _)) => match ber::expected_of(envelope, INTEGER) {
            Err(message) => Err(message),
            Ok((id, rest)) => match ber::expected_of(rest, operation) {
                Err(message) => Err(message),
                Ok((body, _)) => match ber::integer_in(id) {
                    Err(message) => Err(message),
                    Ok(id) => Ok((id, body)),
                },
            },
        },
    }
}

/// The envelope: the message id, then the operation under `operation`.
fn open<'a>(message: &'a [u8], operation: u8) -> (result: Result<
    (i64, &'a [u8]),
    AuthenticateError,
>)
    ensures
        match (result, opened(message@, operation)) {
            (Ok((id, body)), Ok(expected)) => (id, body@) == expected,
            (Err(error), Err(message)) => error.message@ == message,
            _ => false,
        },
{
    let (envelope, _) = expect(message, SEQUENCE)?;
    let (id, rest) = expect(envelope, INTEGER)?;
    let (body, _) = expect(rest, operation)?;
    Ok((read_integer(id)?, body))
}

/// What a simple bind holds.
pub struct Request {
    /// The id the response must echo.
    pub message_id: i64,
    /// The DN binding.
    pub name: Seq<char>,
    /// The password.
    pub password: Seq<char>,
}

/// The contents of a `BindRequest` for `name` with `password`.
pub open spec fn bind_body(name: Seq<char>, password: Seq<char>) -> Seq<u8> {
    ber::integer_of(INTEGER, VERSION as int) + ber::tlv_of(
        OCTET_STRING,
        vstd::utf8::encode_utf8(name),
    ) + ber::tlv_of(SIMPLE, vstd::utf8::encode_utf8(password))
}

/// The `LDAPMessage` that carries `request`.
pub open spec fn request_bytes(request: Request) -> Seq<u8> {
    message_of(
        request.message_id as int,
        ber::tlv_of(BIND_REQUEST, bind_body(request.name, request.password)),
    )
}

/// What is said of a bind for another version of LDAP.
pub open spec fn other_version(version: i64) -> Seq<char> {
    "the bind asks for LDAP version "@ + crate::text::decimal_of(version as int)
        + " and this speaks "@ + crate::text::decimal_of(VERSION as int)
}

/// The simple bind that `message` carries, or what is said where it carries
/// none.
pub open spec fn request_in(message: Seq<u8>) -> Result<Request, Seq<char>> {
    match opened(message, BIND_REQUEST) {
        Err(message) => Err(message),
        Ok((message_id, body)) => bind_in(message_id, body),
    }
}

/// The bind under `message_id` that the contents of a `BindRequest` hold.
pub open spec fn bind_in(message_id: i64, body: Seq<u8>) -> Result<Request, Seq<char>> {
    match ber::expected_of(body, INTEGER) {
        Err(message) => Err(message),
        Ok((version, rest)) => match ber::integer_in(version) {
            Err(message) => Err(message),
            Ok(version) => if version != VERSION {
                Err(other_version(version))
            } else {
                credentials_in(message_id, rest)
            },
        },
    }
}

/// The name and the password that follow the version of a bind.
pub open spec fn credentials_in(message_id: i64, rest: Seq<u8>) -> Result<Request, Seq<char>> {
    match ber::expected_of(rest, OCTET_STRING) {
        Err(message) => Err(message),
        Ok((name, rest)) => match ber::expected_of(rest, SIMPLE) {
            Err(message) => Err(message),
            Ok((password, _)) => match (text_in(name, "name"@), text_in(password, "password"@)) {
                (Err(message), _) => Err(message),
                (_, Err(message)) => Err(message),
                (Ok(name), Ok(password)) => Ok(Request { message_id, name, password }),
            },
        },
    }
}

/// `{:?}` of a string: how `std` shows it, in quotes and with what cannot be
/// shown escaped.
pub uninterp spec fn quoted(string: Seq<char>) -> Seq<char>;

/// The `Debug` of `str`: its result depends on the string alone and is called
/// [`quoted`].
#[verifier::external_body]
fn quote(string: &str) -> (out: String)
    ensures
        out@ == quoted(string@),
{
    format!("{string:?}")
}

/// A simple bind: a DN and its password.
#[derive(PartialEq, Eq)]
pub struct BindRequest {
    /// The id the response must echo.
    pub message_id: i64,
    /// The DN binding.
    pub name: String,
    /// The password, in the clear as a simple bind carries it.
    pub password: String,
}

impl Clone for BindRequest {
    fn clone(&self) -> (copy: Self)
        ensures
            copy == *self,
    {
        BindRequest {
            message_id: self.message_id,
            name: self.name.clone(),
            password: self.password.clone(),
        }
    }
}

impl View for BindRequest {
    type V = Request;

    open spec fn view(&self) -> Request {
        Request { message_id: self.message_id, name: self.name@, password: self.password@ }
    }
}

/// How a bind under `message_id` for `name` is shown.
pub open spec fn shown(message_id: i64, name: Seq<char>) -> Seq<char> {
    "BindRequest { message_id: "@ + crate::text::decimal_of(message_id as int) + ", name: "@
        + quoted(name) + ", .. }"@
}

impl BindRequest {
    /// The bind in words for a log. The password is not in it.
    #[must_use]
    pub fn show(&self) -> (out: String)
        ensures
            out@ == shown(self@.message_id, self@.name),
    {
        let mut out = "BindRequest { message_id: ".to_owned();
        out.append(decimal(self.message_id).as_str());
        out.append(", name: ");
        out.append(quote(self.name.as_str()).as_str());
        out.append(", .. }");
        out
    }

    /// The `LDAPMessage` carrying this bind.
    #[must_use]
    pub fn encode(&self) -> (out: Vec<u8>)
        ensures
            out@ == request_bytes(self@),
    {
        let mut bind = integer(INTEGER, VERSION);
        append(&mut bind, tlv(OCTET_STRING, self.name.as_str().as_bytes()).as_slice());
        append(&mut bind, tlv(SIMPLE, self.password.as_str().as_bytes()).as_slice());
        message(self.message_id, tlv(BIND_REQUEST, bind.as_slice()))
    }

    /// Read an `LDAPMessage` as a simple bind, as a directory does.
    ///
    /// # Errors
    ///
    /// Not a bind request, not version 3, or not a simple bind.
    pub fn decode(message: &[u8]) -> (result: Result<Self, AuthenticateError>)
        ensures
            match (result, request_in(message@)) {
                (Ok(request), Ok(expected)) => request@ == expected,
                (Err(error), Err(message)) => error.message@ == message,
                _ => false,
            },
    {
        let (message_id, body) = open(message, BIND_REQUEST)?;
        let (version, rest) = expect(body, INTEGER)?;
        let version = read_integer(version)?;
        if version != VERSION {
            let mut message = "the bind asks for LDAP version ".to_owned();
            message.append(decimal(version).as_str());
            message.append(" and this speaks ");
            message.append(decimal(VERSION).as_str());
            return Err(AuthenticateError::new(message));
        }
        let (name, rest) = expect(rest, OCTET_STRING)?;
        let (password, _) = expect(rest, SIMPLE)?;
        let name = text(name, "name")?;
        let password = text(password, "password")?;
        Ok(BindRequest { message_id, name, password })
    }
}

/// What an answer to a bind holds.
pub struct Response {
    /// The id of the request this answers.
    pub message_id: i64,
    /// The result code.
    pub result_code: i64,
    /// The part of the DN the directory did find.
    pub matched_dn: Seq<char>,
    /// What the directory has to say about it.
    pub diagnostic: Seq<char>,
}

/// The contents of a `BindResponse`.
pub open spec fn result_body(
    result_code: i64,
    matched_dn: Seq<char>,
    diagnostic: Seq<char>,
) -> Seq<u8> {
    ber::integer_of(ENUMERATED, result_code as int) + ber::tlv_of(
        OCTET_STRING,
        vstd::utf8::encode_utf8(matched_dn),
    ) + ber::tlv_of(OCTET_STRING, vstd::utf8::encode_utf8(diagnostic))
}

/// The `LDAPMessage` that carries `response`.
pub open spec fn response_bytes(response: Response) -> Seq<u8> {
    message_of(
        response.message_id as int,
        ber::tlv_of(
            BIND_RESPONSE,
            result_body(response.result_code, response.matched_dn, response.diagnostic),
        ),
    )
}

/// The answer to a bind that `message` carries, or what is said where it
/// carries none.
pub open spec fn response_in(message: Seq<u8>) -> Result<Response, Seq<char>> {
    match opened(message, BIND_RESPONSE) {
        Err(message) => Err(message),
        Ok((message_id, body)) => answer_in(message_id, body),
    }
}

/// The answer to the bind under `message_id` that the contents of a
/// `BindResponse` hold.
pub open spec fn answer_in(message_id: i64, body: Seq<u8>) -> Result<Response, Seq<char>> {
    match ber::expected_of(body, ENUMERATED) {
        Err(message) => Err(message),
        Ok((code, rest)) => match ber::expected_of(rest, OCTET_STRING) {
            Err(message) => Err(message),
            Ok((matched_dn, rest)) => match ber::expected_of(rest, OCTET_STRING) {
                Err(message) => Err(message),
                Ok((diagnostic, _)) => result_in(message_id, code, matched_dn, diagnostic),
            },
        },
    }
}

/// The answer whose code, matched DN and diagnostic message have these
/// contents.
pub open spec fn result_in(
    message_id: i64,
    code: Seq<u8>,
    matched_dn: Seq<u8>,
    diagnostic: Seq<u8>,
) -> Result<Response, Seq<char>> {
    match (
        ber::integer_in(code),
        text_in(matched_dn, "matched DN"@),
        text_in(diagnostic, "diagnostic message"@),
    ) {
        (Err(message), _, _) => Err(message),
        (_, Err(message), _) => Err(message),
        (_, _, Err(message)) => Err(message),
        (Ok(result_code), Ok(matched_dn), Ok(diagnostic)) => Ok(
            Response { message_id, result_code, matched_dn, diagnostic },
        ),
    }
}

/// What the directory made of a bind.
#[derive(Debug, PartialEq, Eq)]
pub struct BindResponse {
    /// The id of the request this answers.
    pub message_id: i64,
    /// RFC 4511's result code: [`SUCCESS`], [`INVALID_CREDENTIALS`], the rest.
    pub result_code: i64,
    /// The part of the DN the directory did find, usually empty.
    pub matched_dn: String,
    /// What the directory has to say about it, usually empty.
    pub diagnostic: String,
}

impl Clone for BindResponse {
    fn clone(&self) -> (copy: Self)
        ensures
            copy == *self,
    {
        BindResponse {
            message_id: self.message_id,
            result_code: self.result_code,
            matched_dn: self.matched_dn.clone(),
            diagnostic: self.diagnostic.clone(),
        }
    }
}

impl View for BindResponse {
    type V = Response;

    open spec fn view(&self) -> Response {
        Response {
            message_id: self.message_id,
            result_code: self.result_code,
            matched_dn: self.matched_dn@,
            diagnostic: self.diagnostic@,
        }
    }
}

impl BindResponse {
    /// An answer to `message_id` with `result_code` and nothing to add.
    #[must_use]
    pub fn answering(message_id: i64, result_code: i64) -> (response: Self)
        ensures
            response@ == (Response {
                message_id,
                result_code,
                matched_dn: Seq::empty(),
                diagnostic: Seq::empty(),
            }),
    {
        BindResponse {
            message_id,
            result_code,
            matched_dn: String::new(),
            diagnostic: String::new(),
        }
    }

    /// The same answer with a diagnostic message.
    #[must_use]
    pub fn saying(self, diagnostic: &str) -> (response: Self)
        ensures
            response@ == (Response { diagnostic: diagnostic@, ..self@ }),
    {
        BindResponse { diagnostic: diagnostic.to_owned(), ..self }
    }

    /// The `LDAPMessage` carrying this response, as a directory writes it.
    #[must_use]
    pub fn encode(&self) -> (out: Vec<u8>)
        ensures
            out@ == response_bytes(self@),
    {
        let mut result = integer(ENUMERATED, self.result_code);
        append(&mut result, tlv(OCTET_STRING, self.matched_dn.as_str().as_bytes()).as_slice());
        append(&mut result, tlv(OCTET_STRING, self.diagnostic.as_str().as_bytes()).as_slice());
        message(self.message_id, tlv(BIND_RESPONSE, result.as_slice()))
    }

    /// Read an `LDAPMessage` as a bind response. Referrals and SASL
    /// credentials after the diagnostic message are not read.
    ///
    /// # Errors
    ///
    /// Not a bind response, or one cut short.
    pub fn decode(message: &[u8]) -> (result: Result<Self, AuthenticateError>)
        ensures
            match (result, response_in(message@)) {
                (Ok(response), Ok(expected)) => response@ == expected,
                (Err(error), Err(message)) => error.message@ == message,
                _ => false,
            },
    {
        let (message_id, body) = open(message, BIND_RESPONSE)?;
        let (code, rest) = expect(body, ENUMERATED)?;
        let (matched_dn, rest) = expect(rest, OCTET_STRING)?;
        let (diagnostic, _) = expect(rest, OCTET_STRING)?;
        let result_code = read_integer(code)?;
        let matched_dn = text(matched_dn, "matched DN")?;
        let diagnostic = text(diagnostic, "diagnostic message")?;
        Ok(BindResponse { message_id, result_code, matched_dn, diagnostic })
    }
}

// What holds of writing and reading together.

/// An envelope opens on what it was closed on, whatever follows the
/// operation in it and whatever follows it.
proof fn lemma_opens(
    message_id: i64,
    operation: u8,
    body: Seq<u8>,
    controls: Seq<u8>,
    rest: Seq<u8>,
)
    requires
        message_of(message_id as int, ber::tlv_of(operation, body) + controls).len()
            <= usize::MAX,
    ensures
        forall|expected: u8|
            opened(
                message_of(message_id as int, ber::tlv_of(operation, body) + controls) + rest,
                expected,
            ) == (if expected == operation {
                Ok((message_id, body))
            } else {
                Err(ber::misplaced(operation, expected))
            }),
{
    let id = ber::signed_bytes(message_id as int);
    let inner = ber::tlv_of(operation, body);
    let envelope = ber::tlv_of(INTEGER, id) + (inner + controls);
    ber::lemma_tlv_reads_back(SEQUENCE, envelope, rest);
    ber::lemma_tlv_reads_back(INTEGER, id, inner + controls);
    ber::lemma_tlv_reads_back(operation, body, controls);
    ber::lemma_integer_reads_back(message_id);
}

proof fn lemma_text_reads_back(string: Seq<char>, what: Seq<char>)
    ensures
        text_in(vstd::utf8::encode_utf8(string), what) == Ok::<_, Seq<char>>(string),
{
    vstd::utf8::encode_utf8_valid_utf8(string);
    vstd::utf8::encode_utf8_decode_utf8(string);
}

proof fn lemma_credentials_read_back(request: Request)
    requires
        bind_body(request.name, request.password).len() <= usize::MAX,
    ensures
        ({
            let name = vstd::utf8::encode_utf8(request.name);
            let password = vstd::utf8::encode_utf8(request.password);
            credentials_in(
                request.message_id,
                ber::tlv_of(OCTET_STRING, name) + ber::tlv_of(SIMPLE, password),
            )
        }) == Ok::<_, Seq<char>>(request),
{
    let name = vstd::utf8::encode_utf8(request.name);
    let password = vstd::utf8::encode_utf8(request.password);
    let second = ber::tlv_of(SIMPLE, password);
    ber::lemma_tlv_reads_back(OCTET_STRING, name, second);
    assert(second + Seq::<u8>::empty() =~= second);
    ber::lemma_tlv_reads_back(SIMPLE, password, Seq::empty());
    lemma_text_reads_back(request.name, "name"@);
    lemma_text_reads_back(request.password, "password"@);
}

proof fn lemma_bind_reads_back(request: Request)
    requires
        bind_body(request.name, request.password).len() <= usize::MAX,
    ensures
        bind_in(request.message_id, bind_body(request.name, request.password)) == Ok::<
            _,
            Seq<char>,
        >(request),
{
    let body = bind_body(request.name, request.password);
    let version = ber::signed_bytes(VERSION as int);
    let rest = ber::tlv_of(OCTET_STRING, vstd::utf8::encode_utf8(request.name)) + ber::tlv_of(
        SIMPLE,
        vstd::utf8::encode_utf8(request.password),
    );
    assert(body =~= ber::tlv_of(INTEGER, version) + rest);
    ber::lemma_integer_reads_back(VERSION);
    ber::lemma_tlv_reads_back(INTEGER, version, rest);
    lemma_credentials_read_back(request);
}

/// A bind that was written reads back, whatever follows it.
pub proof fn lemma_request_reads_back(request: Request, rest: Seq<u8>)
    requires
        request_bytes(request).len() <= usize::MAX,
    ensures
        request_in(request_bytes(request) + rest) == Ok::<_, Seq<char>>(request),
{
    let body = bind_body(request.name, request.password);
    let operation = ber::tlv_of(BIND_REQUEST, body);
    assert(operation + Seq::<u8>::empty() =~= operation);
    lemma_opens(request.message_id, BIND_REQUEST, body, Seq::empty(), rest);
    lemma_bind_reads_back(request);
}

proof fn lemma_answer_reads_back(response: Response, referrals: Seq<u8>)
    requires
        (result_body(response.result_code, response.matched_dn, response.diagnostic)
            + referrals).len() <= usize::MAX,
    ensures
        answer_in(
            response.message_id,
            result_body(response.result_code, response.matched_dn, response.diagnostic)
                + referrals,
        ) == Ok::<_, Seq<char>>(response),
{
    let matched_dn = vstd::utf8::encode_utf8(response.matched_dn);
    let diagnostic = vstd::utf8::encode_utf8(response.diagnostic);
    let body = result_body(response.result_code, response.matched_dn, response.diagnostic)
        + referrals;
    let code = ber::integer_of(ENUMERATED, response.result_code as int);
    let first = ber::tlv_of(OCTET_STRING, matched_dn);
    let second = ber::tlv_of(OCTET_STRING, diagnostic);
    assert(body =~= code + (first + (second + referrals)));
    ber::lemma_tlv_reads_back(
        ENUMERATED,
        ber::signed_bytes(response.result_code as int),
        first + (second + referrals),
    );
    ber::lemma_integer_reads_back(response.result_code);
    ber::lemma_tlv_reads_back(OCTET_STRING, matched_dn, second + referrals);
    ber::lemma_tlv_reads_back(OCTET_STRING, diagnostic, referrals);
    lemma_text_reads_back(response.matched_dn, "matched DN"@);
    lemma_text_reads_back(response.diagnostic, "diagnostic message"@);
}

/// A response that was written reads back, whatever follows it. Referrals
/// and SASL credentials after the diagnostic message, and controls after the
/// response, change nothing.
pub proof fn lemma_response_reads_back(
    response: Response,
    referrals: Seq<u8>,
    controls: Seq<u8>,
    rest: Seq<u8>,
)
    requires
        ({
            let body = result_body(
                response.result_code,
                response.matched_dn,
                response.diagnostic,
            ) + referrals;
            message_of(
                response.message_id as int,
                ber::tlv_of(BIND_RESPONSE, body) + controls,
            ).len() <= usize::MAX
        }),
    ensures
        ({
            let body = result_body(
                response.result_code,
                response.matched_dn,
                response.diagnostic,
            ) + referrals;
            response_in(
                message_of(
                    response.message_id as int,
                    ber::tlv_of(BIND_RESPONSE, body) + controls,
                ) + rest,
            ) == Ok::<_, Seq<char>>(response)
        }),
{
    let body = result_body(response.result_code, response.matched_dn, response.diagnostic)
        + referrals;
    lemma_opens(response.message_id, BIND_RESPONSE, body, controls, rest);
    lemma_answer_reads_back(response, referrals);
}

/// A response as [`BindResponse::encode`] writes it reads back.
pub proof fn lemma_encoded_response_reads_back(response: Response)
    requires
        response_bytes(response).len() <= usize::MAX,
    ensures
        response_in(response_bytes(response)) == Ok::<_, Seq<char>>(response),
{
    let body = result_body(response.result_code, response.matched_dn, response.diagnostic);
    let operation = ber::tlv_of(BIND_RESPONSE, body);
    let whole = response_bytes(response);
    assert(body + Seq::<u8>::empty() =~= body);
    assert(operation + Seq::<u8>::empty() =~= operation);
    assert(whole + Seq::<u8>::empty() =~= whole);
    lemma_response_reads_back(response, Seq::empty(), Seq::empty(), Seq::empty());
}

/// A response that was written and cut short, wherever it is cut, is refused
/// as such.
pub proof fn lemma_response_cut_short_is_refused(response: Response, k: int)
    requires
        response_bytes(response).len() <= usize::MAX,
        0 <= k < response_bytes(response).len(),
    ensures
        response_in(response_bytes(response).take(k)) == Err::<Response, _>(ber::cut_short()),
{
    let body = result_body(response.result_code, response.matched_dn, response.diagnostic);
    let id = ber::integer_of(INTEGER, response.message_id as int);
    ber::lemma_tlv_cut_short_is_refused(SEQUENCE, id + ber::tlv_of(BIND_RESPONSE, body), k);
}

/// A request that was written and cut short, wherever it is cut, is refused as
/// such.
pub proof fn lemma_request_cut_short_is_refused(request: Request, k: int)
    requires
        request_bytes(request).len() <= usize::MAX,
        0 <= k < request_bytes(request).len(),
    ensures
        request_in(request_bytes(request).take(k)) == Err::<Request, _>(ber::cut_short()),
{
    let body = bind_body(request.name, request.password);
    let id = ber::integer_of(INTEGER, request.message_id as int);
    ber::lemma_tlv_cut_short_is_refused(SEQUENCE, id + ber::tlv_of(BIND_REQUEST, body), k);
}

/// One message is not read as the other: a request is no response, and the
/// error names the tag found and the tag expected.
pub proof fn lemma_request_is_no_response(request: Request)
    requires
        request_bytes(request).len() <= usize::MAX,
    ensures
        response_in(request_bytes(request)) == Err::<Response, _>(
            ber::misplaced(BIND_REQUEST, BIND_RESPONSE),
        ),
{
    let body = bind_body(request.name, request.password);
    let operation = ber::tlv_of(BIND_REQUEST, body);
    assert(operation + Seq::<u8>::empty() =~= operation);
    assert(request_bytes(request) + Seq::<u8>::empty() =~= request_bytes(request));
    lemma_opens(request.message_id, BIND_REQUEST, body, Seq::empty(), Seq::empty());
}

/// One message is not read as the other: a response is no request, and the
/// error names the tag found and the tag expected.
pub proof fn lemma_response_is_no_request(response: Response)
    requires
        response_bytes(response).len() <= usize::MAX,
    ensures
        request_in(response_bytes(response)) == Err::<Request, _>(
            ber::misplaced(BIND_RESPONSE, BIND_REQUEST),
        ),
{
    let body = result_body(response.result_code, response.matched_dn, response.diagnostic);
    let operation = ber::tlv_of(BIND_RESPONSE, body);
    assert(operation + Seq::<u8>::empty() =~= operation);
    assert(response_bytes(response) + Seq::<u8>::empty() =~= response_bytes(response));
    lemma_opens(response.message_id, BIND_RESPONSE, body, Seq::empty(), Seq::empty());
}

/// An unbind is neither a request nor a response.
pub proof fn lemma_unbind_is_no_bind(message_id: i64)
    ensures
        request_in(unbind_of(message_id as int)) == Err::<Request, _>(
            ber::misplaced(UNBIND_REQUEST, BIND_REQUEST),
        ),
        response_in(unbind_of(message_id as int)) == Err::<Response, _>(
            ber::misplaced(UNBIND_REQUEST, BIND_RESPONSE),
        ),
{
    let nothing = Seq::<u8>::empty();
    let operation = ber::tlv_of(UNBIND_REQUEST, nothing);
    let whole = unbind_of(message_id as int);
    assert(operation + nothing =~= operation);
    assert(whole + nothing =~= whole);
    ber::lemma_integer_reads_back(message_id);
    assert(whole.len() < 0x80);
    lemma_opens(message_id, UNBIND_REQUEST, nothing, nothing, nothing);
}

// The messages by their places, whatever writes or reads them.

/// An element in its place: all of its bytes, and its contents.
pub struct Placed {
    /// All of its bytes.
    pub whole: Seq<u8>,
    /// Its contents.
    pub contents: Seq<u8>,
}

/// Where everything is in a message whose operation begins with three
/// elements.
pub struct Parts {
    /// The message.
    pub message: Placed,
    /// The message id.
    pub id: Placed,
    /// The operation.
    pub operation: Placed,
    /// The first element of the operation.
    pub first: Placed,
    /// The second.
    pub second: Placed,
    /// The third.
    pub third: Placed,
    /// What else there is in the operation.
    pub within: Seq<u8>,
    /// What else there is in the message.
    pub beside: Seq<u8>,
    /// What follows the message.
    pub beyond: Seq<u8>,
}

/// Whether an element in its place is one under `tag`.
pub open spec fn is_under(placed: Placed, tag: u8) -> bool {
    ber::is_element(placed.whole, tag, placed.contents)
}

/// Whether an element in its place is one under `tag`, in the fewest bytes.
pub open spec fn is_shortest_under(placed: Placed, tag: u8) -> bool {
    ber::is_shortest_element(placed.whole, tag, placed.contents)
}

/// Whether `bytes` begin with a message of these parts: a SEQUENCE of an
/// INTEGER and an operation under `operation`, which begins with elements under
/// these three tags, in this order.
pub open spec fn is_laid_out(
    bytes: Seq<u8>,
    parts: Parts,
    operation: u8,
    tags: (u8, u8, u8),
) -> bool {
    &&& bytes == parts.message.whole + parts.beyond
    &&& is_under(parts.message, 0x30)
    &&& parts.message.contents == parts.id.whole + (parts.operation.whole + parts.beside)
    &&& is_under(parts.id, 0x02)
    &&& is_under(parts.operation, operation)
    &&& parts.operation.contents == parts.first.whole + (parts.second.whole + (parts.third.whole
        + parts.within))
    &&& is_under(parts.first, tags.0)
    &&& is_under(parts.second, tags.1)
    &&& is_under(parts.third, tags.2)
}

/// Whether `bytes` are a message of these parts and nothing else, every
/// element of it in the fewest bytes.
pub open spec fn is_laid_out_shortest(
    bytes: Seq<u8>,
    parts: Parts,
    operation: u8,
    tags: (u8, u8, u8),
) -> bool {
    &&& is_laid_out(bytes, parts, operation, tags)
    &&& is_shortest_under(parts.message, 0x30)
    &&& is_shortest_under(parts.id, 0x02)
    &&& is_shortest_under(parts.operation, operation)
    &&& is_shortest_under(parts.first, tags.0)
    &&& is_shortest_under(parts.second, tags.1)
    &&& is_shortest_under(parts.third, tags.2)
    &&& parts.within.len() == 0
    &&& parts.beside.len() == 0
    &&& parts.beyond.len() == 0
}

/// Whether contents are an integer of a size that is read.
pub open spec fn is_readable_integer(contents: Seq<u8>) -> bool {
    1 <= contents.len() <= 8
}

proof fn lemma_written_parts(
    message_id: i64,
    operation: u8,
    tags: (u8, u8, u8),
    first: Seq<u8>,
    second: Seq<u8>,
    third: Seq<u8>,
) -> (parts: Parts)
    requires
        message_of(
            message_id as int,
            ber::tlv_of(
                operation,
                ber::tlv_of(tags.0, first) + ber::tlv_of(tags.1, second) + ber::tlv_of(
                    tags.2,
                    third,
                ),
            ),
        ).len() <= usize::MAX,
    ensures
        is_laid_out_shortest(
            message_of(
                message_id as int,
                ber::tlv_of(
                    operation,
                    ber::tlv_of(tags.0, first) + ber::tlv_of(tags.1, second) + ber::tlv_of(
                        tags.2,
                        third,
                    ),
                ),
            ),
            parts,
            operation,
            tags,
        ),
        ber::is_shortest_integer(parts.id.contents, message_id as int),
        parts.first.contents == first,
        parts.second.contents == second,
        parts.third.contents == third,
{
    let id = ber::signed_bytes(message_id as int);
    let one = ber::tlv_of(tags.0, first);
    let two = ber::tlv_of(tags.1, second);
    let three = ber::tlv_of(tags.2, third);
    let body = one + two + three;
    let inner = ber::tlv_of(operation, body);
    let head = ber::tlv_of(0x02, id);
    let contents = head + inner;
    let whole = ber::tlv_of(0x30, contents);
    let parts = Parts {
        message: Placed { whole, contents },
        id: Placed { whole: head, contents: id },
        operation: Placed { whole: inner, contents: body },
        first: Placed { whole: one, contents: first },
        second: Placed { whole: two, contents: second },
        third: Placed { whole: three, contents: third },
        within: Seq::empty(),
        beside: Seq::empty(),
        beyond: Seq::empty(),
    };
    ber::lemma_an_integer_is_written_in_twos_complement(message_id as int);
    ber::lemma_an_element_is_written_by_places(0x30, contents);
    ber::lemma_an_element_is_written_by_places(0x02, id);
    ber::lemma_an_element_is_written_by_places(operation, body);
    ber::lemma_an_element_is_written_by_places(tags.0, first);
    ber::lemma_an_element_is_written_by_places(tags.1, second);
    ber::lemma_an_element_is_written_by_places(tags.2, third);
    assert(whole =~= whole + parts.beyond);
    assert(contents =~= head + (inner + parts.beside));
    assert(body =~= one + (two + (three + parts.within)));
    parts
}

/// A bind is written as RFC 4511 lays it out: under its message id, one
/// `[APPLICATION 0]` with exactly three elements in it, the INTEGER 3, then an
/// OCTET STRING that is the UTF-8 of the name, then a `[0]` that is the UTF-8 of
/// the password; and every length and integer in the fewest bytes, so that no
/// byte is left open.
pub proof fn lemma_a_bind_is_written_in_its_order(request: Request) -> (parts: Parts)
    requires
        request_bytes(request).len() <= usize::MAX,
    ensures
        is_laid_out_shortest(request_bytes(request), parts, 0x60, (0x02, 0x04, 0x80)),
        ber::is_shortest_integer(parts.id.contents, request.message_id as int),
        parts.first.whole == seq![0x02u8, 0x01, 0x03],
        parts.second.contents == vstd::utf8::encode_utf8(request.name),
        parts.third.contents == vstd::utf8::encode_utf8(request.password),
{
    let parts = lemma_written_parts(
        request.message_id,
        0x60,
        (0x02, 0x04, 0x80),
        ber::signed_bytes(VERSION as int),
        vstd::utf8::encode_utf8(request.name),
        vstd::utf8::encode_utf8(request.password),
    );
    assert(parts.first.contents =~= seq![3u8]);
    assert(parts.first.whole =~= seq![0x02u8, 0x01, 0x03]) by {
        assert(parts.first.whole.skip(2)[0] == parts.first.whole[2]);
    }
    parts
}

/// A response is written as RFC 4511 lays it out: under its message id, one
/// `[APPLICATION 1]` with exactly three elements in it, the result code as an
/// ENUMERATED, then OCTET STRINGs that are the UTF-8 of the matched DN and of
/// the diagnostic message; and every length and integer in the fewest bytes.
pub proof fn lemma_a_response_is_written_in_its_order(response: Response) -> (parts: Parts)
    requires
        response_bytes(response).len() <= usize::MAX,
    ensures
        is_laid_out_shortest(response_bytes(response), parts, 0x61, (0x0a, 0x04, 0x04)),
        ber::is_shortest_integer(parts.id.contents, response.message_id as int),
        ber::is_shortest_integer(parts.first.contents, response.result_code as int),
        parts.second.contents == vstd::utf8::encode_utf8(response.matched_dn),
        parts.third.contents == vstd::utf8::encode_utf8(response.diagnostic),
{
    ber::lemma_an_integer_is_written_in_twos_complement(response.result_code as int);
    lemma_written_parts(
        response.message_id,
        0x61,
        (0x0a, 0x04, 0x04),
        ber::signed_bytes(response.result_code as int),
        vstd::utf8::encode_utf8(response.matched_dn),
        vstd::utf8::encode_utf8(response.diagnostic),
    )
}

/// An unbind is written as RFC 4511 lays it out: a SEQUENCE of its message id
/// and of an empty `[APPLICATION 2]`, each in the fewest bytes.
pub proof fn lemma_an_unbind_is_written_in_its_order(message_id: i64) -> (id: Placed)
    ensures
        is_shortest_under(id, 0x02),
        ber::is_shortest_integer(id.contents, message_id as int),
        unbind_of(message_id as int) == seq![0x30u8, (id.whole.len() + 2) as u8] + id.whole
            + seq![0x42u8, 0x00],
        id.whole.len() <= 10,
{
    let contents = ber::signed_bytes(message_id as int);
    let whole = ber::tlv_of(0x02, contents);
    ber::lemma_an_integer_is_written_in_twos_complement(message_id as int);
    ber::lemma_integer_reads_back(message_id);
    ber::lemma_an_element_is_written_by_places(0x02, contents);
    let nothing = ber::tlv_of(0x42, Seq::empty());
    assert(nothing =~= seq![0x42u8, 0x00]);
    assert(unbind_of(message_id as int) =~= seq![0x30u8, (whole.len() + 2) as u8] + whole
        + seq![0x42u8, 0x00]);
    Placed { whole, contents }
}

proof fn lemma_opens_by_places(
    bytes: Seq<u8>,
    message: Placed,
    id: Placed,
    operation: Placed,
    beside: Seq<u8>,
    beyond: Seq<u8>,
    tag: u8,
)
    requires
        bytes == message.whole + beyond,
        is_under(message, 0x30),
        message.contents == id.whole + (operation.whole + beside),
        is_under(id, 0x02),
        is_under(operation, tag),
    ensures
        match opened(bytes, tag) {
            Ok((message_id, body)) => {
                &&& is_readable_integer(id.contents)
                &&& message_id == ber::complement(id.contents)
                &&& body == operation.contents
            },
            Err(_) => !is_readable_integer(id.contents),
        },
{
    ber::lemma_every_element_is_read(message.whole, 0x30, message.contents, beyond);
    ber::lemma_every_element_is_read(id.whole, 0x02, id.contents, operation.whole + beside);
    ber::lemma_every_element_is_read(operation.whole, tag, operation.contents, beside);
    ber::lemma_an_integer_is_read_in_twos_complement(id.contents);
}

proof fn lemma_taken_off(input: Seq<u8>, tag: u8) -> (taken: (Placed, Seq<u8>))
    requires
        ber::expected_of(input, tag) is Ok,
    ensures
        ber::expected_of(input, tag) == Ok::<_, Seq<char>>((taken.0.contents, taken.1)),
        is_under(taken.0, tag),
        input == taken.0.whole + taken.1,
{
    ber::lemma_what_is_read_is_an_element(input);
    let (contents, rest) = ber::expected_of(input, tag)->Ok_0;
    let whole = input.take(input.len() - rest.len());
    assert(input =~= whole + rest);
    (Placed { whole, contents }, rest)
}

/// A bind of any other version than 3 is refused, whatever else is in it, and
/// the version it asks for is named.
pub proof fn lemma_another_version_is_refused(
    bytes: Seq<u8>,
    message: Placed,
    id: Placed,
    operation: Placed,
    version: Placed,
    within: Seq<u8>,
    beside: Seq<u8>,
    beyond: Seq<u8>,
)
    requires
        bytes == message.whole + beyond,
        is_under(message, 0x30),
        message.contents == id.whole + (operation.whole + beside),
        is_under(id, 0x02),
        is_readable_integer(id.contents),
        is_under(operation, 0x60),
        operation.contents == version.whole + within,
        is_under(version, 0x02),
        is_readable_integer(version.contents),
        ber::complement(version.contents) != 3,
    ensures
        request_in(bytes) == Err::<Request, _>(
            "the bind asks for LDAP version "@ + crate::text::decimal_of(
                ber::complement(version.contents),
            ) + " and this speaks "@ + crate::text::decimal_of(3),
        ),
{
    lemma_opens_by_places(bytes, message, id, operation, beside, beyond, 0x60);
    ber::lemma_every_element_is_read(version.whole, 0x02, version.contents, within);
    ber::lemma_an_integer_is_read_in_twos_complement(version.contents);
}

/// A message laid out as a bind is read as what is in its places: the id and
/// the version in two's complement, the name and the password from their UTF-8,
/// all of it. What else there is in it changes nothing. It is refused where the
/// version is not 3, where the name or the password is not UTF-8, which is then
/// named, and where the id or the version is no integer of up to eight bytes.
pub proof fn lemma_a_bind_is_read_off_its_places(bytes: Seq<u8>, parts: Parts)
    requires
        is_laid_out(bytes, parts, 0x60, (0x02, 0x04, 0x80)),
    ensures
        match request_in(bytes) {
            Ok(request) => {
                &&& is_readable_integer(parts.id.contents)
                &&& is_readable_integer(parts.first.contents)
                &&& request.message_id == ber::complement(parts.id.contents)
                &&& ber::complement(parts.first.contents) == 3
                &&& vstd::utf8::encode_utf8(request.name) == parts.second.contents
                &&& vstd::utf8::encode_utf8(request.password) == parts.third.contents
            },
            Err(message) => {
                ||| !is_readable_integer(parts.id.contents)
                ||| !is_readable_integer(parts.first.contents)
                ||| ber::complement(parts.first.contents) != 3
                ||| {
                    &&& !vstd::utf8::valid_utf8(parts.second.contents)
                    &&& message == "the bind's "@ + "name"@ + " is not UTF-8"@
                }
                ||| {
                    &&& vstd::utf8::valid_utf8(parts.second.contents)
                    &&& !vstd::utf8::valid_utf8(parts.third.contents)
                    &&& message == "the bind's "@ + "password"@ + " is not UTF-8"@
                }
            },
        },
{
    lemma_opens_by_places(
        bytes,
        parts.message,
        parts.id,
        parts.operation,
        parts.beside,
        parts.beyond,
        0x60,
    );
    let (first, second, third) = (parts.first, parts.second, parts.third);
    ber::lemma_every_element_is_read(
        first.whole,
        0x02,
        first.contents,
        second.whole + (third.whole + parts.within),
    );
    ber::lemma_every_element_is_read(
        second.whole,
        0x04,
        second.contents,
        third.whole + parts.within,
    );
    ber::lemma_every_element_is_read(third.whole, 0x80, third.contents, parts.within);
    ber::lemma_an_integer_is_read_in_twos_complement(first.contents);
    if vstd::utf8::valid_utf8(second.contents) && vstd::utf8::valid_utf8(third.contents) {
        vstd::utf8::decode_utf8_encode_utf8(second.contents);
        vstd::utf8::decode_utf8_encode_utf8(third.contents);
    }
}

/// Nothing is read as a bind but a message laid out as one, whose version is 3
/// and whose id, name and password are those read.
pub proof fn lemma_what_is_read_as_a_bind_is_one(bytes: Seq<u8>) -> (parts: Parts)
    requires
        request_in(bytes) is Ok,
    ensures
        is_laid_out(bytes, parts, 0x60, (0x02, 0x04, 0x80)),
        ber::complement(parts.first.contents) == 3,
        ({
            let request = request_in(bytes)->Ok_0;
            &&& request.message_id == ber::complement(parts.id.contents)
            &&& vstd::utf8::encode_utf8(request.name) == parts.second.contents
            &&& vstd::utf8::encode_utf8(request.password) == parts.third.contents
        }),
{
    let (message, beyond) = lemma_taken_off(bytes, 0x30);
    let (id, rest) = lemma_taken_off(message.contents, 0x02);
    let (operation, beside) = lemma_taken_off(rest, 0x60);
    let (first, rest) = lemma_taken_off(operation.contents, 0x02);
    let (second, rest) = lemma_taken_off(rest, 0x04);
    let (third, within) = lemma_taken_off(rest, 0x80);
    let parts = Parts { message, id, operation, first, second, third, within, beside, beyond };
    lemma_a_bind_is_read_off_its_places(bytes, parts);
    parts
}

/// A message laid out as a response is read as what is in its places: the id
/// and the code in two's complement, the matched DN and the diagnostic message
/// from their UTF-8, all of it. What else there is in it, referrals, SASL
/// credentials and controls, changes nothing. It is refused where the matched DN
/// or the diagnostic message is not UTF-8, which is then named, and where the id
/// or the code is no integer of up to eight bytes.
pub proof fn lemma_a_response_is_read_off_its_places(bytes: Seq<u8>, parts: Parts)
    requires
        is_laid_out(bytes, parts, 0x61, (0x0a, 0x04, 0x04)),
    ensures
        match response_in(bytes) {
            Ok(response) => {
                &&& is_readable_integer(parts.id.contents)
                &&& is_readable_integer(parts.first.contents)
                &&& response.message_id == ber::complement(parts.id.contents)
                &&& response.result_code == ber::complement(parts.first.contents)
                &&& vstd::utf8::encode_utf8(response.matched_dn) == parts.second.contents
                &&& vstd::utf8::encode_utf8(response.diagnostic) == parts.third.contents
            },
            Err(message) => {
                ||| !is_readable_integer(parts.id.contents)
                ||| !is_readable_integer(parts.first.contents)
                ||| {
                    &&& !vstd::utf8::valid_utf8(parts.second.contents)
                    &&& message == "the bind's "@ + "matched DN"@ + " is not UTF-8"@
                }
                ||| {
                    &&& vstd::utf8::valid_utf8(parts.second.contents)
                    &&& !vstd::utf8::valid_utf8(parts.third.contents)
                    &&& message == "the bind's "@ + "diagnostic message"@ + " is not UTF-8"@
                }
            },
        },
{
    lemma_opens_by_places(
        bytes,
        parts.message,
        parts.id,
        parts.operation,
        parts.beside,
        parts.beyond,
        0x61,
    );
    let (first, second, third) = (parts.first, parts.second, parts.third);
    ber::lemma_every_element_is_read(
        first.whole,
        0x0a,
        first.contents,
        second.whole + (third.whole + parts.within),
    );
    ber::lemma_every_element_is_read(
        second.whole,
        0x04,
        second.contents,
        third.whole + parts.within,
    );
    ber::lemma_every_element_is_read(third.whole, 0x04, third.contents, parts.within);
    ber::lemma_an_integer_is_read_in_twos_complement(first.contents);
    if vstd::utf8::valid_utf8(second.contents) && vstd::utf8::valid_utf8(third.contents) {
        vstd::utf8::decode_utf8_encode_utf8(second.contents);
        vstd::utf8::decode_utf8_encode_utf8(third.contents);
    }
}

/// Nothing is read as a response but a message laid out as one, whose id, code,
/// matched DN and diagnostic message are those read.
pub proof fn lemma_what_is_read_as_a_response_is_one(bytes: Seq<u8>) -> (parts: Parts)
    requires
        response_in(bytes) is Ok,
    ensures
        is_laid_out(bytes, parts, 0x61, (0x0a, 0x04, 0x04)),
        ({
            let response = response_in(bytes)->Ok_0;
            &&& response.message_id == ber::complement(parts.id.contents)
            &&& response.result_code == ber::complement(parts.first.contents)
            &&& vstd::utf8::encode_utf8(response.matched_dn) == parts.second.contents
            &&& vstd::utf8::encode_utf8(response.diagnostic) == parts.third.contents
        }),
{
    let (message, beyond) = lemma_taken_off(bytes, 0x30);
    let (id, rest) = lemma_taken_off(message.contents, 0x02);
    let (operation, beside) = lemma_taken_off(rest, 0x61);
    let (first, rest) = lemma_taken_off(operation.contents, 0x0a);
    let (second, rest) = lemma_taken_off(rest, 0x04);
    let (third, within) = lemma_taken_off(rest, 0x04);
    let parts = Parts { message, id, operation, first, second, third, within, beside, beyond };
    lemma_a_response_is_read_off_its_places(bytes, parts);
    parts
}

/// A request and a response show their own fields, each as it is.
pub proof fn lemma_messages_show_their_fields(request: BindRequest, response: BindResponse)
    ensures
        request@.message_id == request.message_id,
        request@.name == request.name@,
        request@.password == request.password@,
        response@.message_id == response.message_id,
        response@.result_code == response.result_code,
        response@.matched_dn == response.matched_dn@,
        response@.diagnostic == response.diagnostic@,
{
}

/// What is shown of a bind is its id and its name, whole; so two binds that
/// differ in their passwords alone are shown alike.
pub proof fn lemma_the_password_is_not_shown(left: Request, right: Request)
    requires
        left.message_id == right.message_id,
        left.name == right.name,
    ensures
        shown(left.message_id, left.name) == shown(right.message_id, right.name),
        shown(left.message_id, left.name) == "BindRequest { message_id: "@
            + crate::text::decimal_of(left.message_id as int) + ", name: "@ + quoted(left.name)
            + ", .. }"@,
{
}

/// The codes that RFC 4511 names for a bind.
pub open spec fn named_codes() -> Seq<i64> {
    seq![0i64, 1, 2, 7, 8, 13, 32, 34, 48, 49, 50, 51, 52, 53, 80]
}

/// The names of [`named_codes`], in the same order.
pub open spec fn code_names() -> Seq<Seq<char>> {
    seq![
        "success"@,
        "operationsError"@,
        "protocolError"@,
        "authMethodNotSupported"@,
        "strongerAuthRequired"@,
        "confidentialityRequired"@,
        "noSuchObject"@,
        "invalidDNSyntax"@,
        "inappropriateAuthentication"@,
        "invalidCredentials"@,
        "insufficientAccessRights"@,
        "busy"@,
        "unavailable"@,
        "unwillingToPerform"@,
        "other"@,
    ]
}

/// Each code that RFC 4511 names for a bind has its own name, and every other
/// code is said to have none.
pub proof fn lemma_a_code_has_its_own_name(code: i64)
    ensures
        forall|at: int|
            0 <= at < named_codes().len() && #[trigger] named_codes()[at] == code ==> name_of(code)
                == code_names()[at],
        !named_codes().contains(code) ==> name_of(code)
            == "a result code RFC 4511 does not name for a bind"@,
{
    let codes = named_codes();
    assert(codes[0] == 0 && codes[1] == 1 && codes[2] == 2 && codes[3] == 7 && codes[4] == 8
        && codes[5] == 13 && codes[6] == 32 && codes[7] == 34 && codes[8] == 48 && codes[9] == 49
        && codes[10] == 50 && codes[11] == 51 && codes[12] == 52 && codes[13] == 53 && codes[14]
        == 80);
}

/// A message with another operation in it than the one expected is refused, and
/// both operations are named by their tags.
pub proof fn lemma_another_operation_is_refused(
    bytes: Seq<u8>,
    message: Placed,
    id: Placed,
    operation: Placed,
    beside: Seq<u8>,
    beyond: Seq<u8>,
    tag: u8,
)
    requires
        bytes == message.whole + beyond,
        is_under(message, 0x30),
        message.contents == id.whole + (operation.whole + beside),
        is_under(id, 0x02),
        is_under(operation, tag),
    ensures
        tag != 0x60 ==> request_in(bytes) == Err::<Request, _>(
            "an element tagged "@ + crate::text::hex_of(tag) + " stands where one tagged "@
                + crate::text::hex_of(0x60) + " belongs"@,
        ),
        tag != 0x61 ==> response_in(bytes) == Err::<Response, _>(
            "an element tagged "@ + crate::text::hex_of(tag) + " stands where one tagged "@
                + crate::text::hex_of(0x61) + " belongs"@,
        ),
{
    ber::lemma_every_element_is_read(message.whole, 0x30, message.contents, beyond);
    ber::lemma_every_element_is_read(id.whole, 0x02, id.contents, operation.whole + beside);
    ber::lemma_every_element_is_read(operation.whole, tag, operation.contents, beside);
}

} // verus!
