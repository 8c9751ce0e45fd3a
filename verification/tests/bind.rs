use authenticate_ldap::ber::{integer, tlv, ENUMERATED, INTEGER, OCTET_STRING, SEQUENCE};
use authenticate_ldap::bind::{
    read_message, result_name, unbind, BindRequest, BindResponse, BIND_REQUEST, BIND_RESPONSE,
    INVALID_CREDENTIALS, NO_SUCH_OBJECT, SIMPLE, SUCCESS,
};
use authenticate_ldap::AuthenticateError;

fn refusal<T>(result: Result<T, AuthenticateError>) -> AuthenticateError {
    match result {
        Ok(_) => panic!("refused"),
        Err(error) => error,
    }
}

#[test]
fn bind_an_answer_larger_than_a_bind_response_is_refused_saying_whose() {
    let mut huge: &[u8] = &[0x30, 0x84, 0x7f, 0xff, 0xff, 0xff];
    let failure = read_message(&mut huge).expect_err("refused");
    assert!(
        failure.message.starts_with("the directory's answer: "),
        "{}",
        failure.message
    );
    assert!(failure.message.contains("65536"), "{}", failure.message);
}

#[test]
fn a_bind_request_is_rfc_4511s_byte_for_byte_and_reads_back() {
    let request = BindRequest {
        message_id: 1,
        name: "cn=a".to_string(),
        password: "pw".to_string(),
    };
    let wire = request.encode();
    assert_eq!(
        wire,
        [
            0x30, 0x12, 0x02, 0x01, 0x01, 0x60, 0x0d, 0x02, 0x01, 0x03, 0x04, 0x04, b'c', b'n',
            b'=', b'a', 0x80, 0x02, b'p', b'w'
        ]
    );
    assert!(BindRequest::decode(&wire).expect("read") == request);
    assert!(!request.show().contains("pw"));
}

#[test]
fn a_bind_response_carries_its_code_and_what_the_directory_says() {
    let response = BindResponse::answering(7, INVALID_CREDENTIALS).saying("80090308: 52e");
    let wire = response.encode();
    assert_eq!(&wire[..7], [0x30, 0x19, 0x02, 0x01, 0x07, 0x61, 0x14]);
    let read = BindResponse::decode(&wire).expect("read");
    assert_eq!(read, response);
    assert_eq!(result_name(read.result_code), "invalidCredentials");
    assert_eq!(result_name(SUCCESS), "success");
    assert_eq!(result_name(NO_SUCH_OBJECT), "noSuchObject");
}

#[test]
fn one_message_is_not_read_as_the_other() {
    let request = BindRequest {
        message_id: 1,
        name: String::new(),
        password: "x".to_string(),
    };
    let failure = BindResponse::decode(&request.encode()).expect_err("refused");
    assert!(failure.message.contains("0x61"), "{}", failure.message);
    let failure = refusal(BindRequest::decode(
        &BindResponse::answering(1, SUCCESS).encode(),
    ));
    assert!(failure.message.contains("0x60"), "{}", failure.message);
    assert!(BindRequest::decode(&unbind(2)).is_err());
}

#[test]
fn an_older_version_and_an_unbind_are_what_they_say() {
    let mut wire = BindRequest {
        message_id: 1,
        name: String::new(),
        password: String::new(),
    }
    .encode();
    wire[9] = 2;
    let failure = refusal(BindRequest::decode(&wire));
    assert!(failure.message.contains("version 2"), "{}", failure.message);
    assert_eq!(
        failure.message,
        "the bind asks for LDAP version 2 and this speaks 3"
    );
    assert_eq!(unbind(2), [0x30, 0x05, 0x02, 0x01, 0x02, 0x42, 0x00]);
}

#[test]
fn a_bind_is_shown_without_its_password() {
    let request = BindRequest {
        message_id: -12,
        name: "cn=\"a\"\n".to_string(),
        password: "pencil".to_string(),
    };
    assert_eq!(
        request.show(),
        "BindRequest { message_id: -12, name: \"cn=\\\"a\\\"\\n\", .. }"
    );
    let other = BindRequest {
        password: "other".to_string(),
        ..request.clone()
    };
    assert_eq!(other.show(), request.show());
    assert!(other != request);
}

#[test]
fn names_and_passwords_of_any_script_and_size_read_back() {
    for (name, password) in [
        ("", ""),
        ("cn=\u{e9}\u{20ac}\u{1f600}", "\u{0}\u{7f}\u{80}"),
        (&"n".repeat(127)[..], &"p".repeat(128)[..]),
        (&"n".repeat(70000)[..], &"p".repeat(300)[..]),
    ] {
        let request = BindRequest {
            message_id: 2147483647,
            name: name.to_string(),
            password: password.to_string(),
        };
        let mut wire = request.encode();
        wire.extend_from_slice(b"more");
        assert!(BindRequest::decode(&wire).expect("read") == request);
    }
}

#[test]
fn what_follows_the_diagnostic_message_is_not_read() {
    let mut result = integer(ENUMERATED, 10);
    result.extend_from_slice(&tlv(OCTET_STRING, b"dc=org"));
    result.extend_from_slice(&tlv(OCTET_STRING, b"elsewhere"));
    result.extend_from_slice(&tlv(0xa3, b"a referral"));
    let mut contents = integer(INTEGER, 1);
    contents.extend_from_slice(&tlv(BIND_RESPONSE, &result));
    contents.extend_from_slice(&tlv(0xa0, b"a control"));
    let mut wire = tlv(SEQUENCE, &contents);
    wire.extend_from_slice(b"and more");
    assert_eq!(
        BindResponse::decode(&wire).expect("read"),
        BindResponse {
            message_id: 1,
            result_code: 10,
            matched_dn: "dc=org".to_string(),
            diagnostic: "elsewhere".to_string(),
        }
    );
}

fn response_of(matched_dn: &[u8], diagnostic: &[u8]) -> Vec<u8> {
    let mut result = integer(ENUMERATED, 0);
    result.extend_from_slice(&tlv(OCTET_STRING, matched_dn));
    result.extend_from_slice(&tlv(OCTET_STRING, diagnostic));
    let mut contents = integer(INTEGER, 1);
    contents.extend_from_slice(&tlv(BIND_RESPONSE, &result));
    tlv(SEQUENCE, &contents)
}

fn request_of(name: &[u8], password: &[u8]) -> Vec<u8> {
    let mut bind = integer(INTEGER, 3);
    bind.extend_from_slice(&tlv(OCTET_STRING, name));
    bind.extend_from_slice(&tlv(SIMPLE, password));
    let mut contents = integer(INTEGER, 1);
    contents.extend_from_slice(&tlv(BIND_REQUEST, &bind));
    tlv(SEQUENCE, &contents)
}

#[test]
fn what_is_not_utf8_is_refused_by_what_it_is() {
    assert_eq!(
        refusal(BindRequest::decode(&request_of(&[0xff], b"x"))).message,
        "the bind's name is not UTF-8"
    );
    assert_eq!(
        refusal(BindRequest::decode(&request_of(b"x", &[0xc0, 0x80]))).message,
        "the bind's password is not UTF-8"
    );
    assert_eq!(
        refusal(BindResponse::decode(&response_of(&[0xed, 0xa0, 0x80], b""))).message,
        "the bind's matched DN is not UTF-8"
    );
    assert_eq!(
        refusal(BindResponse::decode(&response_of(b"", &[0x80]))).message,
        "the bind's diagnostic message is not UTF-8"
    );
    assert_eq!(
        BindResponse::decode(&response_of("\u{e9}".as_bytes(), "\u{20ac}".as_bytes()))
            .expect("read")
            .diagnostic,
        "\u{20ac}"
    );
}

#[test]
fn a_bind_that_is_not_simple_is_refused() {
    let mut bind = integer(INTEGER, 3);
    bind.extend_from_slice(&tlv(OCTET_STRING, b"cn=a"));
    bind.extend_from_slice(&tlv(0xa3, b"SASL"));
    let mut contents = integer(INTEGER, 1);
    contents.extend_from_slice(&tlv(BIND_REQUEST, &bind));
    assert_eq!(
        refusal(BindRequest::decode(&tlv(SEQUENCE, &contents))).message,
        "an element tagged 0xa3 stands where one tagged 0x80 belongs"
    );
}

#[test]
fn a_response_cut_short_is_refused() {
    let wire = BindResponse::answering(1, SUCCESS).saying("done").encode();
    for size in 0..wire.len() {
        assert_eq!(
            BindResponse::decode(&wire[..size]).expect_err("refused").message,
            "an element is cut short"
        );
    }
    assert_eq!(&wire[wire.len() - 4..], b"done");
}

#[test]
fn a_request_cut_short_is_refused() {
    let request = BindRequest {
        message_id: 1,
        name: "cn=a".to_string(),
        password: "pw".to_string(),
    };
    let wire = request.encode();
    for size in 0..wire.len() {
        assert_eq!(
            BindRequest::decode(&wire[..size]).err().expect("refused").message,
            "an element is cut short"
        );
    }
}

#[test]
fn every_code_a_bind_meets_has_its_name() {
    for (code, name) in [
        (0, "success"),
        (1, "operationsError"),
        (2, "protocolError"),
        (7, "authMethodNotSupported"),
        (8, "strongerAuthRequired"),
        (13, "confidentialityRequired"),
        (32, "noSuchObject"),
        (34, "invalidDNSyntax"),
        (48, "inappropriateAuthentication"),
        (49, "invalidCredentials"),
        (50, "insufficientAccessRights"),
        (51, "busy"),
        (52, "unavailable"),
        (53, "unwillingToPerform"),
        (80, "other"),
        (-1, "a result code RFC 4511 does not name for a bind"),
        (81, "a result code RFC 4511 does not name for a bind"),
    ] {
        assert_eq!(result_name(code), name);
    }
}
