# authenticate_ldap

Verifies a username and a password by a simple bind at an LDAP directory
(RFC 4511), in Verus.

- `src/text.rs` — decimal and hexadecimal, finding and replacing.
- `src/dn.rs` — RFC 4514's escaping. An escaped value reads back whole wherever
  it stands in a DN, and leaves what follows it.
- `src/ber.rs` — the part of X.690 a bind takes: elements of definite length,
  small integers, one element off a stream.
- `src/bind.rs` — the bind's request and response, both ways.
- `src/claim.rs` — a presented claim, a verdict, an error.
- `src/clock.rs` — time, counted in nanoseconds.
- `src/exchange.rs` — one bind as a machine of actions and events, and what it
  comes to at any directory, at whatever times the directory's answer arrives.
- `src/authenticator.rs` — the authenticator: from a claim to a bind, and from
  a response to a verdict.
- `app/` — the same over TCP.
- `tests/` — scenarios.

What is not proved but believed of `std` stands in three files: `String::push` in
`src/text.rs`, `String::from_utf8` and how a string is shown for debugging in
`src/bind.rs`, and three functions of `Duration` in `src/clock.rs`.
