//! Authenticate by LDAP: a simple bind at the directory with the presented
//! username and password.
//!
//! RFC 4511 section 4.2. The node holds no verifier of its own for these
//! users; the directory does, and the way to ask a directory whether a
//! password is right is to bind with it. The presented name is written into
//! the DN template the authenticator was configured with, escaped as RFC 4514
//! says, so a name cannot reach outside its place in the DN. A bind is then
//! made with the presented password, and its result is read: `success` proves
//! the claim, `invalidCredentials` and `noSuchObject` refuse it alike, and
//! anything else is refused with the directory's own words. An empty password
//! is never sent: RFC 4513 makes that an unauthenticated bind, which succeeds
//! and proves nothing.
//!
//! No connection is opened here. [`LdapAuthenticator::verify`] answers with an
//! [`Exchange`], which says what is to be done over the network next and is
//! told what came of it; [`judge`] turns what the exchange comes to into a
//! verdict. A simple bind carries the password in the clear: point this at a
//! directory over a protected path.

#![allow(unused_imports)]

pub mod authenticator;
pub mod ber;
pub mod bind;
pub mod claim;
pub mod clock;
pub mod dn;
pub mod exchange;
pub mod text;

pub use authenticator::{
    default_timeout, judge, LdapAuthenticator, DEFAULT_TIMEOUT_SECONDS, PLACEHOLDER, PROOF,
};
pub use bind::{BindRequest, BindResponse};
pub use claim::{AuthenticateError, Mechanism, Presented, Verified};
pub use dn::escape;
pub use exchange::{Action, Event, Exchange, Step};
