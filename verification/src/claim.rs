//! What is claimed and what comes of it: the claim a verifier is handed, its
//! verdict, and the reason it gives where it has none.

use crate::text::same;
use vstd::prelude::*;

verus! {

/// Why a claim could not be verified.
#[derive(Debug, PartialEq, Eq)]
pub struct AuthenticateError {
    /// The reason, in words.
    pub message: String,
}

impl Clone for AuthenticateError {
    fn clone(&self) -> (copy: Self)
        ensures
            copy == *self,
    {
        AuthenticateError { message: self.message.clone() }
    }
}

impl AuthenticateError {
    /// An error that says `message`.
    pub fn new(message: String) -> (error: Self)
        ensures
            error.message == message,
    {
        AuthenticateError { message }
    }

    /// An error that says `message`.
    pub fn saying(message: &str) -> (error: Self)
        ensures
            error.message@ == message@,
    {
        AuthenticateError { message: message.to_owned() }
    }
}

/// How a claim was read, or how one is verified, by its name.
#[derive(Debug, PartialEq, Eq)]
pub struct Mechanism {
    /// The name.
    pub name: String,
}

impl Clone for Mechanism {
    fn clone(&self) -> (copy: Self)
        ensures
            copy == *self,
    {
        Mechanism { name: self.name.clone() }
    }
}

impl Mechanism {
    /// The mechanism called `name`.
    #[must_use]
    pub fn named(name: &str) -> (mechanism: Self)
        ensures
            mechanism.name@ == name@,
    {
        Mechanism { name: name.to_owned() }
    }

    /// A bare username.
    #[must_use]
    pub fn username() -> (mechanism: Self)
        ensures
            mechanism.name@ == "username"@,
    {
        Mechanism::named("username")
    }

    /// A bind at a directory.
    #[must_use]
    pub fn ldap() -> (mechanism: Self)
        ensures
            mechanism.name@ == "ldap"@,
    {
        Mechanism::named("ldap")
    }

    /// The name of this mechanism.
    #[must_use]
    pub fn name(&self) -> (name: &str)
        ensures
            name@ == self.name@,
    {
        self.name.as_str()
    }
}

/// A verifier's verdict on a claim.
#[derive(Clone, Copy, Debug, PartialEq, Eq, Structural)]
pub enum Verified {
    /// The claim holds.
    Proven,
    /// The claim does not hold.
    Refused,
}

/// What was presented to show that a claim holds: a secret and its name.
pub struct Proof {
    /// What kind of secret it is.
    pub name: String,
    /// The secret.
    pub secret: String,
}

/// A claim as it was presented, with the proofs that came with it.
pub struct Presented {
    /// How the claim was read.
    pub mechanism: Mechanism,
    /// What is claimed.
    pub value: String,
    /// What came with it.
    pub proofs: Vec<Proof>,
}

/// What a presented claim holds.
pub struct Claim {
    /// The name of the mechanism that read the claim.
    pub mechanism: Seq<char>,
    /// What is claimed.
    pub value: Seq<char>,
    /// The name and the secret of each proof, as they were presented.
    pub proofs: Seq<(Seq<char>, Seq<char>)>,
}

impl View for Presented {
    type V = Claim;

    open spec fn view(&self) -> Claim {
        Claim {
            mechanism: self.mechanism.name@,
            value: self.value@,
            proofs: self.proofs@.map_values(|shown: Proof| (shown.name@, shown.secret@)),
        }
    }
}

/// The secret of the first proof called `name`.
pub open spec fn secret_in(proofs: Seq<(Seq<char>, Seq<char>)>, name: Seq<char>) -> Option<
    Seq<char>,
>
    decreases proofs.len(),
{
    if proofs.len() == 0 {
        None
    } else if proofs[0].0 == name {
        Some(proofs[0].1)
    } else {
        secret_in(proofs.skip(1), name)
    }
}

impl Presented {
    /// A claim of `value` that `mechanism` read, with no proof.
    #[must_use]
    pub fn passed(mechanism: Mechanism, value: &str) -> (presented: Self)
        ensures
            presented@ == (Claim {
                mechanism: mechanism.name@,
                value: value@,
                proofs: Seq::empty(),
            }),
    {
        let proofs: Vec<Proof> = Vec::new();
        let presented = Presented { mechanism, value: value.to_owned(), proofs };
        assert(presented@.proofs =~= Seq::empty());
        presented
    }

    /// The same claim with one more proof.
    #[must_use]
    pub fn with_proof(self, name: &str, secret: &str) -> (presented: Self)
        ensures
            presented@ == (Claim { proofs: self@.proofs.push((name@, secret@)), ..self@ }),
    {
        let mut presented = self;
        presented.proofs.push(Proof { name: name.to_owned(), secret: secret.to_owned() });
        assert(presented@.proofs =~= self@.proofs.push((name@, secret@)));
        presented
    }

    /// The secret presented under `name`.
    #[must_use]
    pub fn proof_of(&self, name: &str) -> (secret: Option<&str>)
        ensures
            match (secret, secret_in(self@.proofs, name@)) {
                (Some(found), Some(expected)) => found@ == expected,
                (None, None) => true,
                _ => false,
            },
    {
        let mut at: usize = 0;
        assert(self@.proofs.skip(0) =~= self@.proofs);
        while at < self.proofs.len()
            invariant
                at <= self.proofs@.len(),
                secret_in(self@.proofs, name@) == secret_in(self@.proofs.skip(at as int), name@),
            decreases self.proofs@.len() - at,
        {
            assert(self@.proofs.skip(at as int)[0] == self@.proofs[at as int]);
            assert(self@.proofs.skip(at as int).skip(1) =~= self@.proofs.skip(at + 1));
            if same(self.proofs[at].name.as_str(), name) {
                return Some(self.proofs[at].secret.as_str());
            }
            at = at + 1;
        }
        None
    }
}

// What holds of a claim.

/// A claim holds what was presented: its mechanism, its value, and each proof
/// with its name and its whole secret, in the order they came.
pub proof fn lemma_a_claim_holds_what_was_presented(presented: Presented, at: int)
    ensures
        presented@.mechanism == presented.mechanism.name@,
        presented@.value == presented.value@,
        presented@.proofs.len() == presented.proofs@.len(),
        0 <= at < presented.proofs@.len() ==> presented@.proofs[at] == (
            presented.proofs@[at].name@,
            presented.proofs@[at].secret@,
        ),
{
}

/// Of several proofs with one name the first is taken, with its whole secret.
pub proof fn lemma_the_first_proof_of_a_name_is_taken(
    proofs: Seq<(Seq<char>, Seq<char>)>,
    name: Seq<char>,
    at: int,
)
    requires
        0 <= at < proofs.len(),
        proofs[at].0 == name,
        forall|i: int| 0 <= i < at ==> (#[trigger] proofs[i]).0 != name,
    ensures
        secret_in(proofs, name) == Some(proofs[at].1),
    decreases at,
{
    if at > 0 {
        assert(proofs[0].0 != name);
        let rest = proofs.skip(1);
        assert forall|i: int| 0 <= i < at - 1 implies (#[trigger] rest[i]).0 != name by {
            assert(rest[i] == proofs[i + 1]);
        }
        lemma_the_first_proof_of_a_name_is_taken(rest, name, at - 1);
    }
}

/// Where no proof has the name, none is taken.
pub proof fn lemma_no_proof_of_another_name_is_taken(
    proofs: Seq<(Seq<char>, Seq<char>)>,
    name: Seq<char>,
)
    requires
        forall|i: int| 0 <= i < proofs.len() ==> (#[trigger] proofs[i]).0 != name,
    ensures
        secret_in(proofs, name) is None,
    decreases proofs.len(),
{
    if proofs.len() > 0 {
        assert(proofs[0].0 != name);
        let rest = proofs.skip(1);
        assert forall|i: int| 0 <= i < rest.len() implies (#[trigger] rest[i]).0 != name by {
            assert(rest[i] == proofs[i + 1]);
        }
        lemma_no_proof_of_another_name_is_taken(rest, name);
    }
}

} // verus!
