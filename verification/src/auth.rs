//! What opens a share: the token a request presents, and how a wrong one is
//! refused.
//!
//! Without a password the token is the ticket's secret itself. With one it is
//! what the secret and the password are stretched into together.
use crate::framing::{CLOSE_BAD_SECRET, CLOSE_UNAUTHORIZED, SECRET_LEN};
use vstd::prelude::*;

verus! {

/// Domain separator of the stretched secret: `agent-share/mount-ticket/v1`.
pub const MOUNT_TICKET_LABEL: &'static [u8; 27] = &[
    97u8, 103u8, 101u8, 110u8, 116u8, 45u8, 115u8, 104u8, 97u8, 114u8, 101u8, 47u8,
    109u8, 111u8, 117u8, 110u8, 116u8, 45u8, 116u8, 105u8, 99u8, 107u8, 101u8, 116u8,
    47u8, 118u8, 49u8,
];

/// Refusal reason of a password-protected share: `unauthorized`.
pub const REASON_UNAUTHORIZED: &'static [u8; 12] = &[
    117u8, 110u8, 97u8, 117u8, 116u8, 104u8, 111u8, 114u8, 105u8, 122u8, 101u8, 100u8,
];

/// Refusal reason of an unprotected share: `bad secret`.
pub const REASON_BAD_SECRET: &'static [u8; 10] = &[
    98u8, 97u8, 100u8, 32u8, 115u8, 101u8, 99u8, 114u8, 101u8, 116u8,
];

/// The token of a share: the stretched secret of a password-protected one, and
/// the secret verbatim without a password.
pub open spec fn token_of(secret: Seq<u8>, stretched: Option<[u8; 32]>) -> Seq<u8> {
    match stretched {
        Some(token) => token@,
        None => secret,
    }
}

#[must_use]
pub fn share_token(secret: &[u8; 32], stretched: Option<[u8; 32]>) -> (token: [u8; 32])
    ensures
        token@ == token_of(secret@, stretched),
{
    match stretched {
        Some(token) => token,
        None => *secret,
    }
}

/// Whether two tokens are equal, in a time that does not depend on where they
/// differ.
#[must_use]
pub fn ct_eq(left: &[u8; 32], right: &[u8; 32]) -> (same: bool)
    ensures
        same == (left@ == right@),
{
    let mut diff: u8 = 0;
    let mut i: usize = 0;
    while i < 32
        invariant
            0 <= i <= 32,
            (diff == 0) == (forall|k: int| 0 <= k < i ==> left@[k] == right@[k]),
        decreases 32 - i,
    {
        let l: u8 = left[i];
        let r: u8 = right[i];
        let d: u8 = diff;
        assert(((d | (l ^ r)) == 0) == (d == 0 && l == r)) by (bit_vector);
        diff = d | (l ^ r);
        i += 1;
    }
    assert(diff == 0 ==> left@ =~= right@);
    diff == 0
}

/// A share's credential: its token, and whether a password is behind it.
#[derive(Clone, Copy)]
pub struct ShareAuth {
    token: [u8; 32],
    password_protected: bool,
}

impl ShareAuth {
    pub closed spec fn spec_token(&self) -> Seq<u8> {
        self.token@
    }

    pub closed spec fn spec_protected(&self) -> bool {
        self.password_protected
    }

    /// The credential of a share: protected exactly where there is a stretched
    /// secret.
    #[must_use]
    pub fn new(secret: &[u8; 32], stretched: Option<[u8; 32]>) -> (auth: Self)
        ensures
            auth.spec_token() == token_of(secret@, stretched),
            auth.spec_protected() == stretched is Some,
    {
        ShareAuth {
            token: share_token(secret, stretched),
            password_protected: stretched.is_some(),
        }
    }

    /// The credential of a token that was derived elsewhere.
    #[must_use]
    pub fn from_token(token: [u8; 32], password_protected: bool) -> (auth: Self)
        ensures
            auth.spec_token() == token@,
            auth.spec_protected() == password_protected,
    {
        ShareAuth { token, password_protected }
    }

    #[must_use]
    pub fn token(&self) -> (token: &[u8; 32])
        ensures
            token@ == self.spec_token(),
    {
        &self.token
    }

    #[must_use]
    pub fn password_protected(&self) -> (protected: bool)
        ensures
            protected == self.spec_protected(),
    {
        self.password_protected
    }

    /// Whether `presented` opens the share: whether it starts with the token.
    #[must_use]
    pub fn accepts(&self, presented: &[u8]) -> (ok: bool)
        ensures
            ok == opens(self.spec_token(), presented@),
    {
        if presented.len() < SECRET_LEN {
            return false;
        }
        let bytes: [u8; 32] = crate::codec::get_array32(presented);
        ct_eq(&bytes, &self.token)
    }

    /// The code a connection with a wrong token is closed with.
    #[must_use]
    pub fn refusal_code(&self) -> (code: u32)
        ensures
            code == (if self.spec_protected() {
                CLOSE_UNAUTHORIZED
            } else {
                CLOSE_BAD_SECRET
            }),
    {
        if self.password_protected {
            CLOSE_UNAUTHORIZED
        } else {
            CLOSE_BAD_SECRET
        }
    }

    /// The reason given with [`Self::refusal_code`].
    #[must_use]
    pub fn refusal_reason(&self) -> (reason: &'static [u8])
        ensures
            reason@ == (if self.spec_protected() {
                REASON_UNAUTHORIZED@
            } else {
                REASON_BAD_SECRET@
            }),
    {
        if self.password_protected {
            REASON_UNAUTHORIZED.as_slice()
        } else {
            REASON_BAD_SECRET.as_slice()
        }
    }

    /// A description that shows whether a password is set and nothing of the
    /// token.
    #[must_use]
    pub fn redacted(&self) -> (text: String)
        ensures
            text@ == (if self.spec_protected() {
                "ShareAuth { token: ***, password_protected: true }"@
            } else {
                "ShareAuth { token: ***, password_protected: false }"@
            }),
    {
        if self.password_protected {
            "ShareAuth { token: ***, password_protected: true }".to_owned()
        } else {
            "ShareAuth { token: ***, password_protected: false }".to_owned()
        }
    }
}

/// Whether a credential with this token takes what a peer presents.
pub open spec fn opens(token: Seq<u8>, presented: Seq<u8>) -> bool {
    presented.len() >= 32 && presented.take(32) == token
}

/// Holding the ticket is not enough for a protected share: its secret opens it
/// only where stretching left the secret unchanged.
pub proof fn law_ticket_alone_does_not_open(secret: Seq<u8>, stretched: [u8; 32])
    requires
        secret.len() == 32,
        stretched@ != secret,
    ensures
        !opens(token_of(secret, Some(stretched)), secret),
        opens(token_of(secret, None), secret),
{
    assert(secret.take(32) =~= secret);
}

/// What follows the token in a request does not matter to whether it opens the
/// share.
pub proof fn law_only_the_prefix_counts(token: Seq<u8>, tail: Seq<u8>)
    requires
        token.len() == 32,
    ensures
        opens(token, token + tail),
{
    assert((token + tail).take(32) =~= token);
}

/// A share opens to the token with anything behind it, and to nothing else.
pub proof fn law_a_share_opens_to_its_token(token: Seq<u8>, presented: Seq<u8>)
    requires
        token.len() == 32,
    ensures
        opens(token, presented) <==> exists|tail: Seq<u8>| presented == #[trigger] (token + tail),
{
    if opens(token, presented) {
        assert(presented =~= token + presented.skip(32));
    }
    if exists|tail: Seq<u8>| presented == #[trigger] (token + tail) {
        let tail = choose|tail: Seq<u8>| presented == #[trigger] (token + tail);
        assert((token + tail).take(32) =~= token);
    }
}

/// A share without a password has its secret for a token; one with a password has
/// the stretched secret.
pub proof fn law_a_password_makes_the_token(secret: Seq<u8>, stretched: [u8; 32])
    ensures
        token_of(secret, None) == secret,
        token_of(secret, Some(stretched)) == stretched@,
{
}

} // verus!
