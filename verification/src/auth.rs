use vstd::prelude::*;

verus! {

/// Mathematical view of [`Claims`].
#[verifier::ext_equal]
pub struct ClaimsV {
    pub domain: Option<Seq<char>>,
}

/// The claims a validated token carries, as far as authorization reads them:
/// the domain-of-issuance claim, when one is present.
///
/// Token signature checking happens at the transport edge; by the time a
/// request reaches the layer its claims are plain data.
pub struct Claims {
    pub domain: Option<String>,
}

impl View for Claims {
    type V = ClaimsV;

    open spec fn view(&self) -> ClaimsV {
        ClaimsV { domain: self.domain.deep_view() }
    }
}

impl Clone for Claims {
    fn clone(&self) -> (r: Self)
        ensures
            r@ == self@,
    {
        let r = Claims { domain: crate::models::clone_opt_string(&self.domain) };
        proof {
            assert(r@ =~= self@);
        }
        r
    }
}

/// The view of optional claims.
pub open spec fn opt_claims_view(o: Option<Claims>) -> Option<ClaimsV> {
    match o {
        Some(c) => Some(c@),
        None => None,
    }
}

/// Whether claims pass the required domain: present, and their domain of
/// issuance equal to it; any absence or mismatch fails closed.
pub open spec fn claims_accepted(claims: Option<ClaimsV>, required_domain: Seq<char>) -> bool {
    claims matches Some(c) && c.domain == Some(required_domain)
}

/// The authorization gate: with the bypass switch set everything is
/// authorized, otherwise exactly the claims the required domain accepts.
pub open spec fn authorized(
    claims: Option<ClaimsV>,
    required_domain: Seq<char>,
    disable_auth: bool,
) -> bool {
    disable_auth || claims_accepted(claims, required_domain)
}

/// Decides the authorization gate; purely evaluative, no side effect.
pub fn authorize(claims: &Option<Claims>, required_domain: &String, disable_auth: bool) -> (r:
    bool)
    ensures
        r == authorized(opt_claims_view(*claims), required_domain@, disable_auth),
{
    if disable_auth {
        return true;
    }
    match claims {
        Some(c) => match &c.domain {
            Some(d) => *d == *required_domain,
            None => false,
        },
        None => false,
    }
}

} // verus!
