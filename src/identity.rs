use vstd::prelude::*;

verus! {

/// Why a session could not be established on an endpoint.
#[derive(Debug, Clone, Copy, PartialEq, Eq)]
pub enum IdentityError {
    /// The endpoint is owned by another process than the expected one.
    Mismatch { expected: u32, observed: u32 },
    /// An owner was expected but the platform could not tell who owns the endpoint.
    Unknown { expected: u32 },
}

/// The verdict on a connection whose endpoint is owned by `observed` when the
/// caller asked for `expected` (absent: no check at all).
pub open spec fn identity_verdict(expected: Option<u32>, observed: Option<u32>) -> Result<(), IdentityError> {
    match expected {
        None => Ok(()),
        Some(p) => match observed {
            Some(q) => if p == q {
                Ok(())
            } else {
                Err(IdentityError::Mismatch { expected: p, observed: q })
            },
            None => Err(IdentityError::Unknown { expected: p }),
        },
    }
}

/// Decides whether the process owning a freshly connected endpoint is the one
/// the caller expected. With no expectation the check is skipped.
pub fn verify_identity(expected: Option<u32>, observed: Option<u32>) -> (r: Result<(), IdentityError>)
    ensures
        r == identity_verdict(expected, observed),
{
    match expected {
        None => Ok(()),
        Some(p) => match observed {
            Some(q) => {
                if p == q {
                    Ok(())
                } else {
                    Err(IdentityError::Mismatch { expected: p, observed: q })
                }
            },
            None => Err(IdentityError::Unknown { expected: p }),
        },
    }
}

/// A connection to an endpoint owned by another process than the expected one
/// is always refused, and with no expectation every owner is accepted.
pub proof fn lemma_identity_guard(p: u32, q: u32, observed: Option<u32>)
    ensures
        p != q ==> identity_verdict(Some(p), Some(q)) is Err,
        identity_verdict(None, observed) is Ok,
{
}

} // verus!
