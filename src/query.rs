use vstd::prelude::*;

use crate::alpha::{alpha_lookup, AlphaManager, AlphaResult};
use crate::beta::{beta_lookup, BetaManager, BetaResult};

verus! {

/// What a query yields: for the requester and for the remote peer, the conclusion of each
/// test in which that peer has a record.
#[derive(Clone, Copy, Debug, PartialEq, Eq)]
pub struct QueryResult {
    pub requester_alpha: Option<(AlphaResult, usize)>,
    pub requester_beta: Option<(BetaResult, usize)>,
    pub remote_alpha: Option<(AlphaResult, usize)>,
    pub remote_beta: Option<(BetaResult, usize)>,
}

/// Looks both peers up in both stores and concludes on each record found; a peer without a
/// record in a store gives no conclusion there.
pub fn query(alpha: &AlphaManager, beta: &BetaManager, requester: &str, remote: &str) -> (r:
    QueryResult)
    requires
        alpha.wf(),
        beta.wf(),
    ensures
        r.requester_alpha == alpha_lookup(alpha@, requester@),
        r.requester_beta == beta_lookup(beta@, requester@),
        r.remote_alpha == alpha_lookup(alpha@, remote@),
        r.remote_beta == beta_lookup(beta@, remote@),
{
    QueryResult {
        requester_alpha: alpha.conclusion_for(requester),
        requester_beta: beta.conclusion_for(requester),
        remote_alpha: alpha.conclusion_for(remote),
        remote_beta: beta.conclusion_for(remote),
    }
}

} // verus!
