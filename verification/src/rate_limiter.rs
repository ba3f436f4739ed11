//! The token-bucket budgets for the three downstream services.
//!
//! Three independent throttles exist for the process lifetime, one per
//! dependency, sharing no tokens. The waiting itself is asynchronous and
//! lives with the embedding program; these are the quotas it must apply.

use vstd::prelude::*;

verus! {

/// One refill quota: `tokens` new permits per window of
/// `window_seconds`.
pub struct Quota {
    pub tokens: u32,
    pub window_seconds: u32,
}

/// The per-service quotas.
pub struct RateQuotas {
    /// Scrape target: fast enough for the workload without being hung
    /// up on.
    pub scrape: Quota,
    /// Chat API: its word budget allows about 600 description
    /// translations per minute; stay conservatively under it.
    pub chatgpt: Quota,
    /// Trend API: the published quota is 600 requests per minute; stay
    /// safely under it.
    pub trends: Quota,
}

/// A quota is usable when it grants at least one token per window.
pub open spec fn quota_valid(q: Quota) -> bool {
    q.tokens >= 1 && q.window_seconds >= 1
}

/// The quotas the pipeline runs with: 20 scrape requests per second, 500
/// chat calls per minute, 550 trend calls per minute.
pub fn default_quotas() -> (r: RateQuotas)
    ensures
        r.scrape == (Quota { tokens: 20u32, window_seconds: 1u32 }),
        r.chatgpt == (Quota { tokens: 500u32, window_seconds: 60u32 }),
        r.trends == (Quota { tokens: 550u32, window_seconds: 60u32 }),
        quota_valid(r.scrape) && quota_valid(r.chatgpt) && quota_valid(r.trends),
{
    RateQuotas {
        scrape: Quota { tokens: 20, window_seconds: 1 },
        chatgpt: Quota { tokens: 500, window_seconds: 60 },
        trends: Quota { tokens: 550, window_seconds: 60 },
    }
}

} // verus!
