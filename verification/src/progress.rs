//! Counters of the HTTP traffic of all clients.

use vstd::prelude::*;

verus! {

/// The traffic of all clients so far. The counters wrap around where
/// they overflow.
#[derive(Clone, Copy, Debug, PartialEq, Eq, Structural)]
pub struct Total {
    pub download_bytes: usize,
    pub upload_bytes: usize,
    pub request_count: usize,
}

/// The sum of two counts as a counter holds it.
pub open spec fn wrapped_sum(a: usize, b: usize) -> usize {
    if a + b > usize::MAX {
        (a + b - usize::MAX - 1) as usize
    } else {
        (a + b) as usize
    }
}

impl Total {
    /// No traffic yet.
    pub fn new() -> (r: Total)
        ensures
            r == (Total { download_bytes: 0, upload_bytes: 0, request_count: 0 }),
    {
        Total { download_bytes: 0, upload_bytes: 0, request_count: 0 }
    }

    /// Counts one more request.
    pub fn on_new_request(&mut self)
        ensures
            *final(self) == (Total { request_count: wrapped_sum(old(self).request_count, 1), ..*old(self) }),
    {
        self.request_count = self.request_count.wrapping_add(1);
    }

    /// Counts `n` more bytes received.
    pub fn on_download_bytes(&mut self, n: usize)
        ensures
            *final(self) == (Total { download_bytes: wrapped_sum(old(self).download_bytes, n), ..*old(self) }),
    {
        self.download_bytes = self.download_bytes.wrapping_add(n);
    }

    /// Counts `n` more bytes sent.
    pub fn on_upload_bytes(&mut self, n: usize)
        ensures
            *final(self) == (Total { upload_bytes: wrapped_sum(old(self).upload_bytes, n), ..*old(self) }),
    {
        self.upload_bytes = self.upload_bytes.wrapping_add(n);
    }
}

/// The bytes received, the bytes sent and the number of requests so far.
pub fn current_progress(total: &Total) -> (r: (usize, usize, usize))
    ensures
        r == (total.download_bytes, total.upload_bytes, total.request_count),
{
    (total.download_bytes, total.upload_bytes, total.request_count)
}

/// Whether the certificates of servers go unchecked.
#[derive(Clone, Copy, Debug, PartialEq, Eq, Structural)]
pub struct InsecureMode {
    pub enabled: bool,
}

/// Stops checking the certificates of servers, for good.
pub fn enable_insecure_mode(mode: &mut InsecureMode)
    ensures
        final(mode).enabled,
{
    mode.enabled = true;
}

} // verus!
