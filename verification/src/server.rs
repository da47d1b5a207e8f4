//! What the metrics endpoint answers.

use vstd::prelude::*;
use vstd::string::{StrSliceExecFns, StringExecFns};

use crate::metrics::{EngineMetrics, MetricsSnapshot};

verus! {

/// The answer to a request.
pub struct MetricsResponse {
    /// The HTTP status code.
    pub status: u16,
    pub body: String,
    pub content_type: String,
    /// The origins whose pages may read the answer, for the header `Access-Control-Allow-Origin`.
    pub allow_origin: String,
}

/// The metrics are served under this path.
pub open spec fn is_metrics_path(path: Seq<char>) -> bool {
    path == "/metrics"@ || path == "/"@
}

/// There are just two paths under which the metrics are served: `/metrics` and `/`.
pub proof fn two_paths_show_the_metrics(path: Seq<char>)
    ensures
        is_metrics_path(path) <==> path == seq!['/', 'm', 'e', 't', 'r', 'i', 'c', 's'] || path
            == seq!['/'],
{
    reveal_strlit("/metrics");
    reveal_strlit("/");
    assert("/metrics"@ =~= seq!['/', 'm', 'e', 't', 'r', 'i', 'c', 's']);
    assert("/"@ =~= seq!['/']);
}

/// Answers a request for `path`: with the counters at `now`, or that there is nothing there.
pub fn metrics_response(path: &str, metrics: &mut EngineMetrics, now: u128) -> (r: MetricsResponse)
    ensures
        r.content_type@ == "application/json"@,
        r.allow_origin@ == "*"@,
        if is_metrics_path(path@) {
            &&& r.status == 200
            &&& final(metrics)@ == old(metrics)@.trimmed(now)
            &&& exists|snapshot: MetricsSnapshot| #[trigger]
                snapshot.shows(final(metrics)@) && r.body@ == snapshot.json()
        } else {
            &&& r.status == 404
            &&& final(metrics)@ == old(metrics)@
            &&& r.body@ == "{\"error\":\"not found\"}"@
        },
{
    let content_type = String::from_str("application/json");
    let allow_origin = String::from_str("*");
    if same_text(path, "/metrics") || same_text(path, "/") {
        let snapshot = metrics.snapshot(now);
        MetricsResponse { status: 200, body: snapshot.to_json(), content_type, allow_origin }
    } else {
        MetricsResponse {
            status: 404,
            body: String::from_str("{\"error\":\"not found\"}"),
            content_type,
            allow_origin,
        }
    }
}

/// Whether two texts are equal.
fn same_text(a: &str, b: &str) -> (r: bool)
    ensures
        r == (a@ == b@),
{
    let n = a.unicode_len();
    if n != b.unicode_len() {
        return false;
    }
    let mut i: usize = 0;
    while i < n
        invariant
            i <= n,
            n == a@.len(),
            n == b@.len(),
            forall|j: int| 0 <= j < i ==> a@[j] == b@[j],
        decreases n - i,
    {
        if a.get_char(i) != b.get_char(i) {
            return false;
        }
        i = i + 1;
    }
    assert(a@ =~= b@);
    true
}

} // verus!
