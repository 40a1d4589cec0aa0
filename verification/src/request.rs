//! The resilient request layer's logic: URL combination, request
//! validation, and the retry policy. The policy is a state machine from
//! outcome to decision; the surrounding process performs the network sends
//! and sleeps and feeds every outcome back in, so every decision here is
//! verified whatever the network did.

use vstd::prelude::*;

use crate::text::spec_find_char;
use crate::text::lemma_find_char;
use crate::text::spec_trim_trail;

verus! {

/// Header names and values, in order.
pub type HeadersMap = Vec<(String, String)>;

/// HTTP status codes.
pub type StatusVec = Vec<u16>;

/// One request to make: method, URL, extra headers, and an optional
/// override of the retryable-status list.
#[derive(Debug)]
pub struct RequestParams {
    pub method: String,
    pub url: String,
    pub headers: HeadersMap,
    pub status_forcelist: Option<StatusVec>,
}

impl Default for RequestParams {
    /// An empty request: everything blank, no override.
    fn default() -> (r: Self)
        ensures
            r.method@ == Seq::<char>::empty(),
            r.url@ == Seq::<char>::empty(),
            r.headers@ == Seq::<(String, String)>::empty(),
            r.status_forcelist is None,
    {
        let r = RequestParams {
            method: String::new(),
            url: String::new(),
            headers: Vec::new(),
            status_forcelist: None,
        };
        proof {
            assert(r.headers@ =~= Seq::<(String, String)>::empty());
        }
        r
    }
}

/// The request layer's configuration: timeout, retry bound, backoff factor,
/// default headers and the default retryable-status list.
#[derive(Debug)]
pub struct RequestMakerConfig {
    /// Connect and idle timeout, in milliseconds.
    pub timeout_ms: u64,
    /// How many retries may follow the first attempt.
    pub max_retries: u32,
    /// The base of the exponential backoff, in milliseconds.
    pub backoff_factor: u64,
    /// Headers sent with every request.
    pub headers: HeadersMap,
    /// Status codes treated as retryable failures even though the request
    /// itself succeeded.
    pub status_forcelist: StatusVec,
}

impl Default for RequestMakerConfig {
    /// Thirty seconds, three retries, doubling backoff, a browser
    /// user-agent, and the usual transient server errors.
    fn default() -> (r: Self)
        ensures
            r.timeout_ms == 30000,
            r.max_retries == 3,
            r.backoff_factor == 2,
            r.headers@.len() == 1,
            (r.headers@[0].0)@ == "user-agent"@,
            (r.headers@[0].1)@
                == "Mozilla/5.0 (Windows NT 10.0; Win64; x64; rv:109.0) Gecko/20100101 Firefox/113.0"@,
            r.status_forcelist@ == seq![500u16, 502u16, 503u16, 504u16],
    {
        let mut headers: HeadersMap = Vec::new();
        headers.push(
            (
                String::from_str("user-agent"),
                String::from_str(
                    "Mozilla/5.0 (Windows NT 10.0; Win64; x64; rv:109.0) Gecko/20100101 Firefox/113.0",
                ),
            ),
        );
        let mut status_forcelist: StatusVec = Vec::new();
        status_forcelist.push(500);
        status_forcelist.push(502);
        status_forcelist.push(503);
        status_forcelist.push(504);
        proof {
            assert(status_forcelist@ =~= seq![500u16, 502u16, 503u16, 504u16]);
        }
        RequestMakerConfig {
            timeout_ms: 30000,
            max_retries: 3,
            backoff_factor: 2,
            headers,
            status_forcelist,
        }
    }
}

/// A response whose status stood in the forcelist; carries the code and the
/// list that condemned it, for diagnostics.
#[derive(Debug)]
pub struct StatusCodeError {
    pub status_code: u16,
    pub status_forcelist: StatusVec,
}

/// A failure of the request layer.
#[derive(Debug)]
pub enum RequestMakerError {
    /// The transport failed; carries the sender's description.
    ReqwestError { message: String },
    /// Every attempt ended on a status from the forcelist.
    StatusCodeError { status_code: u16, status_forcelist: StatusVec },
    /// The method text is not a valid HTTP method.
    InvalidMethod { method: String },
}

/// What one attempt came back with: a transport failure, or a response
/// status (the body is the caller's business).
#[derive(Debug)]
pub enum FetchOutcome {
    Transport { message: String },
    Status { code: u16 },
}

/// What the caller must do next: accept the response, sleep and retry, or
/// give up with the error.
#[derive(Debug)]
pub enum RetryDecision {
    Accept { code: u16 },
    RetryAfter { delay_ms: u64 },
    Fail { error: RequestMakerError },
}

/// Whether `codes` holds `code`.
pub open spec fn spec_has_code(codes: Seq<u16>, code: u16) -> bool {
    exists|i: int| 0 <= i < codes.len() && codes[i] == code
}

/// Exec form of `spec_has_code`.
pub fn has_code(codes: &StatusVec, code: u16) -> (r: bool)
    ensures
        r == spec_has_code(codes@, code),
{
    let mut i: usize = 0;
    while i < codes.len()
        invariant
            i <= codes@.len(),
            forall|k: int| 0 <= k < i ==> codes@[k] != code,
        decreases codes@.len() - i,
    {
        if codes[i] == code {
            return true;
        }
        i = i + 1;
    }
    false
}

/// The backoff delay before retry number `attempt` (counting from one):
/// `factor` to that power, in milliseconds, saturating at the largest
/// representable delay.
pub open spec fn spec_backoff_ms(factor: int, attempt: nat) -> int
    decreases attempt,
{
    if attempt == 0 {
        1
    } else {
        let p = spec_backoff_ms(factor, (attempt - 1) as nat);
        if p * factor > u64::MAX {
            u64::MAX as int
        } else {
            p * factor
        }
    }
}

/// Exec form of `spec_backoff_ms`.
pub fn backoff_delay_ms(factor: u64, attempt: u32) -> (r: u64)
    ensures
        r == spec_backoff_ms(factor as int, attempt as nat),
    decreases attempt,
{
    if attempt == 0 {
        1
    } else {
        let p = backoff_delay_ms(factor, attempt - 1);
        if factor != 0 && p > u64::MAX / factor {
            proof {
                assert(p * factor > u64::MAX) by (nonlinear_arith)
                    requires
                        factor > 0,
                        p > u64::MAX / factor,
                        u64::MAX / factor == u64::MAX as int / factor as int,
                {
                }
            }
            u64::MAX
        } else {
            proof {
                if factor != 0 {
                    assert(p * factor <= u64::MAX) by (nonlinear_arith)
                        requires
                            factor > 0,
                            p <= u64::MAX / factor,
                            u64::MAX / factor == u64::MAX as int / factor as int,
                    {
                    }
                }
            }
            p * factor
        }
    }
}

/// Whether `http::Method::from_bytes` accepts the text.
pub uninterp spec fn method_ok(s: Seq<char>) -> bool;

/// Relies on `http::Method::from_bytes`: whether the text is a valid HTTP
/// method; its source rejects the empty string outright.
#[verifier::external_body]
fn method_parses(s: &str) -> (r: bool)
    ensures
        r == method_ok(s@),
        s@.len() == 0 ==> !r,
{
    http::Method::from_bytes(s.as_bytes()).is_ok()
}

/// What `str::to_uppercase` yields; it depends on the characters alone.
pub uninterp spec fn upper_of(s: Seq<char>) -> Seq<char>;

/// Relies on `str::to_uppercase`: the Unicode uppercase of the text.
#[verifier::external_body]
fn to_upper(s: &str) -> (r: String)
    ensures
        r@ == upper_of(s@),
{
    s.to_uppercase()
}

/// The retry policy of one request: how many attempts have failed, how many
/// retries are allowed, the backoff base, the list of statuses to treat as
/// transient, and the validated (uppercased) method text.
#[derive(Debug)]
pub struct RetryPlan {
    pub method: String,
    pub attempts_made: u32,
    pub max_retries: u32,
    pub backoff_factor: u64,
    pub forcelist: StatusVec,
}

/// Build the retry policy for one request: the method is uppercased and
/// validated (an invalid method is the only way to fail), and the
/// forcelist is the call's override when given, else the configured one.
pub fn plan_request(config: &RequestMakerConfig, params: &RequestParams) -> (r: Result<
    RetryPlan,
    RequestMakerError,
>)
    ensures
        method_ok(upper_of(params.method@)) ==> (r matches Ok(p) && p.method@ == upper_of(
            params.method@,
        ) && p.attempts_made == 0 && p.max_retries == config.max_retries && p.backoff_factor
            == config.backoff_factor && p.forcelist@ == (match params.status_forcelist {
            Some(sf) => sf@,
            None => config.status_forcelist@,
        })),
        !method_ok(upper_of(params.method@)) ==> (r matches Err(e) && e matches
            RequestMakerError::InvalidMethod { method } && method@ == params.method@),
{
    let upper = to_upper(params.method.as_str());
    if !method_parses(upper.as_str()) {
        return Err(
            RequestMakerError::InvalidMethod { method: String::from_str(params.method.as_str()) },
        );
    }
    let forcelist: StatusVec = match &params.status_forcelist {
        Some(sf) => copy_codes(sf),
        None => copy_codes(&config.status_forcelist),
    };
    Ok(
        RetryPlan {
            method: upper,
            attempts_made: 0,
            max_retries: config.max_retries,
            backoff_factor: config.backoff_factor,
            forcelist,
        },
    )
}

/// A plain copy of a status list.
fn copy_codes(codes: &StatusVec) -> (r: StatusVec)
    ensures
        r@ == codes@,
{
    let mut out: StatusVec = Vec::new();
    let mut i: usize = 0;
    while i < codes.len()
        invariant
            i <= codes@.len(),
            out@ =~= codes@.take(i as int),
        decreases codes@.len() - i,
    {
        out.push(codes[i]);
        i = i + 1;
    }
    proof {
        assert(codes@.take(codes@.len() as int) =~= codes@);
    }
    out
}

impl RetryPlan {
    /// Classify one attempt's outcome and decide what follows, per the
    /// policy of the configuration: a response whose status is off the
    /// forcelist is accepted as it is (ordinary HTTP errors included); a
    /// transport failure or a forcelisted status is retried with
    /// exponential backoff while retries remain, and otherwise ends the
    /// request with the matching error, the status one carrying the code
    /// and the forcelist.
    pub fn on_outcome(&mut self, outcome: FetchOutcome) -> (r: RetryDecision)
        ensures
            final(self).method == old(self).method,
            final(self).max_retries == old(self).max_retries,
            final(self).backoff_factor == old(self).backoff_factor,
            final(self).forcelist == old(self).forcelist,
            match outcome {
                FetchOutcome::Status { code } => if !spec_has_code(old(self).forcelist@, code) {
                    r == RetryDecision::Accept { code } && final(self).attempts_made == old(
                        self,
                    ).attempts_made
                } else if old(self).attempts_made < old(self).max_retries {
                    final(self).attempts_made == old(self).attempts_made + 1 && r
                        == (RetryDecision::RetryAfter {
                        delay_ms: spec_backoff_ms(
                            old(self).backoff_factor as int,
                            final(self).attempts_made as nat,
                        ) as u64,
                    })
                } else {
                    final(self).attempts_made == old(self).attempts_made && (r matches
                        RetryDecision::Fail { error } && error matches
                        RequestMakerError::StatusCodeError { status_code, status_forcelist }
                        && status_code == code && status_forcelist@ == old(self).forcelist@)
                },
                FetchOutcome::Transport { message } => if old(self).attempts_made < old(
                    self,
                ).max_retries {
                    final(self).attempts_made == old(self).attempts_made + 1 && r
                        == (RetryDecision::RetryAfter {
                        delay_ms: spec_backoff_ms(
                            old(self).backoff_factor as int,
                            final(self).attempts_made as nat,
                        ) as u64,
                    })
                } else {
                    final(self).attempts_made == old(self).attempts_made && (r matches
                        RetryDecision::Fail { error } && error matches
                        RequestMakerError::ReqwestError { message: m } && m == message)
                },
            },
    {
        match outcome {
            FetchOutcome::Status { code } => {
                if !has_code(&self.forcelist, code) {
                    return RetryDecision::Accept { code };
                }
                if self.attempts_made < self.max_retries {
                    self.attempts_made = self.attempts_made + 1;
                    let delay_ms = backoff_delay_ms(self.backoff_factor, self.attempts_made);
                    proof {
                        assert(0 <= spec_backoff_ms(
                            self.backoff_factor as int,
                            self.attempts_made as nat,
                        ) <= u64::MAX) by {
                            lemma_backoff_bounds(
                                self.backoff_factor as int,
                                self.attempts_made as nat,
                            );
                        }
                    }
                    RetryDecision::RetryAfter { delay_ms }
                } else {
                    RetryDecision::Fail {
                        error: RequestMakerError::StatusCodeError {
                            status_code: code,
                            status_forcelist: copy_codes(&self.forcelist),
                        },
                    }
                }
            },
            FetchOutcome::Transport { message } => {
                if self.attempts_made < self.max_retries {
                    self.attempts_made = self.attempts_made + 1;
                    let delay_ms = backoff_delay_ms(self.backoff_factor, self.attempts_made);
                    RetryDecision::RetryAfter { delay_ms }
                } else {
                    RetryDecision::Fail {
                        error: RequestMakerError::ReqwestError { message },
                    }
                }
            },
        }
    }
}

/// The backoff delay always fits the representable range.
pub proof fn lemma_backoff_bounds(factor: int, attempt: nat)
    requires
        0 <= factor <= u64::MAX,
    ensures
        0 <= spec_backoff_ms(factor, attempt) <= u64::MAX,
    decreases attempt,
{
    if attempt > 0 {
        lemma_backoff_bounds(factor, (attempt - 1) as nat);
        let p = spec_backoff_ms(factor, (attempt - 1) as nat);
        assert(p * factor >= 0) by (nonlinear_arith)
            requires
                p >= 0,
                factor >= 0,
        {
        }
    }
}

/// Merge a URL and a fragment: an empty or bare-slash fragment changes
/// nothing; a `/`-prefixed fragment extends the path (the base's query
/// moves behind it); any other fragment is appended as query parameters,
/// merged with `&` when the base already carries a query; a duplicate
/// trailing `/` on the base never survives.
pub open spec fn spec_url_combine(url: Seq<char>, urlp: Seq<char>) -> Seq<char> {
    if urlp.len() == 0 || urlp == "/"@ {
        url
    } else {
        let q = spec_find_char(url, '?');
        let base = spec_trim_trail(url.take(q), '/');
        let is_multi = q < url.len();
        let query = url.skip(q + 1);
        let has_prefix = urlp[0] == '/';
        if !is_multi && has_prefix {
            base.add(urlp)
        } else if is_multi && has_prefix {
            base.add(urlp).add("?"@).add(query)
        } else {
            let handled = spec_trim_qa(urlp);
            if is_multi {
                base.add("?"@).add(handled).add("&"@).add(query)
            } else {
                base.add("?"@).add(handled)
            }
        }
    }
}

/// Whether `c` is a query punctuation character stripped off appended
/// fragments.
pub open spec fn spec_is_qa(c: char) -> bool {
    c == '?' || c == '&'
}

/// A fragment without leading and trailing query punctuation.
pub open spec fn spec_trim_qa(s: Seq<char>) -> Seq<char> {
    spec_trim_qa_trail(spec_trim_qa_lead(s))
}

pub open spec fn spec_trim_qa_lead(s: Seq<char>) -> Seq<char>
    decreases s.len(),
{
    if s.len() > 0 && spec_is_qa(s[0]) {
        spec_trim_qa_lead(s.skip(1))
    } else {
        s
    }
}

pub open spec fn spec_trim_qa_trail(s: Seq<char>) -> Seq<char>
    decreases s.len(),
{
    if s.len() > 0 && spec_is_qa(s[s.len() - 1]) {
        spec_trim_qa_trail(s.take(s.len() - 1))
    } else {
        s
    }
}

proof fn lemma_trim_qa_lead_run(s: Seq<char>, i: int)
    requires
        0 <= i <= s.len(),
        forall|k: int| 0 <= k < i ==> spec_is_qa(s[k]),
        i == s.len() || !spec_is_qa(s[i]),
    ensures
        spec_trim_qa_lead(s) == s.skip(i),
    decreases i,
{
    if i == 0 {
        assert(s.skip(0) =~= s);
    } else {
        lemma_trim_qa_lead_run(s.skip(1), i - 1);
        assert(s.skip(1).skip(i - 1) =~= s.skip(i));
    }
}

proof fn lemma_trim_qa_trail_run(s: Seq<char>, j: int)
    requires
        0 <= j <= s.len(),
        forall|k: int| j <= k < s.len() ==> spec_is_qa(s[k]),
        j == 0 || !spec_is_qa(s[j - 1]),
    ensures
        spec_trim_qa_trail(s) == s.take(j),
    decreases s.len() - j,
{
    if j == s.len() {
        assert(s.take(j) =~= s);
    } else {
        lemma_trim_qa_trail_run(s.take(s.len() - 1), j);
        assert(s.take(s.len() - 1).take(j) =~= s.take(j));
    }
}

/// Exec form of `spec_trim_qa`.
fn trim_qa(s: &str) -> (r: String)
    ensures
        r@ == spec_trim_qa(s@),
{
    let n = s.unicode_len();
    let mut i: usize = 0;
    while i < n && (s.get_char(i) == '?' || s.get_char(i) == '&')
        invariant
            n == s@.len(),
            i <= n,
            forall|k: int| 0 <= k < i ==> spec_is_qa(s@[k]),
        decreases n - i,
    {
        i = i + 1;
    }
    let mut j: usize = n;
    while j > i && (s.get_char(j - 1) == '?' || s.get_char(j - 1) == '&')
        invariant
            n == s@.len(),
            i <= j <= n,
            forall|k: int| j <= k < n ==> spec_is_qa(s@[k]),
        decreases j,
    {
        j = j - 1;
    }
    let sub = s.substring_char(i, j);
    proof {
        lemma_trim_qa_lead_run(s@, i as int);
        if j == i {
            lemma_trim_qa_trail_run(s@.skip(i as int), 0);
        } else {
            lemma_trim_qa_trail_run(s@.skip(i as int), j - i);
        }
        assert(s@.skip(i as int).take(j - i) =~= s@.subrange(i as int, j as int));
    }
    String::from_str(sub)
}

/// Merge a URL and a fragment, per `spec_url_combine`.
#[verifier::loop_isolation(false)]
pub fn url_combine(url: &str, urlp: &str) -> (r: String)
    ensures
        r@ == spec_url_combine(url@, urlp@),
{
    let pn = urlp.unicode_len();
    if pn == 0 || (pn == 1 && urlp.get_char(0) == '/') {
        proof {
            reveal_strlit("/");
            if pn == 1 && urlp@[0] == '/' {
                assert(urlp@ =~= "/"@);
            }
        }
        return String::from_str(url);
    }
    proof {
        reveal_strlit("/");
        if urlp@ == "/"@ {
            assert(urlp@.len() == 1 && urlp@[0] == '/');
        }
    }
    let n = url.unicode_len();
    let mut q: usize = 0;
    while q < n && !(url.get_char(q) == '?')
        invariant
            n == url@.len(),
            q <= n,
            forall|k: int| 0 <= k < q ==> url@[k] != '?',
        decreases n - q,
    {
        q = q + 1;
    }
    proof {
        lemma_find_char(url@, '?');
        let f = spec_find_char(url@, '?');
        if q < n {
            if f < q {
                assert(url@[f] == '?');
            }
            if q < f {
                assert(url@[q as int] != '?');
            }
        } else {
            if f < q {
                assert(url@[f] == '?');
            }
        }
        assert(f == q as int);
    }
    let mut b: usize = q;
    while b > 0 && url.get_char(b - 1) == '/'
        invariant
            b <= q <= n,
            n == url@.len(),
            forall|k: int| b <= k < q ==> url@[k] == '/',
        decreases b,
    {
        b = b - 1;
    }
    let base2 = String::from_str(url.substring_char(0, b));
    proof {
        if b == 0 {
            lemma_trim_trail_run_url(url@.take(q as int), 0);
        } else {
            lemma_trim_trail_run_url(url@.take(q as int), b as int);
        }
        assert(url@.take(q as int).take(b as int) =~= url@.subrange(0, b as int));
    }
    let has_prefix = urlp.get_char(0) == '/';
    let is_multi = q < n;
    let mut out = base2;
    if !is_multi && has_prefix {
        out.append(urlp);
        return out;
    }
    if is_multi && has_prefix {
        out.append(urlp);
        out.append("?");
        let query = url.substring_char(q + 1, n);
        out.append(query);
        proof {
            reveal_strlit("?");
            assert(url@.subrange(q + 1, n as int) =~= url@.skip(q + 1));
        }
        return out;
    }
    let handled = trim_qa(urlp);
    out.append("?");
    out.append(handled.as_str());
    if is_multi {
        out.append("&");
        let query = url.substring_char(q + 1, n);
        out.append(query);
        proof {
            reveal_strlit("?");
            reveal_strlit("&");
            assert(url@.subrange(q + 1, n as int) =~= url@.skip(q + 1));
        }
        return out;
    }
    proof {
        reveal_strlit("?");
    }
    out
}

/// `spec_trim_trail` of a URL head pinned down by its trailing-slash run.
proof fn lemma_trim_trail_run_url(s: Seq<char>, j: int)
    requires
        0 <= j <= s.len(),
        forall|k: int| j <= k < s.len() ==> s[k] == '/',
        j == 0 || s[j - 1] != '/',
    ensures
        spec_trim_trail(s, '/') == s.take(j),
    decreases s.len() - j,
{
    if j == s.len() {
        assert(s.take(j) =~= s);
    } else {
        lemma_trim_trail_run_url(s.take(s.len() - 1), j);
        assert(s.take(s.len() - 1).take(j) =~= s.take(j));
    }
}

/// Fold `url_combine` over a list of parts, left to right.
pub open spec fn spec_url_combine_all(urls: Seq<Seq<char>>) -> Seq<char>
    decreases urls.len(),
{
    if urls.len() == 0 {
        Seq::empty()
    } else if urls.len() == 1 {
        urls[0]
    } else {
        spec_url_combine(spec_url_combine_all(urls.take(urls.len() - 1)), urls.last())
    }
}

/// The views of a list of string slices.
pub open spec fn strs_model(ss: Seq<&str>) -> Seq<Seq<char>> {
    Seq::new(ss.len(), |i: int| (ss[i])@)
}

/// Merge every part into one URL, left to right.
#[verifier::loop_isolation(false)]
pub fn url_combine_all(urls: &[&str]) -> (r: String)
    requires
        urls@.len() >= 1,
    ensures
        r@ == spec_url_combine_all(strs_model(urls@)),
{
    let ghost gm = strs_model(urls@);
    let mut out = String::from_str(urls[0]);
    proof {
        assert(gm.take(1) =~= seq![gm[0]]);
    }
    let mut i: usize = 1;
    while i < urls.len()
        invariant
            1 <= i <= gm.len(),
            out@ == spec_url_combine_all(gm.take(i as int)),
        decreases gm.len() - i,
    {
        out = url_combine(out.as_str(), urls[i]);
        proof {
            assert(gm.take(i + 1).take(i as int) =~= gm.take(i as int));
            assert(gm.take(i + 1).last() == gm[i as int]);
        }
        i = i + 1;
    }
    proof {
        assert(gm.take(gm.len() as int) =~= gm);
    }
    out
}

} // verus!
