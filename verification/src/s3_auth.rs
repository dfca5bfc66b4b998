//! Signing of requests to S3: which hosts are signed for, in which region, and
//! when credentials are renewed.
use crate::text;
use aws_credential_types::Credentials;
use aws_sigv4::http_request::{
    sign, PayloadChecksumKind, SignableBody, SignableRequest, SigningSettings,
};
use aws_sigv4::sign::v4::SigningParams;
use std::iter::empty;
use std::time::{Duration, UNIX_EPOCH};
use vstd::prelude::*;

verus! {

/// Credentials are renewed this long before they expire, in nanoseconds.
pub const REFRESH_SLACK_NANOS: u128 = 300_000_000_000;

/// When the year ten thousand begins, in seconds since 1970.
pub const YEAR_TEN_THOUSAND: u64 = 253_402_300_800;

/// How long to wait for the first credentials, in seconds.
pub const FIRST_RESOLVE_TIMEOUT_SECS: u64 = 20;

/// Where a URL's authority begins and ends: between its first `://` and the
/// next, or its end.
pub open spec fn after_scheme(url: Seq<char>) -> Option<Seq<char>> {
    match text::first_at(url, "://"@, 0) {
        None => None,
        Some(i) => {
            let from = i + "://"@.len();
            match text::first_at(url, "://"@, from) {
                Some(j) => Some(url.subrange(from, j)),
                None => Some(url.skip(from)),
            }
        },
    }
}

/// What stands before the path, the query and the fragment.
pub open spec fn authority_of(rest: Seq<char>) -> Seq<char> {
    text::before_char(text::before_char(text::before_char(rest, '/'), '?'), '#')
}

/// The host of a URL, without user and port; none if there is no scheme or the
/// host is empty.
pub open spec fn host_of(url: Seq<char>) -> Option<Seq<char>> {
    match after_scheme(url) {
        None => None,
        Some(rest) => {
            let authority = authority_of(rest);
            let host = text::before_char(text::after_last_char(authority, '@'), ':');
            if host.len() == 0 {
                None
            } else {
                Some(host)
            }
        },
    }
}

/// The host of a URL.
pub fn url_host(url: &str) -> (r: Option<Vec<char>>)
    ensures
        match host_of(url@) {
            Some(h) => r matches Some(v) && v@ == h,
            None => r is None,
        },
{
    let chars = text::to_chars(url);
    let mark = text::to_chars("://");
    let i: usize = match text::find_text(&chars, &mark, 0) {
        Some(i) => i,
        None => {
            return None;
        },
    };
    assert(chars@.len() == chars.len());
    let from: usize = i + mark.len();
    let end: usize = match text::find_text(&chars, &mark, from) {
        Some(j) => j,
        None => chars.len(),
    };
    let rest = text::slice_of(&chars, from, end);
    assert(url@.subrange(from as int, url@.len() as int) =~= url@.skip(from as int));
    let before_path = text::cut_before(&rest, '/');
    let before_query = text::cut_before(&before_path, '?');
    let authority = text::cut_before(&before_query, '#');
    let at = text::cut_after_last(&authority, '@');
    let host = text::cut_before(&at, ':');
    if host.len() == 0 {
        None
    } else {
        Some(host)
    }
}

/// Whether a label of a host names the service: `s3`, or `s3-` or `s3express-`
/// and more.
pub open spec fn names_s3(label: Seq<char>) -> bool {
    label == "s3"@ || text::occurs_at(label, "s3-"@, 0) || text::occurs_at(label, "s3express-"@, 0)
}

/// Whether the labels of a host end in those of the provider, with one before
/// them that names the service.
pub open spec fn labels_of_s3(labels: Seq<Seq<char>>) -> bool {
    let n = labels.len() as int;
    &&& n >= 2
    &&& labels[n - 2] == "amazonaws"@
    &&& labels[n - 1] == "com"@
    &&& exists|i: int| 0 <= i < n - 2 && names_s3(#[trigger] labels[i])
}

/// Whether a URL points at S3.
pub open spec fn points_at_s3(url: Seq<char>) -> bool {
    host_of(url) matches Some(h) && labels_of_s3(text::split(h, '.'))
}

fn is_s3_label(label: &[char]) -> (r: bool)
    ensures
        r == names_s3(label@),
{
    let bare = text::to_chars("s3");
    let dashed = text::to_chars("s3-");
    let express = text::to_chars("s3express-");
    same_chars(label, &bare) || text::starts_with(label, &dashed) || text::starts_with(
        label,
        &express,
    )
}

/// Whether a URL points at S3: only such requests are signed.
pub fn is_s3_host(url: &str) -> (r: bool)
    ensures
        r == points_at_s3(url@),
{
    let host = match url_host(url) {
        Some(h) => h,
        None => {
            return false;
        },
    };
    let parts = text::split_at_char(&host, '.');
    let ghost labels = text::parts_view(parts@);
    assert(labels.len() == parts@.len());
    if parts.len() < 2 {
        return false;
    }
    let n = parts.len();
    let provider = text::to_chars("amazonaws");
    let top = text::to_chars("com");
    assert(labels[n - 2] == parts@[n - 2]@ && labels[n - 1] == parts@[n - 1]@);
    if !same_chars(&parts[n - 2], &provider) || !same_chars(&parts[n - 1], &top) {
        return false;
    }
    let mut i: usize = 0;
    while i < n - 2
        invariant
            2 <= n == parts@.len(),
            i <= n - 2,
            labels == text::parts_view(parts@),
            labels.len() == n,
            labels[n - 2] == "amazonaws"@,
            labels[n - 1] == "com"@,
            host_of(url@) matches Some(h) && labels == text::split(h, '.'),
            forall|j: int| 0 <= j < i ==> !names_s3(#[trigger] labels[j]),
        decreases n - i,
    {
        assert(labels[i as int] == parts@[i as int]@);
        if is_s3_label(&parts[i]) {
            assert(names_s3(labels[i as int]));
            return true;
        }
        i = i + 1;
    }
    false
}

/// Where the provider's label last stands among the first `n` labels of a
/// host.
pub open spec fn provider_place(labels: Seq<Seq<char>>, n: nat) -> Option<int>
    decreases n,
{
    if n == 0 {
        None
    } else if labels[n - 1] == "amazonaws"@ {
        Some(n - 1)
    } else {
        provider_place(labels, (n - 1) as nat)
    }
}

/// Where a label that names the service last stands among the first `n` labels
/// of a host.
pub open spec fn service_place(labels: Seq<Seq<char>>, n: nat) -> Option<int>
    decreases n,
{
    if n == 0 {
        None
    } else if names_s3(labels[n - 1]) {
        Some(n - 1)
    } else {
        service_place(labels, (n - 1) as nat)
    }
}

/// Where the label behind the service's stands, past `dualstack`.
pub open spec fn behind_service(labels: Seq<Seq<char>>, i: int) -> int {
    if i + 1 < labels.len() && labels[i + 1] == "dualstack"@ {
        i + 2
    } else {
        i + 1
    }
}

/// The region named before the provider's label, which stands at `a`: the label
/// behind that of the service, or what follows `s3-` in a service's label right
/// before the provider.
pub open spec fn region_before(labels: Seq<Seq<char>>, a: int) -> Option<Seq<char>> {
    match service_place(labels, a as nat) {
        None => None,
        Some(i) => if behind_service(labels, i) < a {
            Some(labels[behind_service(labels, i)])
        } else if i + 1 == a && text::occurs_at(labels[i], "s3-"@, 0) {
            Some(labels[i].skip("s3-"@.len() as int))
        } else {
            None
        },
    }
}

/// The region named in the labels of a host of another provider, from label `i`
/// on: what follows `s3-` in a label, or the label behind `s3`.
pub open spec fn region_elsewhere(labels: Seq<Seq<char>>, i: int) -> Option<Seq<char>>
    decreases labels.len() - i,
{
    if i < 0 || i >= labels.len() {
        None
    } else if text::occurs_at(labels[i], "s3-"@, 0) {
        Some(labels[i].skip("s3-"@.len() as int))
    } else if labels[i] == "s3"@ {
        if i + 1 < labels.len() {
            Some(labels[i + 1])
        } else {
            None
        }
    } else {
        region_elsewhere(labels, i + 1)
    }
}

/// The region named in the labels of a host.
pub open spec fn region_in(labels: Seq<Seq<char>>) -> Option<Seq<char>> {
    match provider_place(labels, labels.len()) {
        Some(a) => region_before(labels, a),
        None => region_elsewhere(labels, 0),
    }
}

/// The region that a URL names.
pub open spec fn region_of(url: Seq<char>) -> Option<Seq<char>> {
    match host_of(url) {
        Some(h) => region_in(text::split(h, '.')),
        None => None,
    }
}

fn find_provider(parts: &Vec<Vec<char>>) -> (r: Option<usize>)
    ensures
        match provider_place(text::parts_view(parts@), parts@.len()) {
            Some(a) => r == Some(a as usize) && 0 <= a < parts@.len(),
            None => r is None,
        },
{
    let provider = text::to_chars("amazonaws");
    let ghost labels = text::parts_view(parts@);
    let mut n: usize = parts.len();
    while n > 0
        invariant
            n <= parts@.len(),
            labels == text::parts_view(parts@),
            provider@ == "amazonaws"@,
            provider_place(labels, parts@.len()) == provider_place(labels, n as nat),
        decreases n,
    {
        assert(labels[n - 1] == parts@[n - 1]@);
        if same_chars(&parts[n - 1], &provider) {
            return Some(n - 1);
        }
        n = n - 1;
    }
    None
}

fn find_service(parts: &Vec<Vec<char>>, a: usize) -> (r: Option<usize>)
    requires
        a <= parts@.len(),
    ensures
        match service_place(text::parts_view(parts@), a as nat) {
            Some(i) => r == Some(i as usize) && 0 <= i < a,
            None => r is None,
        },
{
    let ghost labels = text::parts_view(parts@);
    let mut n: usize = a;
    while n > 0
        invariant
            n <= a <= parts@.len(),
            labels == text::parts_view(parts@),
            service_place(labels, a as nat) == service_place(labels, n as nat),
        decreases n,
    {
        assert(labels[n - 1] == parts@[n - 1]@);
        if is_s3_label(&parts[n - 1]) {
            return Some(n - 1);
        }
        n = n - 1;
    }
    None
}

/// What follows `s3-` in a label, if it begins so.
fn after_dash(label: &Vec<char>) -> (r: Option<String>)
    ensures
        match r {
            Some(s) => text::occurs_at(label@, "s3-"@, 0) && s@ == label@.skip("s3-"@.len() as int),
            None => !text::occurs_at(label@, "s3-"@, 0),
        },
{
    let dashed = text::to_chars("s3-");
    if text::starts_with(label, &dashed) {
        let rest = text::slice_of(label, dashed.len(), label.len());
        assert(label@.subrange(dashed@.len() as int, label@.len() as int) =~= label@.skip(
            dashed@.len() as int,
        ));
        Some(text::from_chars(&rest))
    } else {
        None
    }
}

/// Whether this is the region, if there is one.
spec fn is_region(r: Option<String>, region: Option<Seq<char>>) -> bool {
    match region {
        Some(g) => r matches Some(s) && s@ == g,
        None => r is None,
    }
}

fn find_region_before(parts: &Vec<Vec<char>>, a: usize) -> (r: Option<String>)
    requires
        a < parts@.len(),
    ensures
        is_region(r, region_before(text::parts_view(parts@), a as int)),
{
    let ghost labels = text::parts_view(parts@);
    assert(labels.len() == parts@.len());
    let i: usize = match find_service(parts, a) {
        Some(i) => i,
        None => {
            return None;
        },
    };
    let dual = text::to_chars("dualstack");
    assert(labels[i + 1] == parts@[i + 1]@);
    assert(i + 2 <= parts.len());
    let behind: usize = if same_chars(&parts[i + 1], &dual) {
        i + 2
    } else {
        i + 1
    };
    if behind < a {
        assert(labels[behind as int] == parts@[behind as int]@);
        return Some(text::from_chars(&parts[behind]));
    }
    assert(labels[i as int] == parts@[i as int]@);
    if i + 1 == a {
        after_dash(&parts[i])
    } else {
        None
    }
}

fn find_region_elsewhere(parts: &Vec<Vec<char>>) -> (r: Option<String>)
    ensures
        is_region(r, region_elsewhere(text::parts_view(parts@), 0)),
{
    let bare = text::to_chars("s3");
    let ghost labels = text::parts_view(parts@);
    assert(labels.len() == parts@.len());
    let mut i: usize = 0;
    while i < parts.len()
        invariant
            i <= parts@.len(),
            labels == text::parts_view(parts@),
            labels.len() == parts@.len(),
            bare@ == "s3"@,
            region_elsewhere(labels, 0) == region_elsewhere(labels, i as int),
        decreases parts.len() - i,
    {
        assert(labels[i as int] == parts@[i as int]@);
        let dashed = after_dash(&parts[i]);
        if dashed.is_some() {
            return dashed;
        }
        if same_chars(&parts[i], &bare) {
            if i + 1 < parts.len() {
                assert(labels[i + 1] == parts@[i + 1]@);
                return Some(text::from_chars(&parts[i + 1]));
            }
            return None;
        }
        i = i + 1;
    }
    None
}

/// The region that a URL names, if it names one.
pub fn region_from_s3_url(url: &str) -> (r: Option<String>)
    ensures
        match region_of(url@) {
            Some(g) => r matches Some(s) && s@ == g,
            None => r is None,
        },
{
    let host = match url_host(url) {
        Some(h) => h,
        None => {
            return None;
        },
    };
    let parts = text::split_at_char(&host, '.');
    match find_provider(&parts) {
        Some(a) => find_region_before(&parts, a),
        None => find_region_elsewhere(&parts),
    }
}

fn same_chars(a: &[char], b: &[char]) -> (r: bool)
    ensures
        r == (a@ == b@),
{
    if a.len() != b.len() {
        return false;
    }
    let r = text::matches_at(a, b, 0);
    assert(a@.subrange(0, a@.len() as int) =~= a@);
    r
}

/// The credentials to sign with.
pub struct CachedCreds {
    pub access_key_id: String,
    pub secret_access_key: String,
    pub session_token: Option<String>,
}

/// Signs requests, once there are credentials.
pub struct S3Signer {
    pub creds: Option<CachedCreds>,
    pub fallback_region: String,
}

/// The headers that signing a request for a URL gives, by name and value, or
/// what went wrong.
pub uninterp spec fn sigv4_headers(
    method: Seq<char>,
    service: Seq<char>,
    access_key_id: Seq<char>,
    secret_access_key: Seq<char>,
    session_token: Option<Seq<char>>,
    region: Seq<char>,
    url: Seq<char>,
    unix_secs: u64,
) -> Result<Seq<(Seq<char>, Seq<char>)>, Seq<char>>;

/// How many bytes a URI may have.
pub const MAX_URI_BYTES: usize = 65_534;

/// Whether signing can deal with a URL, if it can read it at all: it has a
/// scheme before its path, and its query cannot outgrow a URI when it is
/// written anew with three bytes to each of its own.
pub open spec fn signable(url: Seq<char>) -> bool {
    &&& text::first_at(url, "://"@, 0) is Some
    &&& url[0] != '/'
    &&& url.contains('?') ==> 3 * vstd::utf8::encode_utf8(url).len() <= MAX_URI_BYTES
}

/// Whether signing can deal with a URL (see `signable`).
pub fn is_signable(url: &str) -> (r: bool)
    ensures
        r == signable(url@),
{
    let chars = text::to_chars(url);
    let mark = text::to_chars("://");
    if text::find_text(&chars, &mark, 0).is_none() {
        return false;
    }
    proof {
        reveal_strlit("://");
    }
    assert(chars@.len() == chars.len());
    if chars[0] == '/' {
        return false;
    }
    let query = text::find_char(&chars, '?', 0);
    let bytes = url.as_bytes().len();
    match query {
        Some(_) => bytes <= MAX_URI_BYTES / 3,
        None => true,
    }
}

/// A text that may be missing, by its contents.
pub open spec fn maybe(s: Option<String>) -> Option<Seq<char>> {
    match s {
        Some(t) => Some(t@),
        None => None,
    }
}

/// Whether these are the headers, or this the error.
pub open spec fn are_headers(
    r: Result<Vec<(String, String)>, String>,
    expected: Result<Seq<(Seq<char>, Seq<char>)>, Seq<char>>,
) -> bool {
    match (r, expected) {
        (Ok(v), Ok(h)) => v@.map_values(|p: (String, String)| (p.0@, p.1@)) == h,
        (Err(e), Err(words)) => e@ == words,
        _ => false,
    }
}

/// `aws_sigv4::http_request::sign` signs a request with an unsigned payload, at
/// a time given in seconds since 1970. The headers that it adds depend on
/// nothing but the arguments. It panics on a URL without a scheme or without an
/// authority, on one whose query is longer than a URI may be when it is
/// written anew, and on a year of more than four digits.
#[verifier::external_body]
fn sigv4_sign(
    method: &str,
    service: &str,
    id: String,
    secret: String,
    token: Option<String>,
    region: &str,
    url: &str,
    unix_secs: u64,
) -> (r: Result<Vec<(String, String)>, String>)
    requires
        signable(url@),
        unix_secs < YEAR_TEN_THOUSAND,
    ensures
        are_headers(
            r,
            sigv4_headers(
                method@,
                service@,
                id@,
                secret@,
                maybe(token),
                region@,
                url@,
                unix_secs,
            ),
        ),
{
    let identity = Credentials::new(id, secret, token, None, "vesuvius-s3").into();
    let mut settings = SigningSettings::default();
    settings.payload_checksum_kind = PayloadChecksumKind::XAmzSha256;
    let params = SigningParams::builder().identity(&identity).region(region).name(service)
        .time(UNIX_EPOCH + Duration::from_secs(unix_secs)).settings(settings).build().map_err(|e| format!("sigv4 params: {e}"))?.into();
    let request = SignableRequest::new(method, url, empty(), SignableBody::UnsignedPayload)
        .map_err(|e| format!("signable request: {e}"))?;
    let signed = sign(request, &params).map_err(|e| format!("sign: {e}"))?;
    Ok(signed.output().headers().map(|(name, value)| (name.into(), value.into())).collect())
}

impl S3Signer {
    /// The region that a request for a URL is signed for: the one it names, or
    /// else the fallback.
    pub open spec fn region_for(&self, url: Seq<char>) -> Seq<char> {
        match region_of(url) {
            Some(g) => g,
            None => self.fallback_region@,
        }
    }

    /// A signer that has no credentials yet.
    pub fn new(fallback_region: String) -> (s: S3Signer)
        ensures
            s.creds is None,
            s.fallback_region == fallback_region,
    {
        S3Signer { creds: None, fallback_region }
    }

    /// Takes up new credentials.
    pub fn renew(&mut self, creds: CachedCreds)
        ensures
            final(self).creds == Some(creds),
            final(self).fallback_region == old(self).fallback_region,
    {
        self.creds = Some(creds);
    }

    /// The region that a request for a URL is signed for.
    pub fn signing_region(&self, url: &str) -> (g: String)
        ensures
            g@ == self.region_for(url@),
    {
        match region_from_s3_url(url) {
            Some(g) => g,
            None => self.fallback_region.clone(),
        }
    }

    /// The headers to add to a GET for a URL at a time in seconds since 1970.
    /// Without credentials there are none.
    pub fn sign_get(&self, url: &str, unix_secs: u64) -> (r: Result<Vec<(String, String)>, String>)
        requires
            signable(url@),
            unix_secs < YEAR_TEN_THOUSAND,
        ensures
            match self.creds {
                None => r matches Err(e) && e@ == "no credentials available"@,
                Some(c) => are_headers(
                    r,
                    sigv4_headers(
                        "GET"@,
                        "s3"@,
                        c.access_key_id@,
                        c.secret_access_key@,
                        maybe(c.session_token),
                        self.region_for(url@),
                        url@,
                        unix_secs,
                    ),
                ),
            },
    {
        match &self.creds {
            None => Err(text::owned("no credentials available")),
            Some(c) => {
                let region = self.signing_region(url);
                let token = match &c.session_token {
                    Some(t) => Some(text::owned(t.as_str())),
                    None => None,
                };
                sigv4_sign(
                    "GET",
                    "s3",
                    text::owned(c.access_key_id.as_str()),
                    text::owned(c.secret_access_key.as_str()),
                    token,
                    region.as_str(),
                    url,
                    unix_secs,
                )
            },
        }
    }
}

/// The region to fall back on: the one set, or else the default one set, or
/// else `us-east-1`.
pub fn fallback_region(aws_region: Option<&str>, aws_default_region: Option<&str>) -> (g: String)
    ensures
        g@ == (match aws_region {
            Some(r) => r@,
            None => match aws_default_region {
                Some(d) => d@,
                None => "us-east-1"@,
            },
        }),
{
    match aws_region {
        Some(r) => text::owned(r),
        None => match aws_default_region {
            Some(d) => text::owned(d),
            None => text::owned("us-east-1"),
        },
    }
}

/// How long credentials last before they are renewed, in nanoseconds: until a
/// little before they expire, fifteen minutes if they do not, and a minute at
/// least.
pub open spec fn renewal(expires_in: Option<u128>) -> int {
    let d = match expires_in {
        Some(e) => if e > REFRESH_SLACK_NANOS {
            e - REFRESH_SLACK_NANOS
        } else {
            0
        },
        None => 900_000_000_000,
    };
    if d < 60_000_000_000 {
        60_000_000_000
    } else {
        d
    }
}

/// When to renew credentials that expire after so many nanoseconds, if they do.
pub fn next_refresh(expires_in: Option<u128>) -> (nanos: u128)
    ensures
        nanos == renewal(expires_in),
{
    let d: u128 = match expires_in {
        Some(e) => {
            if e > REFRESH_SLACK_NANOS {
                e - REFRESH_SLACK_NANOS
            } else {
                0
            }
        },
        None => 900_000_000_000,
    };
    if d < 60_000_000_000 {
        60_000_000_000
    } else {
        d
    }
}

/// What to do after an attempt to get credentials.
#[derive(Debug, Clone, Copy, PartialEq, Eq, Structural)]
pub enum RefreshTurn {
    /// Wait so many nanoseconds and try again. `ready`: say that there are
    /// credentials now.
    Wait { nanos: u128, ready: bool },
    /// Say that there are none, and stop.
    Stop,
}

/// What to do after an attempt to get credentials: `got` is when they expire,
/// if it succeeded. A first attempt that fails is the last.
pub fn refresh_turn(first: bool, got: Option<Option<u128>>) -> (t: RefreshTurn)
    ensures
        t == (match got {
            Some(expires_in) => RefreshTurn::Wait { nanos: renewal(expires_in) as u128, ready: first },
            None => if first {
                RefreshTurn::Stop
            } else {
                RefreshTurn::Wait { nanos: 30_000_000_000, ready: false }
            },
        }),
{
    match got {
        Some(expires_in) => RefreshTurn::Wait { nanos: next_refresh(expires_in), ready: first },
        None => {
            if first {
                RefreshTurn::Stop
            } else {
                RefreshTurn::Wait { nanos: 30_000_000_000, ready: false }
            }
        },
    }
}

/// A URL put together from a scheme, a user, a host, a port and a path has that
/// host, whichever of the other parts are there.
pub proof fn law_host_is_found_in_its_url(
    scheme: Seq<char>,
    user: Seq<char>,
    host: Seq<char>,
    port: Seq<char>,
    path: Seq<char>,
)
    requires
        !scheme.contains(':'),
        user.len() == 0 || user.last() == '@',
        port.len() == 0 || port[0] == ':',
        path.len() == 0 || path[0] == '/' || path[0] == '?' || path[0] == '#',
        host.len() > 0,
        !host.contains(':'),
        !(host + port).contains('@'),
        !(user + host + port).contains('/'),
        !(user + host + port).contains('?'),
        !(user + host + port).contains('#'),
        forall|i: int| !#[trigger] text::occurs_at(user + host + port + path, "://"@, i),
    ensures
        host_of(scheme + "://"@ + (user + host + port + path)) == Some(host),
{
    reveal_strlit("://");
    let mark = "://"@;
    let authority = user + host + port;
    let rest = authority + path;
    let url = scheme + mark + rest;
    let at = scheme.len() as int;
    let from = at + 3;
    assert(url.subrange(at, at + 3) =~= mark);
    assert(text::occurs_at(url, mark, at));
    text::law_search_finds_the_first(url, mark, 0, at);
    let k = text::first_at(url, mark, 0).unwrap();
    assert(k == at) by {
        if k < at {
            assert(url.subrange(k, k + 3)[0] == mark[0]);
            assert(scheme[k] == ':');
            assert(scheme.contains(':'));
        }
    }
    text::law_search_finds_the_first(url, mark, from, from);
    if let Some(j) = text::first_at(url, mark, from) {
        assert(url.subrange(j, j + 3) =~= rest.subrange(j - from, j - from + 3));
        assert(text::occurs_at(rest, mark, j - from));
        assert(false);
    }
    assert(url.skip(from) =~= rest);
    let a = lemma_cut_behind(authority, path, '/');
    let b = lemma_cut_behind(authority, a, '?');
    let c = lemma_cut_behind(authority, b, '#');
    assert(c.len() == 0) by {
        if c.len() > 0 {
            assert(c[0] == path[0]);
            assert(a[0] == path[0] && b[0] == path[0]);
            assert(a.contains(a[0]) && b.contains(b[0]) && c.contains(c[0]));
        }
    }
    assert(authority + c =~= authority);
    assert forall|j: int| user.len() <= j < authority.len() implies #[trigger] authority[j] != '@' by {
        assert(authority[j] == (host + port)[j - user.len()]);
    }
    text::lemma_after_last_char(authority, '@', user.len() as int);
    assert(authority.skip(user.len() as int) =~= host + port);
    text::lemma_before_char(host + port, ':', host.len() as int);
    assert((host + port).take(host.len() as int) =~= host);
}

proof fn lemma_cut_behind(front: Seq<char>, back: Seq<char>, c: char) -> (kept: Seq<char>)
    requires
        !front.contains(c),
    ensures
        text::before_char(front + back, c) == front + kept,
        !kept.contains(c),
        kept.len() <= back.len(),
        kept == back.take(kept.len() as int),
{
    let s = front + back;
    text::law_before_char_is_the_start(s, c);
    let b = text::before_char(s, c);
    assert(b.len() >= front.len()) by {
        if b.len() < front.len() {
            assert(front[b.len() as int] == c);
        }
    }
    let kept = back.take(b.len() - front.len());
    assert(b =~= front + kept);
    assert forall|i: int| 0 <= i < kept.len() implies kept[i] != c by {
        assert(b[front.len() + i] == kept[i]);
        assert(b.contains(b[front.len() + i]));
    }
    kept
}

/// Before the provider's label the region is the label behind the service's,
/// past `dualstack`; where the service's label stands right before the
/// provider's, it is what follows `s3-` in it, if it begins so.
pub proof fn law_region_stands_behind_the_service(
    front: Seq<Seq<char>>,
    service: Seq<char>,
    between: Seq<Seq<char>>,
    end: Seq<Seq<char>>,
)
    requires
        names_s3(service),
        forall|i: int| 0 <= i < between.len() ==> !names_s3(#[trigger] between[i]),
        forall|i: int| 0 <= i < end.len() ==> #[trigger] end[i] != "amazonaws"@,
    ensures
        ({
            let labels = front + seq![service] + between + seq!["amazonaws"@] + end;
            &&& between.len() == 0 && service.len() >= 3 && service.take(3) == "s3-"@ ==> region_in(labels)
                == Some(service.skip(3))
            &&& between.len() == 0 && !(service.len() >= 3 && service.take(3) == "s3-"@) ==> region_in(
                labels,
            ) is None
            &&& between.len() >= 1 && between[0] != "dualstack"@ ==> region_in(labels) == Some(between[0])
            &&& between.len() >= 2 && between[0] == "dualstack"@ ==> region_in(labels) == Some(between[1])
            &&& between.len() == 1 && between[0] == "dualstack"@ ==> region_in(labels) is None
        }),
{
    reveal_strlit("s3-");
    reveal_strlit("s3");
    reveal_strlit("s3express-");
    reveal_strlit("amazonaws");
    reveal_strlit("dualstack");
    let labels = front + seq![service] + between + seq!["amazonaws"@] + end;
    let a = front.len() as int + 1 + between.len() as int;
    let i = front.len() as int;
    assert(labels[a] == "amazonaws"@);
    assert(labels[i] == service);
    assert forall|j: int| a < j < labels.len() implies #[trigger] labels[j] != "amazonaws"@ by {
        assert(labels[j] == end[j - a - 1]);
    }
    lemma_provider_is_last(labels, labels.len(), a);
    assert forall|j: int| i < j < a implies !names_s3(#[trigger] labels[j]) by {
        assert(labels[j] == between[j - i - 1]);
    }
    lemma_service_is_last(labels, a as nat, i);
    if between.len() >= 1 {
        assert(labels[i + 1] == between[0]);
    } else {
        assert(labels[i + 1] == "amazonaws"@);
        assert("amazonaws"@[0] == 'a' && "dualstack"@[0] == 'd');
        if service.len() >= 3 {
            assert(service.subrange(0, 3) =~= service.take(3));
        }
    }
    if between.len() >= 2 {
        assert(labels[i + 2] == between[1]);
    }
}

proof fn lemma_provider_is_last(labels: Seq<Seq<char>>, n: nat, a: int)
    requires
        0 <= a < n <= labels.len(),
        labels[a] == "amazonaws"@,
        forall|j: int| a < j < n ==> #[trigger] labels[j] != "amazonaws"@,
    ensures
        provider_place(labels, n) == Some(a),
    decreases n,
{
    if n - 1 > a {
        assert(labels[n - 1] != "amazonaws"@);
        lemma_provider_is_last(labels, (n - 1) as nat, a);
    }
}

proof fn lemma_service_is_last(labels: Seq<Seq<char>>, n: nat, i: int)
    requires
        0 <= i < n <= labels.len(),
        names_s3(labels[i]),
        forall|j: int| i < j < n ==> !names_s3(#[trigger] labels[j]),
    ensures
        service_place(labels, n) == Some(i),
    decreases n,
{
    if n - 1 > i {
        assert(!names_s3(labels[n - 1]));
        lemma_service_is_last(labels, (n - 1) as nat, i);
    }
}

/// At another provider the region is the label behind the first `s3`, or what
/// follows `s3-` in the first label that begins so, whichever comes first.
pub proof fn law_region_at_another_provider(front: Seq<Seq<char>>, region: Seq<char>, end: Seq<Seq<char>>)
    requires
        forall|i: int|
            0 <= i < front.len() ==> #[trigger] front[i] != "s3"@ && !text::occurs_at(front[i], "s3-"@, 0),
        forall|i: int| 0 <= i < front.len() ==> #[trigger] front[i] != "amazonaws"@,
        forall|i: int| 0 <= i < end.len() ==> #[trigger] end[i] != "amazonaws"@,
        region != "amazonaws"@,
    ensures
        region_in(front + seq!["s3"@, region] + end) == Some(region),
        region_in(front + seq!["s3-"@ + region] + end) == Some(region),
        region_in(front + seq!["s3"@]) is None,
        region_in(front) is None,
{
    reveal_strlit("s3-");
    reveal_strlit("s3");
    reveal_strlit("amazonaws");
    let n = front.len() as int;
    let apart = front + seq!["s3"@, region] + end;
    let joined = front + seq!["s3-"@ + region] + end;
    let bare = front + seq!["s3"@];
    assert("s3"@[0] == 's' && ("s3-"@ + region)[0] == 's' && "amazonaws"@[0] == 'a');
    assert forall|j: int| 0 <= j < apart.len() implies #[trigger] apart[j] != "amazonaws"@ by {
        if j < n {
            assert(apart[j] == front[j]);
        } else if j >= n + 2 {
            assert(apart[j] == end[j - n - 2]);
        }
    }
    assert forall|j: int| 0 <= j < joined.len() implies #[trigger] joined[j] != "amazonaws"@ by {
        if j < n {
            assert(joined[j] == front[j]);
        } else if j >= n + 1 {
            assert(joined[j] == end[j - n - 1]);
        }
    }
    assert forall|j: int| 0 <= j < bare.len() implies #[trigger] bare[j] != "amazonaws"@ by {
        if j < n {
            assert(bare[j] == front[j]);
        }
    }
    lemma_no_provider(apart, apart.len());
    lemma_no_provider(joined, joined.len());
    lemma_no_provider(bare, bare.len());
    lemma_no_provider(front, front.len());
    assert forall|j: int| 0 <= j < n implies (#[trigger] apart[j]) == front[j] && joined[j] == front[j]
        && bare[j] == front[j] by {}
    lemma_passed_over(apart, 0, n);
    lemma_passed_over(joined, 0, n);
    lemma_passed_over(bare, 0, n);
    lemma_passed_over(front, 0, n);
    let label = "s3-"@ + region;
    assert(label.subrange(0, 3) =~= "s3-"@);
    assert(label.skip(3) =~= region);
    assert(apart[n] == "s3"@ && apart[n + 1] == region);
    assert(joined[n] == label);
    assert(bare[n] == "s3"@);
}

proof fn lemma_no_provider(labels: Seq<Seq<char>>, n: nat)
    requires
        n <= labels.len(),
        forall|j: int| 0 <= j < labels.len() ==> #[trigger] labels[j] != "amazonaws"@,
    ensures
        provider_place(labels, n) is None,
    decreases n,
{
    if n > 0 {
        assert(labels[n - 1] != "amazonaws"@);
        lemma_no_provider(labels, (n - 1) as nat);
    }
}

proof fn lemma_passed_over(labels: Seq<Seq<char>>, i: int, n: int)
    requires
        0 <= i <= n <= labels.len(),
        forall|j: int|
            i <= j < n ==> #[trigger] labels[j] != "s3"@ && !text::occurs_at(labels[j], "s3-"@, 0),
    ensures
        region_elsewhere(labels, i) == region_elsewhere(labels, n),
    decreases n - i,
{
    if i < n {
        assert(labels[i] != "s3"@);
        lemma_passed_over(labels, i + 1, n);
    }
}

/// A host is the provider's where its last two labels are `amazonaws` and `com`
/// and a label before them names the service.
pub proof fn law_provider_hosts_end_in_its_name(front: Seq<Seq<char>>, last: Seq<char>, top: Seq<char>, i: int)
    requires
        0 <= i < front.len(),
        front[i] == "s3"@ || front[i].len() >= 3 && front[i].take(3) == "s3-"@,
    ensures
        labels_of_s3(front + seq![last, top]) <==> last == "amazonaws"@ && top == "com"@,
{
    reveal_strlit("s3-");
    let labels = front + seq![last, top];
    assert(labels[i] == front[i]);
    if front[i] != "s3"@ {
        assert(front[i].subrange(0, 3) =~= front[i].take(3));
    }
    assert(names_s3(labels[i]));
    let n = labels.len() as int;
    assert(labels[n - 2] == last && labels[n - 1] == top);
}

} // verus!
