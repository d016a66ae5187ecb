//! What is asked of the Wally registry, how fast, and what its answers mean.
use vstd::prelude::*;
use vstd::utf8::*;
use super::package::{package_text, PackageName};
use super::versions::{newest, newest_of};
use crate::errors::{bare_failure, hinted, hinted_failure, unhinted, Failure, FailureModel};
use crate::text::{
    before_first, decimal, decimal_text, join, joined, list_holds, owned, rsplit_once,
    rsplit_once_on, slice_text, strip_prefix, to_chars, trim, trim_suffixes, trimmed, up_to,
    without_prefix, without_suffixes,
};
use crate::text_map::TextMap;

verus! {

/// How much of an answer is read.
pub const MAX_RESPONSE_BYTES: u64 = 8_388_608;

/// One package the registry's search index matched.
#[derive(Debug)]
pub struct SearchHit {
    pub package: String,
    pub scope: String,
    pub name: String,
    pub description: Option<String>,
    /// The newest published version, which is what `add_wally_package` would pin.
    pub latest_version: Option<String>,
    pub version_count: usize,
}

pub struct HitModel {
    pub package: Seq<char>,
    pub scope: Seq<char>,
    pub name: Seq<char>,
    pub description: Option<Seq<char>>,
    pub latest_version: Option<Seq<char>>,
    pub version_count: int,
}

/// A package as the registry's answer writes it.
#[derive(Debug)]
pub struct RawSearchHit {
    pub scope: String,
    pub name: String,
    pub description: Option<String>,
    pub versions: Vec<String>,
}

pub struct RawHitModel {
    pub scope: Seq<char>,
    pub name: Seq<char>,
    pub description: Option<Seq<char>>,
    pub versions: Seq<Seq<char>>,
}

impl DeepView for SearchHit {
    type V = HitModel;

    open spec fn deep_view(&self) -> HitModel {
        HitModel {
            package: self.package@,
            scope: self.scope@,
            name: self.name@,
            description: self.description.deep_view(),
            latest_version: self.latest_version.deep_view(),
            version_count: self.version_count as int,
        }
    }
}

impl DeepView for RawSearchHit {
    type V = RawHitModel;

    open spec fn deep_view(&self) -> RawHitModel {
        RawHitModel {
            scope: self.scope@,
            name: self.name@,
            description: self.description.deep_view(),
            versions: self.versions.deep_view(),
        }
    }
}

/// What is told of a package the registry matched. A description that says nothing is left out.
pub open spec fn hit_of(raw: RawHitModel) -> HitModel {
    HitModel {
        package: raw.scope + "/"@ + raw.name,
        scope: raw.scope,
        name: raw.name,
        description: match raw.description {
            Some(text) => if trimmed(text).len() > 0 {
                Some(text)
            } else {
                None
            },
            None => None,
        },
        latest_version: newest_of(raw.versions),
        version_count: raw.versions.len() as int,
    }
}

fn hit_from(raw: &RawSearchHit) -> (r: SearchHit)
    ensures
        r.deep_view() == hit_of(raw.deep_view()),
{
    let mut package = raw.scope.clone();
    package.append("/");
    package.append(raw.name.as_str());
    assert(raw.versions.deep_view().len() == raw.versions@.len());
    SearchHit {
        package,
        latest_version: newest(&raw.versions),
        version_count: raw.versions.len(),
        scope: raw.scope.clone(),
        name: raw.name.clone(),
        description: match &raw.description {
            Some(text) => {
                if trim(text.as_str()).is_empty() {
                    None
                } else {
                    Some(text.clone())
                }
            },
            None => None,
        },
    }
}

/// What is told of the packages a search matched.
pub fn search_hits(raw: &Vec<RawSearchHit>) -> (r: Vec<SearchHit>)
    ensures
        r.deep_view() == raw.deep_view().map_values(|hit: RawHitModel| hit_of(hit)),
{
    let ghost all = raw.deep_view().map_values(|hit: RawHitModel| hit_of(hit));
    let mut hits: Vec<SearchHit> = Vec::new();
    let mut i: usize = 0;
    while i < raw.len()
        invariant
            i <= raw@.len(),
            all == raw.deep_view().map_values(|hit: RawHitModel| hit_of(hit)),
            hits.deep_view() == all.take(i as int),
        decreases raw@.len() - i,
    {
        assert(raw.deep_view()[i as int] == raw@[i as int].deep_view());
        let ghost before = hits.deep_view();
        hits.push(hit_from(&raw[i]));
        assert(hits.deep_view() =~= before.push(all[i as int]));
        assert(hits.deep_view() =~= all.take(i + 1));
        i = i + 1;
    }
    assert(all.take(i as int) =~= all);
    hits
}

// ---------------------------------------------------------------------------
// Addresses

/// Whether a byte stands in an address as it is.
pub open spec fn is_unreserved(byte: u8) -> bool {
    ||| 0x41 <= byte <= 0x5a
    ||| 0x61 <= byte <= 0x7a
    ||| 0x30 <= byte <= 0x39
    ||| byte == 0x2d
    ||| byte == 0x5f
    ||| byte == 0x2e
    ||| byte == 0x7e
}

/// A hexadecimal digit.
pub open spec fn hex_digit(n: u8) -> char {
    if n < 10 {
        ((0x30 + n) as u8) as char
    } else {
        ((0x37 + n) as u8) as char
    }
}

/// How a byte is written in an address: as it is, or as a percent sign and two hexadecimal digits.
pub open spec fn encoded_byte(byte: u8) -> Seq<char> {
    if is_unreserved(byte) {
        seq![byte as char]
    } else {
        seq!['%', hex_digit((byte / 16) as u8), hex_digit((byte % 16) as u8)]
    }
}

/// How the first `n` bytes are written in an address.
pub open spec fn encoded_bytes(bytes: Seq<u8>, n: int) -> Seq<char>
    decreases n,
{
    if n <= 0 {
        Seq::empty()
    } else {
        encoded_bytes(bytes, n - 1) + encoded_byte(bytes[n - 1])
    }
}

/// How a text is written in an address.
pub open spec fn percent_encoded(text: Seq<char>) -> Seq<char> {
    encoded_bytes(encode_utf8(text), encode_utf8(text).len() as int)
}

fn hex(n: u8) -> (c: char)
    requires
        n < 16,
    ensures
        c == hex_digit(n),
{
    if n < 10 {
        (0x30 + n) as char
    } else {
        (0x37 + n) as char
    }
}

/// Writes a text so that it can stand in an address.
pub fn percent_encode(value: &str) -> (r: String)
    ensures
        r@ == percent_encoded(value@),
{
    let bytes = value.as_bytes();
    let ghost all = encode_utf8(value@);
    let mut encoded = String::new();
    let mut i: usize = 0;
    assert(encoded@ =~= encoded_bytes(all, 0));
    while i < bytes.len()
        invariant
            i <= bytes@.len(),
            bytes@ == all,
            encoded@ == encoded_bytes(all, i as int),
        decreases bytes@.len() - i,
    {
        let byte: u8 = bytes[i];
        let ghost before = encoded@;
        if (0x41 <= byte && byte <= 0x5a) || (0x61 <= byte && byte <= 0x7a) || (0x30 <= byte && byte
            <= 0x39) || byte == 0x2d || byte == 0x5f || byte == 0x2e || byte == 0x7e {
            encoded.push(byte as char);
        } else {
            encoded.push('%');
            encoded.push(hex(byte / 16));
            encoded.push(hex(byte % 16));
        }
        assert(encoded@ =~= before + encoded_byte(byte));
        i = i + 1;
    }
    encoded
}

/// The start of every address of a registry: its own address with one slash at its end.
pub open spec fn base_of(registry: Seq<char>) -> Seq<char> {
    without_suffixes(registry, "/"@) + "/"@
}

fn base(registry: &str) -> (r: String)
    ensures
        r@ == base_of(registry@),
{
    let mut r = trim_suffixes(registry, "/");
    r.append("/");
    r
}

/// Where a search is asked for.
pub fn search_url(registry: &str, query: &str) -> (r: String)
    ensures
        r@ == base_of(registry@) + "v1/package-search?query="@ + percent_encoded(query@),
{
    let mut r = base(registry);
    r.append("v1/package-search?query=");
    r.append(percent_encode(query).as_str());
    r
}

/// Where a package is looked up.
pub fn metadata_url(registry: &str, name: &PackageName) -> (r: String)
    ensures
        r@ == base_of(registry@) + "v1/package-metadata/"@ + name@.scope + "/"@ + name@.name,
{
    let mut r = base(registry);
    r.append("v1/package-metadata/");
    r.append(name.scope());
    r.append("/");
    r.append(name.name());
    r
}

/// Where the host and what comes before it in an address end.
pub open spec fn authority_end(s: Seq<char>, i: int) -> int
    decreases s.len() - i,
{
    if 0 <= i < s.len() && s[i] != '/' && s[i] != '?' && s[i] != '#' {
        authority_end(s, i + 1)
    } else {
        i
    }
}

/// What follows the last `@`, which is where the host starts.
pub open spec fn after_user(s: Seq<char>) -> Seq<char> {
    match rsplit_once_on(s, '@') {
        Some((_, host)) => host,
        None => s,
    }
}

/// The host of what follows the scheme of an address.
pub open spec fn host_in(rest: Seq<char>) -> Seq<char> {
    before_first(after_user(rest.take(authority_end(rest, 0))), ':')
}

/// The host an address names.
pub open spec fn registry_host(url: Seq<char>) -> Result<Seq<char>, FailureModel> {
    match without_prefix(url, "https://"@) {
        None => Err(
            hinted_failure(
                "refusing a non-HTTPS registry URL: "@ + url,
                "wally.registry_api_url must be an https:// URL"@,
            ),
        ),
        Some(rest) => if host_in(rest).len() == 0 {
            Err(
                hinted_failure(
                    "the registry URL names no host: "@ + url,
                    "wally.registry_api_url must name a host, such as \"https://api.wally.run/\""@,
                ),
            )
        } else {
            Ok(host_in(rest))
        },
    }
}

/// Takes the host out of an address.
pub fn host_of(url: &str) -> (r: Result<String, Failure>)
    ensures
        match r {
            Ok(host) => registry_host(url@) == Ok::<Seq<char>, FailureModel>(host@),
            Err(failure) => registry_host(url@) == Err::<Seq<char>, FailureModel>(
                failure.deep_view(),
            ),
        },
{
    let rest = match strip_prefix(url, "https://") {
        Some(rest) => rest,
        None => {
            let mut message = owned("refusing a non-HTTPS registry URL: ");
            message.append(url);
            return Err(hinted(message, "wally.registry_api_url must be an https:// URL"));
        },
    };
    let chars = to_chars(rest);
    let mut end: usize = 0;
    while end < chars.len() && chars[end] != '/' && chars[end] != '?' && chars[end] != '#'
        invariant
            end <= chars@.len(),
            chars@ == rest@,
            authority_end(rest@, 0) == authority_end(rest@, end as int),
        decreases chars@.len() - end,
    {
        end = end + 1;
    }
    let authority = slice_text(&chars, 0, end);
    assert(authority@ =~= rest@.take(authority_end(rest@, 0)));
    let host: String = match rsplit_once(authority.as_str(), '@') {
        Some((_, host)) => host,
        None => authority,
    };
    let host = up_to(host.as_str(), ':');
    if host.as_str().is_empty() {
        let mut message = owned("the registry URL names no host: ");
        message.append(url);
        return Err(
            hinted(
                message,
                "wally.registry_api_url must name a host, such as \"https://api.wally.run/\"",
            ),
        );
    }
    Ok(host)
}

/// Why an address is not fetched, where only some hosts are.
pub open spec fn hop_problem(url: Seq<char>, hosts: Seq<Seq<char>>) -> Option<FailureModel> {
    match registry_host(url) {
        Err(failure) => Some(failure),
        Ok(host) => if hosts.contains(host) {
            None
        } else {
            Some(bare_failure("refusing to download from "@ + host))
        },
    }
}

/// Checks that each address a download goes through names one of the hosts it may come from. The first
/// that does not is told.
pub fn check_hops(hops: &Vec<String>, hosts: &Vec<String>) -> (r: Result<(), Failure>)
    ensures
        r is Ok <==> forall|i: int|
            0 <= i < hops@.len() ==> (registry_host(#[trigger] hops@[i]@) matches Ok(host)
                && hosts.deep_view().contains(host)),
        match r {
            Ok(_) => forall|i: int|
                0 <= i < hops@.len() ==> hop_problem(#[trigger] hops@[i]@, hosts.deep_view()) is None,
            Err(failure) => exists|i: int|
                {
                    &&& 0 <= i < hops@.len()
                    &&& hop_problem(#[trigger] hops@[i]@, hosts.deep_view()) == Some(
                        failure.deep_view(),
                    )
                    &&& forall|k: int|
                        0 <= k < i ==> hop_problem(#[trigger] hops@[k]@, hosts.deep_view()) is None
                },
        },
{
    let mut i: usize = 0;
    while i < hops.len()
        invariant
            i <= hops@.len(),
            forall|k: int|
                0 <= k < i ==> hop_problem(#[trigger] hops@[k]@, hosts.deep_view()) is None,
        decreases hops@.len() - i,
    {
        match host_of(hops[i].as_str()) {
            Err(failure) => {
                assert(hop_problem(hops@[i as int]@, hosts.deep_view()) == Some(
                    failure.deep_view(),
                ));
                return Err(failure);
            },
            Ok(host) => {
                if !list_holds(hosts, host.as_str()) {
                    let mut message = owned("refusing to download from ");
                    message.append(host.as_str());
                    let failure = unhinted(message);
                    assert(hop_problem(hops@[i as int]@, hosts.deep_view()) == Some(
                        failure.deep_view(),
                    ));
                    return Err(failure);
                }
            },
        }
        i = i + 1;
    }
    assert forall|k: int| 0 <= k < hops@.len() implies (registry_host(#[trigger] hops@[k]@) matches Ok(
        host,
    ) && hosts.deep_view().contains(host)) by {
        assert(hop_problem(hops@[k]@, hosts.deep_view()) is None);
    }
    Ok(())
}

// ---------------------------------------------------------------------------
// Answers

/// What is said of an answer that was not a success.
pub fn status_message(status: u16, url: &str) -> (r: String)
    ensures
        r@ == "the registry answered HTTP "@ + decimal(status as nat) + " for "@ + url@,
{
    let mut r = owned("the registry answered HTTP ");
    r.append(decimal_text(status as u64).as_str());
    r.append(" for ");
    r.append(url);
    r
}

/// The failure of a lookup: a package that is not there reads otherwise than a network fault.
pub open spec fn lookup_failure_of(
    name: Seq<char>,
    status: Option<u16>,
    error: Seq<char>,
) -> FailureModel {
    if status == Some(404u16) {
        hinted_failure(
            name + " is not published in the registry"@,
            "check the scope and the name with search_wally_packages; both are lower case, and a package is named SCOPE/NAME"@,
        )
    } else {
        hinted_failure(
            "could not look up "@ + name + " in the registry: "@ + error,
            "check the name with search_wally_packages, or pass version to skip the lookup"@,
        )
    }
}

/// The failure of a lookup, from the status the registry answered with, where it answered, and from
/// what went wrong.
pub fn lookup_failure(name: &PackageName, status: Option<u16>, error: &str) -> (r: Failure)
    ensures
        r.deep_view() == lookup_failure_of(package_text(name@), status, error@),
{
    let missing = match status {
        Some(code) => code == 404,
        None => false,
    };
    if missing {
        let mut message = name.text();
        message.append(" is not published in the registry");
        return hinted(
            message,
            "check the scope and the name with search_wally_packages; both are lower case, and a package is named SCOPE/NAME",
        );
    }
    let mut message = owned("could not look up ");
    message.append(name.text().as_str());
    message.append(" in the registry: ");
    message.append(error);
    hinted(message, "check the name with search_wally_packages, or pass version to skip the lookup")
}

/// The newest published version of a package that is no prerelease.
pub open spec fn latest_in(name: Seq<char>, versions: Seq<Seq<char>>) -> Result<
    Seq<char>,
    FailureModel,
> {
    match newest_of(versions) {
        Some(version) => Ok(version),
        None => Err(
            hinted_failure(
                if versions.len() == 0 {
                    name + " has no published versions"@
                } else {
                    name + " has only prerelease versions ("@ + joined(versions, ", "@)
                        + "), which are never chosen automatically"@
                },
                "pass version explicitly to take one of them"@,
            ),
        ),
    }
}

/// The newest published non-prerelease version of a package, out of those the registry lists.
pub fn latest_version(name: &PackageName, versions: &Vec<String>) -> (r: Result<String, Failure>)
    ensures
        match r {
            Ok(version) => latest_in(package_text(name@), versions.deep_view()) == Ok::<
                Seq<char>,
                FailureModel,
            >(version@),
            Err(failure) => latest_in(package_text(name@), versions.deep_view()) == Err::<
                Seq<char>,
                FailureModel,
            >(failure.deep_view()),
        },
{
    if let Some(version) = newest(versions) {
        return Ok(version);
    }
    assert(versions.deep_view().len() == versions@.len());
    let mut message = name.text();
    if versions.len() == 0 {
        message.append(" has no published versions");
    } else {
        message.append(" has only prerelease versions (");
        message.append(join(versions, ", ").as_str());
        message.append("), which are never chosen automatically");
    }
    Err(hinted(message, "pass version explicitly to take one of them"))
}

// ---------------------------------------------------------------------------
// Pace

/// How fast requests may go out. A ceiling of zero is none.
#[derive(Debug, Clone, Copy)]
pub struct Pace {
    pub min_request_interval_ms: u64,
    pub max_requests_per_minute: usize,
}

/// When requests went out, in nanoseconds on a clock that never runs backwards.
///
/// The registry publishes no rate limits and runs no limiter of its own, so the ceiling here is
/// Biskit's own restraint rather than something the server would enforce.
#[derive(Debug)]
pub struct Throttle {
    pub previous: Option<u128>,
    pub window: Vec<u128>,
}

/// A minute in nanoseconds.
pub const MINUTE: u128 = 60_000_000_000;

/// How long ago something was.
pub open spec fn elapsed_since(now: int, then: int) -> int {
    if now >= then {
        now - then
    } else {
        0
    }
}

/// The requests still to be counted: those at the front that are a minute old are not.
pub open spec fn counted(window: Seq<u128>, now: int) -> Seq<u128>
    decreases window.len(),
{
    if window.len() > 0 && elapsed_since(now, window[0] as int) >= MINUTE {
        counted(window.skip(1), now)
    } else {
        window
    }
}

/// What is left to wait of the distance between two requests.
pub open spec fn spacing(previous: Option<u128>, pace: Pace, now: int) -> int {
    match previous {
        Some(then) => {
            let interval = pace.min_request_interval_ms * 1_000_000;
            if interval >= elapsed_since(now, then as int) {
                interval - elapsed_since(now, then as int)
            } else {
                0
            }
        },
        None => 0,
    }
}

/// What is left to wait until the ceiling allows one more request.
pub open spec fn quota(window: Seq<u128>, pace: Pace, now: int) -> int {
    let recent = counted(window, now);
    if pace.max_requests_per_minute > 0 && recent.len() >= pace.max_requests_per_minute {
        MINUTE - elapsed_since(now, recent[0] as int)
    } else {
        0
    }
}

/// How long to wait before the next request may go out.
pub open spec fn wait_of(
    previous: Option<u128>,
    window: Seq<u128>,
    pace: Pace,
    now: int,
) -> int {
    if spacing(previous, pace, now) >= quota(window, pace, now) {
        spacing(previous, pace, now)
    } else {
        quota(window, pace, now)
    }
}

fn elapsed(now: u128, then: u128) -> (r: u128)
    ensures
        r == elapsed_since(now as int, then as int),
{
    if now >= then {
        now - then
    } else {
        0
    }
}

proof fn counted_are_recent(window: Seq<u128>, now: int)
    ensures
        counted(window, now).len() > 0 ==> elapsed_since(now, counted(window, now)[0] as int)
            < MINUTE,
    decreases window.len(),
{
    if window.len() > 0 {
        counted_are_recent(window.skip(1), now);
    }
}

impl Throttle {
    /// A throttle no request went through yet.
    pub fn new() -> (r: Throttle)
        ensures
            r.previous is None,
            r.window@.len() == 0,
    {
        Throttle { previous: None, window: Vec::new() }
    }

    /// How long to wait before the next request may go out, in nanoseconds.
    pub fn wait_for(&mut self, pace: &Pace, now: u128) -> (r: u128)
        ensures
            r == wait_of(old(self).previous, old(self).window@, *pace, now as int),
            final(self).previous == old(self).previous,
            final(self).window@ == counted(old(self).window@, now as int),
    {
        let ghost start = self.window@;
        while self.window.len() > 0 && elapsed(now, self.window[0]) >= MINUTE
            invariant
                counted(start, now as int) == counted(self.window@, now as int),
                self.previous == old(self).previous,
            decreases self.window@.len(),
        {
            let ghost before = self.window@;
            self.window.remove(0);
            assert(self.window@ =~= before.skip(1));
        }
        proof {
            counted_are_recent(start, now as int);
        }
        let interval: u128 = (pace.min_request_interval_ms as u128) * 1_000_000;
        let spacing: u128 = match self.previous {
            Some(then) => {
                let gone = elapsed(now, then);
                if interval >= gone {
                    interval - gone
                } else {
                    0
                }
            },
            None => 0,
        };
        let quota: u128 = if pace.max_requests_per_minute > 0 && self.window.len()
            >= pace.max_requests_per_minute {
            MINUTE - elapsed(now, self.window[0])
        } else {
            0
        };
        if spacing >= quota {
            spacing
        } else {
            quota
        }
    }

    /// Records a request that goes out.
    pub fn record(&mut self, now: u128)
        ensures
            final(self).previous == Some(now),
            final(self).window@ == old(self).window@.push(now),
    {
        self.previous = Some(now);
        self.window.push(now);
    }
}

/// The first request is never delayed.
pub proof fn the_first_request_does_not_wait(pace: Pace, now: int)
    ensures
        wait_of(None, Seq::empty(), pace, now) == 0,
{
}

/// A request that waits out its wait goes out no sooner than the minimum interval after the one
/// before it.
pub proof fn requests_keep_their_distance(previous: u128, window: Seq<u128>, pace: Pace, now: u128)
    requires
        previous <= now,
    ensures
        now + wait_of(Some(previous), window, pace, now as int) - previous
            >= pace.min_request_interval_ms * 1_000_000,
{
}

/// Whether the requests of a window went out in order, none of them after `now`.
pub open spec fn in_order(window: Seq<u128>, now: int) -> bool {
    &&& forall|i: int, j: int|
        0 <= i < j < window.len() ==> #[trigger] window[i] <= #[trigger] window[j]
    &&& forall|i: int| 0 <= i < window.len() ==> #[trigger] window[i] <= now
}

proof fn counting_keeps_order(window: Seq<u128>, now: int)
    requires
        in_order(window, now),
    ensures
        in_order(counted(window, now), now),
        counted(window, now).len() <= window.len(),
    decreases window.len(),
{
    if window.len() > 0 && elapsed_since(now, window[0] as int) >= MINUTE {
        let rest = window.skip(1);
        assert forall|i: int, j: int| 0 <= i < j < rest.len() implies #[trigger] rest[i]
            <= #[trigger] rest[j] by {
            assert(rest[i] == window[i + 1]);
            assert(rest[j] == window[j + 1]);
        }
        assert forall|i: int| 0 <= i < rest.len() implies #[trigger] rest[i] <= now by {
            assert(rest[i] == window[i + 1]);
        }
        counting_keeps_order(rest, now);
    }
}

proof fn fewer_count_later(window: Seq<u128>, now: int, later: int)
    requires
        in_order(window, now),
        now <= later,
    ensures
        counted(window, later).len() <= counted(window, now).len(),
        counted(window, now).len() > 0 && elapsed_since(later, counted(window, now)[0] as int)
            >= MINUTE ==> counted(window, later).len() < counted(window, now).len(),
    decreases window.len(),
{
    if window.len() > 0 {
        let rest = window.skip(1);
        assert forall|i: int, j: int| 0 <= i < j < rest.len() implies #[trigger] rest[i]
            <= #[trigger] rest[j] by {
            assert(rest[i] == window[i + 1]);
            assert(rest[j] == window[j + 1]);
        }
        assert forall|i: int| 0 <= i < rest.len() implies #[trigger] rest[i] <= now by {
            assert(rest[i] == window[i + 1]);
        }
        assert(window[0] <= now);
        if elapsed_since(now, window[0] as int) >= MINUTE {
            fewer_count_later(rest, now, later);
        } else {
            counting_keeps_order(window, now);
            counted_no_longer(rest, later);
        }
    }
}

proof fn counted_no_longer(window: Seq<u128>, now: int)
    ensures
        counted(window, now).len() <= window.len(),
    decreases window.len(),
{
    if window.len() > 0 {
        counted_no_longer(window.skip(1), now);
    }
}

proof fn counting_one_more(window: Seq<u128>, at: u128)
    requires
        in_order(window, at as int),
    ensures
        counted(window.push(at), at as int).len() == counted(window, at as int).len() + 1,
    decreases window.len(),
{
    let longer = window.push(at);
    if window.len() > 0 {
        if elapsed_since(at as int, window[0] as int) >= MINUTE {
            let rest = window.skip(1);
            assert forall|i: int, j: int| 0 <= i < j < rest.len() implies #[trigger] rest[i]
                <= #[trigger] rest[j] by {
                assert(rest[i] == window[i + 1]);
                assert(rest[j] == window[j + 1]);
            }
            assert forall|i: int| 0 <= i < rest.len() implies #[trigger] rest[i] <= at by {
                assert(rest[i] == window[i + 1]);
            }
            counting_one_more(rest, at);
            assert(longer.skip(1) =~= rest.push(at));
        }
    }
}

/// The ceiling is kept from one request to the next: where no more requests than it allows count at
/// the time a wait is asked for, and the request goes out once it has waited or later, then no more
/// than it allows count when that request is recorded.
pub proof fn the_ceiling_is_kept(
    previous: Option<u128>,
    window: Seq<u128>,
    pace: Pace,
    now: u128,
    at: u128,
)
    requires
        in_order(window, now as int),
        pace.max_requests_per_minute > 0,
        counted(window, now as int).len() <= pace.max_requests_per_minute,
        at >= now + wait_of(previous, window, pace, now as int),
    ensures
        ({
            let recorded = counted(window, now as int).push(at);
            &&& in_order(recorded, at as int)
            &&& counted(recorded, at as int).len() <= pace.max_requests_per_minute
        }),
{
    let recent = counted(window, now as int);
    counting_keeps_order(window, now as int);
    counted_are_recent(window, now as int);
    counted_twice(window, now as int);
    assert(wait_of(previous, window, pace, now as int) >= 0);
    assert(in_order(recent, at as int)) by {
        assert forall|i: int| 0 <= i < recent.len() implies #[trigger] recent[i] <= at by {
            assert(recent[i] <= now);
        }
    }
    fewer_count_later(recent, now as int, at as int);
    counting_one_more(recent, at);
}

proof fn counted_twice(window: Seq<u128>, now: int)
    ensures
        counted(counted(window, now), now) == counted(window, now),
    decreases window.len(),
{
    if window.len() > 0 {
        counted_twice(window.skip(1), now);
    }
}

// ---------------------------------------------------------------------------
// Cache

/// An answer that was stored, and when.
#[derive(Debug)]
pub struct CachedAnswer {
    pub stored: u128,
    pub body: Vec<u8>,
}

/// Registry answers by address, each with when it was stored.
#[derive(Debug)]
pub struct Cache {
    pub answers: TextMap<CachedAnswer>,
}

/// Whether what was stored at a time is still good.
pub open spec fn is_fresh(stored: int, ttl_seconds: u64, now: int) -> bool {
    elapsed_since(now, stored) < ttl_seconds * 1_000_000_000
}

/// What a cache holds after an answer is stored: the fresh ones it held, and the new one.
pub open spec fn after_storing(
    before: Map<Seq<char>, CachedAnswer>,
    after: Map<Seq<char>, CachedAnswer>,
    url: Seq<char>,
    body: Seq<u8>,
    ttl_seconds: u64,
    now: int,
) -> bool {
    &&& after.contains_key(url) && after[url].stored == now && after[url].body@ == body
    &&& forall|key: Seq<char>|
        key != url ==> {
            &&& #[trigger] after.contains_key(key) <==> before.contains_key(key) && is_fresh(
                before[key].stored as int,
                ttl_seconds,
                now,
            )
            &&& after.contains_key(key) ==> after[key] == before[key]
        }
}

fn fresh(stored: u128, ttl_seconds: u64, now: u128) -> (b: bool)
    ensures
        b == is_fresh(stored as int, ttl_seconds, now as int),
{
    elapsed(now, stored) < (ttl_seconds as u128) * 1_000_000_000
}

impl Cache {
    /// A cache that holds nothing.
    pub fn new() -> (r: Cache)
        ensures
            r.answers@ == Map::<Seq<char>, CachedAnswer>::empty(),
    {
        Cache { answers: TextMap::new() }
    }

    /// The answer stored for an address, while it is good. With no time to live nothing is.
    pub fn cached(&self, url: &str, ttl_seconds: u64, now: u128) -> (r: Option<&Vec<u8>>)
        ensures
            match r {
                Some(body) => {
                    &&& ttl_seconds > 0
                    &&& self.answers@.contains_key(url@)
                    &&& is_fresh(self.answers@[url@].stored as int, ttl_seconds, now as int)
                    &&& *body == self.answers@[url@].body
                },
                None => ttl_seconds == 0 || !self.answers@.contains_key(url@) || !is_fresh(
                    self.answers@[url@].stored as int,
                    ttl_seconds,
                    now as int,
                ),
            },
    {
        if ttl_seconds == 0 {
            return None;
        }
        match self.answers.get(url) {
            Some(answer) => {
                if fresh(answer.stored, ttl_seconds, now) {
                    Some(&answer.body)
                } else {
                    None
                }
            },
            None => None,
        }
    }

    /// Stores an answer, and drops those that are no longer good. With no time to live nothing is
    /// stored.
    pub fn store(&mut self, url: String, body: Vec<u8>, ttl_seconds: u64, now: u128)
        ensures
            if ttl_seconds == 0 {
                final(self).answers@ == old(self).answers@
            } else {
                after_storing(
                    old(self).answers@,
                    final(self).answers@,
                    url@,
                    body@,
                    ttl_seconds,
                    now as int,
                )
            },
    {
        if ttl_seconds == 0 {
            return;
        }
        let ghost start = self.answers@;
        let mut held: TextMap<CachedAnswer> = TextMap::new();
        std::mem::swap(&mut held, &mut self.answers);
        let mut kept: TextMap<CachedAnswer> = TextMap::new();
        loop
            invariant_except_break
                forall|key: Seq<char>| #[trigger]
                    held@.contains_key(key) ==> start.contains_key(key) && held@[key] == start[key],
                forall|key: Seq<char>| #[trigger]
                    kept@.contains_key(key) <==> start.contains_key(key) && !held@.contains_key(key)
                        && is_fresh(start[key].stored as int, ttl_seconds, now as int),
                forall|key: Seq<char>| #[trigger]
                    kept@.contains_key(key) ==> kept@[key] == start[key],
            ensures
                forall|key: Seq<char>| #[trigger]
                    kept@.contains_key(key) <==> start.contains_key(key) && is_fresh(
                        start[key].stored as int,
                        ttl_seconds,
                        now as int,
                    ),
                forall|key: Seq<char>| #[trigger]
                    kept@.contains_key(key) ==> kept@[key] == start[key],
            decreases held.names().len(),
        {
            let ghost before = held@;
            let ghost had = kept@;
            match held.pop() {
                Some((name, answer)) => {
                    let ghost key = name@;
                    assert(before.contains_key(key));
                    if fresh(answer.stored, ttl_seconds, now) {
                        kept.insert(name, answer);
                    }
                    assert forall|other: Seq<char>| #[trigger]
                        kept@.contains_key(other) <==> start.contains_key(other)
                            && !held@.contains_key(other) && is_fresh(
                            start[other].stored as int,
                            ttl_seconds,
                            now as int,
                        ) by {
                        assert(had.contains_key(other) <==> start.contains_key(other)
                            && !before.contains_key(other) && is_fresh(
                            start[other].stored as int,
                            ttl_seconds,
                            now as int,
                        ));
                        assert(held@.contains_key(other) <==> before.contains_key(other) && other
                            != key);
                    }
                },
                None => {
                    break;
                },
            }
        }
        kept.insert(url, CachedAnswer { stored: now, body });
        self.answers = kept;
    }
}

/// What was stored is read back until its time is up, and not after.
pub proof fn an_answer_is_good_for_its_time(
    before: Map<Seq<char>, CachedAnswer>,
    after: Map<Seq<char>, CachedAnswer>,
    url: Seq<char>,
    body: Seq<u8>,
    ttl_seconds: u64,
    now: int,
    later: int,
)
    requires
        after_storing(before, after, url, body, ttl_seconds, now),
        now <= later,
    ensures
        after.contains_key(url),
        after[url].body@ == body,
        is_fresh(after[url].stored as int, ttl_seconds, later) <==> later - now < ttl_seconds
            * 1_000_000_000,
{
}

/// An address built from a text holds nothing that would end its query early: letters, digits,
/// percent signs and four marks.
pub proof fn encoded_text_is_plain(text: Seq<char>, i: int)
    requires
        0 <= i < percent_encoded(text).len(),
    ensures
        ({
            let c = percent_encoded(text)[i];
            c == '%' || 'A' <= c <= 'Z' || 'a' <= c <= 'z' || '0' <= c <= '9' || c == '-' || c
                == '_' || c == '.' || c == '~'
        }),
{
    encoded_bytes_are_plain(encode_utf8(text), encode_utf8(text).len() as int, i);
}

proof fn encoded_bytes_are_plain(bytes: Seq<u8>, n: int, i: int)
    requires
        0 <= n <= bytes.len(),
        0 <= i < encoded_bytes(bytes, n).len(),
    ensures
        ({
            let c = encoded_bytes(bytes, n)[i];
            c == '%' || 'A' <= c <= 'Z' || 'a' <= c <= 'z' || '0' <= c <= '9' || c == '-' || c
                == '_' || c == '.' || c == '~'
        }),
    decreases n,
{
    if n > 0 {
        let before = encoded_bytes(bytes, n - 1);
        let last = encoded_byte(bytes[n - 1]);
        if i < before.len() {
            encoded_bytes_are_plain(bytes, n - 1, i);
            assert(encoded_bytes(bytes, n)[i] == before[i]);
        } else {
            assert(encoded_bytes(bytes, n)[i] == last[i - before.len()]);
        }
    }
}

} // verus!
