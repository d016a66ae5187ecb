//! What a registry is asked, and what is made of its answers.
use vstd::prelude::*;
use vstd::utf8::*;
use super::registry::{
    authority_end, base_of, counted, encoded_byte, encoded_bytes, hit_of, hop_problem, host_in,
    in_order, latest_in, lookup_failure_of, percent_encoded, registry_host, wait_of, Pace,
    RawHitModel, MINUTE,
};
use super::versions::{
    highest_release, newest_of, release_in, the_newest_is_a_release_none_outranks, version_in,
    VersionModel,
};
use crate::text::{ends_with, last_position_before, trimmed};
use crate::text_laws::{
    a_prefix_comes_off, a_text_is_split_at_the_first, a_text_is_split_at_the_last,
    a_text_without_it_is_not_split, free_of,
};

verus! {

// ---------------------------------------------------------------------------
// Versions

/// Whether a text is a released version: one that is read, with no prerelease.
pub open spec fn is_release(text: Seq<char>, version: VersionModel) -> bool {
    version_in(text) == Some(version) && version.pre.len() == 0
}

/// Whether the numbers of one version are above those of another.
pub open spec fn is_above(a: VersionModel, b: VersionModel) -> bool {
    if a.major != b.major {
        a.major > b.major
    } else if a.minor != b.minor {
        a.minor > b.minor
    } else {
        a.patch > b.patch
    }
}

/// Whether a version that is told is a release that is listed, and no release that is listed is above it.
pub open spec fn is_newest(texts: Seq<Seq<char>>, shown: Seq<char>) -> bool {
    exists|i: int, version: VersionModel|
        {
            &&& 0 <= i < texts.len()
            &&& #[trigger] is_release(texts[i], version)
            &&& version.shown == shown
            &&& forall|j: int, other: VersionModel|
                0 <= j < texts.len() && #[trigger] is_release(texts[j], other) ==> !is_above(
                    other,
                    version,
                )
        }
}

proof fn the_newest_is_told(texts: Seq<Seq<char>>)
    ensures
        match newest_of(texts) {
            Some(shown) => is_newest(texts, shown),
            None => forall|j: int, other: VersionModel|
                0 <= j < texts.len() ==> !(#[trigger] is_release(texts[j], other)),
        },
{
    let n = texts.len() as int;
    the_newest_is_a_release_none_outranks(texts, n);
    match highest_release(texts, n) {
        Some(version) => {
            let i = choose|i: int| 0 <= i < n && #[trigger] release_in(texts[i]) == Some(version);
            assert(is_release(texts[i], version));
            assert forall|j: int, other: VersionModel|
                0 <= j < texts.len() && #[trigger] is_release(texts[j], other) implies !is_above(
                other,
                version,
            ) by {
                assert(release_in(texts[j]) == Some(other));
            }
        },
        None => {
            assert forall|j: int, other: VersionModel| 0 <= j < texts.len() implies !(
            #[trigger] is_release(texts[j], other)) by {
                assert(release_in(texts[j]) is None);
            }
        },
    }
}

/// The latest version of a package is a release that is listed and that none is above. It is told exactly
/// where a release is listed.
pub proof fn the_latest_is_the_newest_release(name: Seq<char>, versions: Seq<Seq<char>>)
    ensures
        match latest_in(name, versions) {
            Ok(shown) => is_newest(versions, shown),
            Err(_) => forall|j: int, other: VersionModel|
                0 <= j < versions.len() ==> !(#[trigger] is_release(versions[j], other)),
        },
{
    the_newest_is_told(versions);
}

/// A hit tells what was matched: its name and scope, how many versions there are, the newest of them, and
/// what is said of it, unless that is only white space.
pub proof fn a_hit_tells_what_was_matched(raw: RawHitModel)
    ensures
        hit_of(raw).scope == raw.scope,
        hit_of(raw).name == raw.name,
        hit_of(raw).package == raw.scope.push('/') + raw.name,
        hit_of(raw).version_count == raw.versions.len(),
        match hit_of(raw).latest_version {
            Some(shown) => is_newest(raw.versions, shown),
            None => forall|j: int, other: VersionModel|
                0 <= j < raw.versions.len() ==> !(#[trigger] is_release(raw.versions[j], other)),
        },
        match hit_of(raw).description {
            Some(said) => raw.description == Some(said) && trimmed(said).len() > 0,
            None => raw.description matches Some(said) ==> trimmed(said).len() == 0,
        },
{
    the_newest_is_told(raw.versions);
    reveal_strlit("/");
    assert(raw.scope + "/"@ =~= raw.scope.push('/'));
}

// ---------------------------------------------------------------------------
// Addresses

/// The number a hexadecimal digit stands for.
pub open spec fn hex_value(c: char) -> int {
    if '0' <= c <= '9' {
        c as int - '0' as int
    } else if 'A' <= c <= 'F' {
        c as int - 'A' as int + 10
    } else {
        -1
    }
}

/// Whether a piece of an address writes a byte: a letter, a digit or one of four marks as it is, any other
/// byte as a percent sign and its two hexadecimal digits.
pub open spec fn writes_byte(piece: Seq<char>, byte: u8) -> bool {
    let c = byte as char;
    if 'A' <= c <= 'Z' || 'a' <= c <= 'z' || '0' <= c <= '9' || c == '-' || c == '_' || c == '.' || c
        == '~' {
        piece == seq![c]
    } else {
        &&& piece.len() == 3
        &&& piece[0] == '%'
        &&& 0 <= hex_value(piece[1]) < 16
        &&& 0 <= hex_value(piece[2]) < 16
        &&& hex_value(piece[1]) * 16 + hex_value(piece[2]) == byte
    }
}

proof fn a_byte_is_written(byte: u8)
    ensures
        writes_byte(encoded_byte(byte), byte),
{
}

/// A text is written in an address byte by byte, one piece for each.
pub proof fn an_address_writes_each_byte(text: Seq<char>) -> (pieces: Seq<Seq<char>>)
    ensures
        pieces.len() == encode_utf8(text).len(),
        forall|k: int|
            0 <= k < pieces.len() ==> writes_byte(#[trigger] pieces[k], encode_utf8(text)[k]),
        percent_encoded(text) == pieces.flatten(),
{
    let bytes = encode_utf8(text);
    pieces_up_to(bytes, bytes.len() as int)
}

proof fn pieces_up_to(bytes: Seq<u8>, n: int) -> (pieces: Seq<Seq<char>>)
    requires
        0 <= n <= bytes.len(),
    ensures
        pieces.len() == n,
        forall|k: int| 0 <= k < n ==> writes_byte(#[trigger] pieces[k], bytes[k]),
        encoded_bytes(bytes, n) == pieces.flatten(),
    decreases n,
{
    if n <= 0 {
        let none = Seq::<Seq<char>>::empty();
        none.lemma_flatten_and_flatten_alt_are_equivalent();
        assert(none.flatten() =~= Seq::<char>::empty());
        none
    } else {
        let before = pieces_up_to(bytes, n - 1);
        let last = encoded_byte(bytes[n - 1]);
        a_byte_is_written(bytes[n - 1]);
        let now = before.push(last);
        now.lemma_flatten_and_flatten_alt_are_equivalent();
        before.lemma_flatten_and_flatten_alt_are_equivalent();
        assert(now.drop_last() =~= before);
        assert(now.flatten_alt() == before.flatten_alt() + last);
        now
    }
}

/// However many slashes the address of a registry ends with, what is asked of it stands behind one.
pub proof fn slashes_at_the_end_are_one(registry: Seq<char>)
    ensures
        base_of(registry.push('/')) == base_of(registry),
        (registry.len() == 0 || registry.last() != '/') ==> base_of(registry) == registry.push('/'),
{
    reveal_strlit("/");
    let more = registry.push('/');
    assert(more.subrange(more.len() - 1, more.len() as int) =~= "/"@);
    assert(more.take(more.len() - 1) =~= registry);
    if registry.len() == 0 || registry.last() != '/' {
        if ends_with(registry, "/"@) {
            let at = registry.len() - 1;
            assert(registry.subrange(at, registry.len() as int)[0] == '/');
            assert(false);
        }
        assert(registry + "/"@ =~= registry.push('/'));
    }
}

/// Whether a text ends the part of an address that names a host: it is empty or starts with a slash, a
/// question mark or a hash.
pub open spec fn ends_authority(tail: Seq<char>) -> bool {
    tail.len() == 0 || tail[0] == '/' || tail[0] == '?' || tail[0] == '#'
}

/// Whether a text stands whole in the part of an address that names a host.
pub open spec fn is_in_authority(s: Seq<char>) -> bool {
    free_of(s, '/') && free_of(s, '?') && free_of(s, '#')
}

proof fn the_authority_ends(whole: Seq<char>, part: Seq<char>, tail: Seq<char>, i: int)
    requires
        whole == part + tail,
        is_in_authority(part),
        ends_authority(tail),
        0 <= i <= part.len(),
    ensures
        authority_end(whole, i) == part.len(),
    decreases part.len() - i,
{
    if i < part.len() {
        assert(whole[i] == part[i]);
        the_authority_ends(whole, part, tail, i + 1);
    } else if tail.len() > 0 {
        assert(whole[i] == tail[0]);
    }
}

proof fn none_is_last(s: Seq<char>, c: char, to: int)
    requires
        free_of(s, c),
        0 <= to <= s.len(),
    ensures
        last_position_before(s, c, to) is None,
    decreases to,
{
    if to > 0 {
        assert(s[to - 1] != c);
        none_is_last(s, c, to - 1);
    }
}

/// The host of an address is what stands between the scheme and what ends it, without the user before it
/// and the port behind it.
pub proof fn a_host_is_what_the_address_names(
    user: Option<Seq<char>>,
    host: Seq<char>,
    port: Option<Seq<char>>,
    tail: Seq<char>,
)
    requires
        host.len() > 0,
        is_in_authority(host),
        free_of(host, '@'),
        free_of(host, ':'),
        user matches Some(name) ==> is_in_authority(name),
        port matches Some(number) ==> is_in_authority(number) && free_of(number, '@'),
        ends_authority(tail),
    ensures
        ({
            let before = match user {
                Some(name) => name.push('@'),
                None => Seq::<char>::empty(),
            };
            let behind = match port {
                Some(number) => seq![':'] + number,
                None => Seq::<char>::empty(),
            };
            registry_host("https://"@ + (before + host + behind + tail)) matches Ok(told) && told
                == host
        }),
{
    let before = match user {
        Some(name) => name.push('@'),
        None => Seq::<char>::empty(),
    };
    let behind = match port {
        Some(number) => seq![':'] + number,
        None => Seq::<char>::empty(),
    };
    let part = before + host + behind;
    let rest = part + tail;
    a_prefix_comes_off("https://"@, rest);
    assert forall|k: int| 0 <= k < part.len() implies #[trigger] part[k] != '/' && part[k] != '?'
        && part[k] != '#' by {
        if k < before.len() {
            assert(part[k] == before[k]);
            if k < before.len() - 1 {
                assert(before[k] == user->0[k]);
            }
        } else if k < before.len() + host.len() {
            assert(part[k] == host[k - before.len()]);
        } else {
            let j = k - before.len() - host.len();
            assert(part[k] == behind[j]);
            if j > 0 {
                assert(behind[j] == port->0[j - 1]);
            }
        }
    }
    the_authority_ends(rest, part, tail, 0);
    assert(rest.take(part.len() as int) =~= part);
    let named = host + behind;
    assert forall|k: int| 0 <= k < named.len() implies #[trigger] named[k] != '@' by {
        if k < host.len() {
            assert(named[k] == host[k]);
        } else if k > host.len() {
            assert(named[k] == port->0[k - host.len() - 1]);
        }
    }
    match user {
        Some(name) => {
            assert(part =~= name.push('@') + named);
            a_text_is_split_at_the_last(name, '@', named);
        },
        None => {
            assert(part =~= named);
            none_is_last(named, '@', named.len() as int);
        },
    }
    match port {
        Some(number) => {
            assert(named =~= host.push(':') + number);
            a_text_is_split_at_the_first(host, ':', number);
        },
        None => {
            assert(named =~= host);
            a_text_without_it_is_not_split(host, ':');
        },
    }
    assert("https://"@ + (before + host + behind + tail) == "https://"@ + rest);
    assert(host_in(rest) == host);
}

/// Nothing is fetched but over a connection that is encrypted, and only from a host that is allowed.
pub proof fn only_some_hosts_are_fetched_from(url: Seq<char>, hosts: Seq<Seq<char>>)
    ensures
        hop_problem(url, hosts) is None ==> (registry_host(url) matches Ok(host) && exists|k: int|
            0 <= k < hosts.len() && #[trigger] hosts[k] == host),
        registry_host(url) matches Ok(host) ==> host.len() > 0 && exists|rest: Seq<char>|
            url == #[trigger] ("https://"@ + rest),
{
    if let Ok(host) = registry_host(url) {
        a_prefix_comes_off("https://"@, Seq::empty());
        let rest = crate::text::without_prefix(url, "https://"@)->0;
        assert(url == "https://"@ + rest);
    }
}

// ---------------------------------------------------------------------------
// Waiting

/// Those of a window that are less than a minute old are those still counted, for a window in order: the
/// last ones of it.
pub proof fn a_minute_is_counted(window: Seq<u128>, now: int)
    requires
        in_order(window, now),
    ensures
        ({
            let recent = counted(window, now);
            &&& recent.len() <= window.len()
            &&& recent == window.skip(window.len() - recent.len())
            &&& forall|k: int|
                0 <= k < window.len() ==> (now - #[trigger] window[k] < 60_000_000_000 <==> k
                    >= window.len() - recent.len())
        }),
    decreases window.len(),
{
    if window.len() > 0 && now - window[0] >= MINUTE {
        let rest = window.skip(1);
        assert forall|i: int, j: int| 0 <= i < j < rest.len() implies #[trigger] rest[i]
            <= #[trigger] rest[j] by {
            assert(rest[i] == window[i + 1]);
            assert(rest[j] == window[j + 1]);
        }
        assert forall|i: int| 0 <= i < rest.len() implies #[trigger] rest[i] <= now by {
            assert(rest[i] == window[i + 1]);
        }
        a_minute_is_counted(rest, now);
        let recent = counted(rest, now);
        assert(counted(window, now) == recent);
        assert(window.skip(window.len() - recent.len()) =~= rest.skip(rest.len() - recent.len()));
        assert forall|k: int| 0 <= k < window.len() implies (now - #[trigger] window[k]
            < 60_000_000_000 <==> k >= window.len() - recent.len()) by {
            if k > 0 {
                assert(rest[k - 1] == window[k]);
            }
        }
    } else {
        assert(window.skip(0) =~= window);
        assert forall|k: int| 0 <= k < window.len() implies now - #[trigger] window[k]
            < 60_000_000_000 by {
            assert(window[0] <= window[k]);
        }
    }
}

/// The wait is the least that keeps both the distance to the request before and the ceiling of a minute:
/// none where neither asks for one.
pub proof fn a_wait_is_no_longer_than_it_must_be(
    previous: Option<u128>,
    window: Seq<u128>,
    pace: Pace,
    now: int,
)
    requires
        in_order(window, now),
        previous matches Some(then) ==> then <= now,
    ensures
        ({
            let wait = wait_of(previous, window, pace, now);
            let recent = counted(window, now);
            let then = now + wait;
            wait > 0 ==> {
                ||| previous matches Some(before) && then - before == pace.min_request_interval_ms
                    * 1_000_000
                ||| pace.max_requests_per_minute > 0 && recent.len() >= pace.max_requests_per_minute
                    && then - recent[0] == 60_000_000_000
            }
        }),
{
    a_minute_is_counted(window, now);
    let recent = counted(window, now);
    if recent.len() > 0 {
        assert(recent[0] == window[window.len() - recent.len()]);
    }
}

/// A package that is not there reads otherwise than anything else that went wrong, and only where the
/// registry says that it is not there.
pub proof fn only_what_is_missing_reads_as_missing(
    name: Seq<char>,
    status: Option<u16>,
    error: Seq<char>,
)
    ensures
        ({
            let failure = lookup_failure_of(name, status, error);
            &&& failure.hint is Some
            &&& if status == Some(404u16) {
                failure.message == name + " is not published in the registry"@
            } else {
                failure.message == "could not look up "@ + name + " in the registry: "@ + error
            }
        }),
{
}

} // verus!
