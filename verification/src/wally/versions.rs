//! Semantic versions, as the `semver` crate reads and orders them.
use vstd::prelude::*;

verus! {

/// A version taken apart, and how it is written.
#[derive(Debug)]
pub struct VersionParts {
    pub major: u64,
    pub minor: u64,
    pub patch: u64,
    pub pre: String,
    pub build: String,
    pub shown: String,
}

/// A version, as contracts write it.
pub struct VersionModel {
    pub major: u64,
    pub minor: u64,
    pub patch: u64,
    pub pre: Seq<char>,
    pub build: Seq<char>,
    pub shown: Seq<char>,
}

impl DeepView for VersionParts {
    type V = VersionModel;

    open spec fn deep_view(&self) -> VersionModel {
        VersionModel {
            major: self.major,
            minor: self.minor,
            patch: self.patch,
            pre: self.pre@,
            build: self.build@,
            shown: self.shown@,
        }
    }
}

/// Whether `semver` reads a text as a requirement.
pub uninterp spec fn requirement_parses(text: Seq<char>) -> bool;

/// Whether a requirement allows a version, where `semver` reads both.
pub uninterp spec fn requirement_allows(requirement: Seq<char>, version: Seq<char>) -> Option<bool>;

/// The version `semver` reads from a text, where it reads one.
pub uninterp spec fn version_in(text: Seq<char>) -> Option<VersionModel>;

/// Whether `semver` orders one build metadata before another.
pub uninterp spec fn build_before(a: Seq<char>, b: Seq<char>) -> Option<bool>;

/// `semver::VersionReq::parse`: whether a text is a requirement. Which texts are is left to the
/// crate.
#[verifier::external_body]
pub(crate) fn requirement_is_valid(text: &str) -> (r: bool)
    ensures
        r == requirement_parses(text@),
{
    semver::VersionReq::parse(text).is_ok()
}

/// `semver::VersionReq::matches`, on a requirement and a version that are read first. Nothing is
/// answered where either cannot be read; which versions a requirement allows is left to the crate.
#[verifier::external_body]
pub(crate) fn version_is_allowed(requirement: &str, version: &str) -> (r: Option<bool>)
    ensures
        r == requirement_allows(requirement@, version@),
{
    let request = semver::VersionReq::parse(requirement).ok()?;
    let version = semver::Version::parse(version).ok()?;
    Some(request.matches(&version))
}

/// `semver::Version::parse`, its fields, and how it is written. Which texts are versions is left to
/// the crate.
#[verifier::external_body]
pub(crate) fn parse_version(text: &str) -> (r: Option<VersionParts>)
    ensures
        r.deep_view() == version_in(text@),
{
    let version = semver::Version::parse(text).ok()?;
    Some(VersionParts {
        major: version.major,
        minor: version.minor,
        patch: version.patch,
        pre: version.pre.as_str().to_string(),
        build: version.build.as_str().to_string(),
        shown: version.to_string(),
    })
}

/// `<semver::BuildMetadata as PartialOrd>::lt`, on build metadata that are read first. Nothing is
/// answered where either cannot be read; the order is left to the crate.
#[verifier::external_body]
fn build_is_before(a: &str, b: &str) -> (r: Option<bool>)
    ensures
        r == build_before(a@, b@),
{
    let left = semver::BuildMetadata::new(a).ok()?;
    let right = semver::BuildMetadata::new(b).ok()?;
    Some(left < right)
}

/// Whether the numbers of one version come before those of another.
pub open spec fn numbers_before(a: VersionModel, b: VersionModel) -> bool {
    ||| a.major < b.major
    ||| a.major == b.major && a.minor < b.minor
    ||| a.major == b.major && a.minor == b.minor && a.patch < b.patch
}

/// Whether two versions have the same numbers.
pub open spec fn same_numbers(a: VersionModel, b: VersionModel) -> bool {
    a.major == b.major && a.minor == b.minor && a.patch == b.patch
}

/// Whether one released version comes before another: by its numbers, then by its build metadata.
pub open spec fn released_before(a: VersionModel, b: VersionModel) -> bool {
    ||| numbers_before(a, b)
    ||| same_numbers(a, b) && build_before(a.build, b.build) == Some(true)
}

/// The released version a text holds: a version that is no prerelease.
pub open spec fn release_in(text: Seq<char>) -> Option<VersionModel> {
    match version_in(text) {
        Some(version) => if version.pre.len() == 0 {
            Some(version)
        } else {
            None
        },
        None => None,
    }
}

/// The highest released version among the first `n` texts.
pub open spec fn highest_release(texts: Seq<Seq<char>>, n: int) -> Option<VersionModel>
    decreases n,
{
    if n <= 0 {
        None
    } else {
        let best = highest_release(texts, n - 1);
        match release_in(texts[n - 1]) {
            None => best,
            Some(version) => match best {
                None => Some(version),
                Some(had) => if released_before(version, had) {
                    Some(had)
                } else {
                    Some(version)
                },
            },
        }
    }
}

/// How the highest released version is written.
pub open spec fn newest_of(texts: Seq<Seq<char>>) -> Option<Seq<char>> {
    match highest_release(texts, texts.len() as int) {
        Some(version) => Some(version.shown),
        None => None,
    }
}

fn comes_first(a: &VersionParts, b: &VersionParts) -> (r: bool)
    ensures
        r == released_before(a.deep_view(), b.deep_view()),
{
    if a.major != b.major {
        return a.major < b.major;
    }
    if a.minor != b.minor {
        return a.minor < b.minor;
    }
    if a.patch != b.patch {
        return a.patch < b.patch;
    }
    match build_is_before(a.build.as_str(), b.build.as_str()) {
        Some(before) => before,
        None => false,
    }
}

/// Which of two released versions is the higher one: the later of two that are level.
pub fn higher_release(had: Option<VersionParts>, next: VersionParts) -> (r: VersionParts)
    ensures
        r.deep_view() == (match had.deep_view() {
            None => next.deep_view(),
            Some(best) => if released_before(next.deep_view(), best) {
                best
            } else {
                next.deep_view()
            },
        }),
{
    match had {
        None => next,
        Some(best) => {
            if comes_first(&next, &best) {
                best
            } else {
                next
            }
        },
    }
}

/// The highest released version, ignoring prereleases so `add` never pins an alpha by accident.
pub fn newest(texts: &Vec<String>) -> (r: Option<String>)
    ensures
        r.deep_view() == newest_of(texts.deep_view()),
{
    let ghost all = texts.deep_view();
    let mut best: Option<VersionParts> = None;
    let mut i: usize = 0;
    while i < texts.len()
        invariant
            i <= texts@.len(),
            all == texts.deep_view(),
            best.deep_view() == highest_release(all, i as int),
        decreases texts@.len() - i,
    {
        assert(all[i as int] == texts@[i as int]@);
        if let Some(version) = parse_version(texts[i].as_str()) {
            if version.pre.as_str().is_empty() {
                best = Some(higher_release(best, version));
            }
        }
        i = i + 1;
    }
    match best {
        Some(version) => Some(version.shown),
        None => None,
    }
}

/// The highest released version is one of those published, is no prerelease, and no published
/// release has higher numbers. There is one exactly where a release is published.
pub proof fn the_newest_is_a_release_none_outranks(texts: Seq<Seq<char>>, n: int)
    requires
        0 <= n <= texts.len(),
    ensures
        match highest_release(texts, n) {
            Some(version) => {
                &&& version.pre.len() == 0
                &&& exists|i: int|
                    0 <= i < n && #[trigger] release_in(texts[i]) == Some(version)
                &&& forall|i: int|
                    0 <= i < n ==> (#[trigger] release_in(texts[i]) matches Some(other)
                        ==> !numbers_before(version, other))
            },
            None => forall|i: int| 0 <= i < n ==> #[trigger] release_in(texts[i]) is None,
        },
    decreases n,
{
    if n > 0 {
        the_newest_is_a_release_none_outranks(texts, n - 1);
        let last = release_in(texts[n - 1]);
        if let Some(version) = highest_release(texts, n) {
            if last != Some(version) {
                let i = choose|i: int|
                    0 <= i < n - 1 && #[trigger] release_in(texts[i]) == Some(version);
                assert(release_in(texts[i]) == Some(version));
            }
        }
    }
}

} // verus!
