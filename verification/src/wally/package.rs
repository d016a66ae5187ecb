//! Realms, package names and requirements, held to the rules Wally holds them to.
use vstd::prelude::*;
use vstd::utf8::*;
use super::versions::{requirement_is_valid, requirement_parses};
use crate::errors::{bare_failure, hinted, hinted_failure, unhinted, Failure, FailureModel};
use crate::text::{
    ascii_lowercase, find_char, is_white_space, owned, position_from, quote, quoted, same_text,
    split_once, split_once_on, to_ascii_lower, to_chars, trim, trim_end_of, trim_start_of, trimmed,
};

verus! {

/// Which dependency table an entry lives in, and which directory Wally installs it into.
#[derive(Debug, Clone, Copy, PartialEq, Eq, Structural)]
pub enum Realm {
    Shared,
    Server,
    Dev,
}

/// The realms, in the order they are listed.
pub open spec fn all_realms() -> Seq<Realm> {
    seq![Realm::Shared, Realm::Server, Realm::Dev]
}

/// The table a realm's dependencies are declared in.
pub open spec fn section_of(realm: Realm) -> Seq<char> {
    match realm {
        Realm::Shared => "dependencies"@,
        Realm::Server => "server-dependencies"@,
        Realm::Dev => "dev-dependencies"@,
    }
}

/// The directory a realm's packages are installed into.
pub open spec fn directory_of(realm: Realm) -> Seq<char> {
    match realm {
        Realm::Shared => "Packages"@,
        Realm::Server => "ServerPackages"@,
        Realm::Dev => "DevPackages"@,
    }
}

/// The realm a word stands for.
pub open spec fn realm_named(word: Seq<char>) -> Option<Realm> {
    if word == "shared"@ || word == "dependencies"@ {
        Some(Realm::Shared)
    } else if word == "server"@ || word == "server-dependencies"@ {
        Some(Realm::Server)
    } else if word == "dev"@ || word == "dev-dependencies"@ {
        Some(Realm::Dev)
    } else {
        None
    }
}

/// The realm an argument stands for: the shared one where nothing is said.
pub open spec fn realm_in(value: Option<Seq<char>>) -> Result<Realm, FailureModel> {
    match value {
        None => Ok(Realm::Shared),
        Some(text) => {
            let word = ascii_lowercase(trimmed(text));
            match realm_named(word) {
                Some(realm) => Ok(realm),
                None => Err(
                    hinted_failure(
                        "unknown realm: "@ + quoted(word),
                        "realm is one of \"shared\", \"server\", or \"dev\""@,
                    ),
                ),
            }
        },
    }
}

/// Two realms have different tables.
pub proof fn sections_differ()
    ensures
        forall|a: Realm, b: Realm|
            a != b ==> #[trigger] section_of(a) != #[trigger] section_of(b),
{
    reveal_strlit("dependencies");
    reveal_strlit("server-dependencies");
    reveal_strlit("dev-dependencies");
    assert("dependencies"@.len() == 12);
    assert("server-dependencies"@.len() == 19);
    assert("dev-dependencies"@.len() == 16);
}

impl Realm {
    /// The realms, in the order they are listed.
    pub fn all() -> (r: Vec<Realm>)
        ensures
            r@ == all_realms(),
    {
        let r = vec![Realm::Shared, Realm::Server, Realm::Dev];
        assert(r@ =~= all_realms());
        r
    }

    /// The wally.toml table this realm's dependencies are declared in.
    pub fn section(self) -> (r: &'static str)
        ensures
            r@ == section_of(self),
    {
        match self {
            Realm::Shared => "dependencies",
            Realm::Server => "server-dependencies",
            Realm::Dev => "dev-dependencies",
        }
    }

    /// The directory `wally install` writes this realm's packages into.
    pub fn directory(self) -> (r: &'static str)
        ensures
            r@ == directory_of(self),
    {
        match self {
            Realm::Shared => "Packages",
            Realm::Server => "ServerPackages",
            Realm::Dev => "DevPackages",
        }
    }

    /// Reads a realm, by its name or by its table.
    pub fn parse(value: Option<&str>) -> (r: Result<Realm, Failure>)
        ensures
            match r {
                Ok(realm) => realm_in(value.deep_view()) == Ok::<Realm, FailureModel>(realm),
                Err(failure) => realm_in(value.deep_view()) == Err::<Realm, FailureModel>(
                    failure.deep_view(),
                ),
            },
    {
        let text = match value {
            Some(text) => text,
            None => {
                return Ok(Realm::Shared);
            },
        };
        let word = to_ascii_lower(trim(text));
        if same_text(word.as_str(), "shared") || same_text(word.as_str(), "dependencies") {
            return Ok(Realm::Shared);
        }
        if same_text(word.as_str(), "server") || same_text(word.as_str(), "server-dependencies") {
            return Ok(Realm::Server);
        }
        if same_text(word.as_str(), "dev") || same_text(word.as_str(), "dev-dependencies") {
            return Ok(Realm::Dev);
        }
        let mut message = owned("unknown realm: ");
        message.append(quote(word.as_str()).as_str());
        Err(hinted(message, "realm is one of \"shared\", \"server\", or \"dev\""))
    }
}

// ---------------------------------------------------------------------------
// Package names

/// A `scope/name` package name, validated the way Wally validates it.
#[derive(Debug)]
pub struct PackageName {
    scope: String,
    name: String,
}

/// A package name, as contracts write it.
pub struct PackageModel {
    pub scope: Seq<char>,
    pub name: Seq<char>,
}

/// Whether a character may stand in a package name.
pub open spec fn is_name_char(c: char) -> bool {
    'a' <= c <= 'z' || '0' <= c <= '9' || c == '-'
}

/// Whether every character may stand in a package name.
pub open spec fn all_name_chars(s: Seq<char>) -> bool {
    forall|i: int| 0 <= i < s.len() ==> is_name_char(#[trigger] s[i])
}

/// Whether a text may be the scope or the name of a package.
pub open spec fn is_segment(s: Seq<char>) -> bool {
    s.len() > 0 && encode_utf8(s).len() <= 64 && all_name_chars(s)
}

/// Whether a text holds a capital letter of ASCII.
pub open spec fn holds_capital(s: Seq<char>) -> bool {
    exists|i: int| 0 <= i < s.len() && 'A' <= #[trigger] s[i] <= 'Z'
}

/// What is wrong with a scope or a name, where anything is.
pub open spec fn segment_problem(label: Seq<char>, s: Seq<char>) -> Option<FailureModel> {
    if is_segment(s) {
        None
    } else if holds_capital(s) {
        Some(
            hinted_failure(
                "a package "@ + label
                    + " may only contain lower-case letters, digits, and hyphens: "@ + quoted(s),
                "Wally names are lower case: try "@ + quoted(ascii_lowercase(s)),
            ),
        )
    } else {
        Some(
            bare_failure(
                "a package "@ + label
                    + " may only contain lower-case letters, digits, and hyphens, and must be 1 to 64 characters: "@
                    + quoted(s),
            ),
        )
    }
}

/// The package a text names.
pub open spec fn package_in(value: Seq<char>) -> Result<PackageModel, FailureModel> {
    let text = trimmed(value);
    match split_once_on(text, '/') {
        None => Err(
            hinted_failure(
                "package name has no scope: "@ + quoted(text),
                "a package is named SCOPE/NAME, such as \"roblox/roact\""@,
            ),
        ),
        Some((scope, name)) => if position_from(name, '/', 0) is Some {
            Err(
                hinted_failure(
                    "package name has more than one slash: "@ + quoted(text),
                    "a package is named SCOPE/NAME, such as \"roblox/roact\""@,
                ),
            )
        } else {
            match segment_problem("scope"@, scope) {
                Some(failure) => Err(failure),
                None => match segment_problem("name"@, name) {
                    Some(failure) => Err(failure),
                    None => Ok(PackageModel { scope, name }),
                },
            }
        },
    }
}

/// How a package is named.
pub open spec fn package_text(package: PackageModel) -> Seq<char> {
    package.scope + "/"@ + package.name
}

/// The directory a version of a package is unpacked into.
pub open spec fn index_directory_of(package: PackageModel, version: Seq<char>) -> Seq<char> {
    package.scope + "_"@ + package.name + "@"@ + version
}

fn name_char(c: char) -> (b: bool)
    ensures
        b == is_name_char(c),
{
    ('a' <= c && c <= 'z') || ('0' <= c && c <= '9') || c == '-'
}

fn check_segment(label: &str, value: &str) -> (r: Result<(), Failure>)
    ensures
        match r {
            Ok(_) => segment_problem(label@, value@) is None,
            Err(failure) => segment_problem(label@, value@) == Some(failure.deep_view()),
        },
{
    let chars = to_chars(value);
    let bytes = value.as_bytes();
    let mut all = true;
    let mut capital = false;
    let mut i: usize = 0;
    while i < chars.len()
        invariant
            i <= chars@.len(),
            chars@ == value@,
            all == (forall|k: int| 0 <= k < i ==> is_name_char(#[trigger] value@[k])),
            capital == (exists|k: int| 0 <= k < i && 'A' <= #[trigger] value@[k] <= 'Z'),
        decreases chars@.len() - i,
    {
        let c = chars[i];
        assert(c == value@[i as int]);
        if !name_char(c) {
            all = false;
        }
        if 'A' <= c && c <= 'Z' {
            capital = true;
        }
        i = i + 1;
    }
    if chars.len() > 0 && bytes.len() <= 64 && all {
        return Ok(());
    }
    let mut message = owned("a package ");
    message.append(label);
    if capital {
        message.append(" may only contain lower-case letters, digits, and hyphens: ");
        message.append(quote(value).as_str());
        let mut hint = owned("Wally names are lower case: try ");
        hint.append(quote(to_ascii_lower(value).as_str()).as_str());
        return Err(hinted(message, hint.as_str()));
    }
    message.append(
        " may only contain lower-case letters, digits, and hyphens, and must be 1 to 64 characters: ",
    );
    message.append(quote(value).as_str());
    Err(unhinted(message))
}

impl View for PackageName {
    type V = PackageModel;

    closed spec fn view(&self) -> PackageModel {
        PackageModel { scope: self.scope@, name: self.name@ }
    }
}

impl PackageName {
    #[verifier::type_invariant]
    spec fn valid(&self) -> bool {
        is_segment(self.scope@) && is_segment(self.name@)
    }

    /// Reads a package name.
    pub fn parse(value: &str) -> (r: Result<PackageName, Failure>)
        ensures
            match r {
                Ok(package) => package_in(value@) == Ok::<PackageModel, FailureModel>(package@),
                Err(failure) => package_in(value@) == Err::<PackageModel, FailureModel>(
                    failure.deep_view(),
                ),
            },
    {
        let text = trim(value);
        let (scope, name) = match split_once(text, '/') {
            Some(parts) => parts,
            None => {
                let mut message = owned("package name has no scope: ");
                message.append(quote(text).as_str());
                return Err(
                    hinted(message, "a package is named SCOPE/NAME, such as \"roblox/roact\""),
                );
            },
        };
        let chars = to_chars(name.as_str());
        if find_char(&chars, '/', 0).is_some() {
            let mut message = owned("package name has more than one slash: ");
            message.append(quote(text).as_str());
            return Err(hinted(message, "a package is named SCOPE/NAME, such as \"roblox/roact\""));
        }
        match check_segment("scope", scope.as_str()) {
            Ok(_) => {},
            Err(failure) => {
                return Err(failure);
            },
        }
        match check_segment("name", name.as_str()) {
            Ok(_) => {},
            Err(failure) => {
                return Err(failure);
            },
        }
        Ok(PackageName { scope, name })
    }

    /// The scope a package is published under.
    pub fn scope(&self) -> (r: &str)
        ensures
            r@ == self@.scope,
            is_segment(r@),
    {
        proof {
            use_type_invariant(self);
        }
        self.scope.as_str()
    }

    /// The name a package has in its scope.
    pub fn name(&self) -> (r: &str)
        ensures
            r@ == self@.name,
            is_segment(r@),
    {
        proof {
            use_type_invariant(self);
        }
        self.name.as_str()
    }

    /// The package as `scope/name`.
    pub fn text(&self) -> (r: String)
        ensures
            r@ == package_text(self@),
    {
        let mut r = self.scope.clone();
        r.append("/");
        r.append(self.name.as_str());
        r
    }

    /// The `scope_name@version` directory Wally unpacks a package into under `_Index`.
    pub fn index_directory(&self, version: &str) -> (r: String)
        ensures
            r@ == index_directory_of(self@, version@),
    {
        let mut r = self.scope.clone();
        r.append("_");
        r.append(self.name.as_str());
        r.append("@");
        r.append(version);
        r
    }

    /// Whether two names are the same.
    pub fn same(&self, other: &PackageName) -> (b: bool)
        ensures
            b == (self@ == other@),
    {
        same_text(self.scope.as_str(), other.scope.as_str()) && same_text(
            self.name.as_str(),
            other.name.as_str(),
        )
    }

    /// A copy of a name.
    pub fn copy(&self) -> (r: PackageName)
        ensures
            r@ == self@,
    {
        proof {
            use_type_invariant(self);
        }
        PackageName { scope: self.scope.clone(), name: self.name.clone() }
    }
}

// ---------------------------------------------------------------------------
// Requirements

/// The package a requirement names, and the version it asks for where it asks for one.
pub open spec fn requirement_in(value: Seq<char>) -> Result<
    (PackageModel, Option<Seq<char>>),
    FailureModel,
> {
    let text = trimmed(value);
    match split_once_on(text, '@') {
        Some((name, version)) => match package_in(name) {
            Ok(package) => Ok((package, Some(trimmed(version)))),
            Err(failure) => Err(failure),
        },
        None => match package_in(text) {
            Ok(package) => Ok((package, None)),
            Err(failure) => Err(failure),
        },
    }
}

/// A requirement that was read, as contracts write it.
pub open spec fn requirement_model(requirement: (PackageName, Option<String>)) -> (
    PackageModel,
    Option<Seq<char>>,
) {
    (requirement.0@, requirement.1.deep_view())
}

/// Splits `scope/name` or `scope/name@^1.0.0` into its two halves.
pub fn split_requirement(value: &str) -> (r: Result<(PackageName, Option<String>), Failure>)
    ensures
        match r {
            Ok(requirement) => requirement_in(value@) == Ok::<
                (PackageModel, Option<Seq<char>>),
                FailureModel,
            >(requirement_model(requirement)),
            Err(failure) => requirement_in(value@) == Err::<
                (PackageModel, Option<Seq<char>>),
                FailureModel,
            >(failure.deep_view()),
        },
{
    let text = trim(value);
    match split_once(text, '@') {
        Some((name, version)) => match PackageName::parse(name.as_str()) {
            Ok(package) => Ok((package, Some(owned(trim(version.as_str()))))),
            Err(failure) => Err(failure),
        },
        None => match PackageName::parse(text) {
            Ok(package) => Ok((package, None)),
            Err(failure) => Err(failure),
        },
    }
}

/// The requirement on a version that a text holds.
pub open spec fn version_req_in(value: Seq<char>) -> Result<Seq<char>, FailureModel> {
    let text = trimmed(value);
    if text.len() == 0 {
        Err(
            hinted_failure(
                "the version requirement is empty"@,
                "write a semver requirement such as \"^1.4.2\", or omit version to take the newest published release"@,
            ),
        )
    } else if requirement_parses(text) {
        Ok(text)
    } else {
        Err(
            hinted_failure(
                "invalid version requirement: "@ + quoted(text),
                "Wally takes Cargo-style semver requirements, such as \"^1.4.2\", \"1.4\", or \"=1.4.2\""@,
            ),
        )
    }
}

/// What is made of a requirement on a version once it is known whether it parses.
pub fn judge_version_req(text: &str, parses: bool) -> (r: Result<String, Failure>)
    ensures
        match r {
            Ok(kept) => text@.len() > 0 && parses && kept@ == text@,
            Err(failure) => if text@.len() == 0 {
                failure.deep_view() == hinted_failure(
                    "the version requirement is empty"@,
                    "write a semver requirement such as \"^1.4.2\", or omit version to take the newest published release"@,
                )
            } else {
                !parses && failure.deep_view() == hinted_failure(
                    "invalid version requirement: "@ + quoted(text@),
                    "Wally takes Cargo-style semver requirements, such as \"^1.4.2\", \"1.4\", or \"=1.4.2\""@,
                )
            },
        },
{
    if text.is_empty() {
        return Err(
            hinted(
                owned("the version requirement is empty"),
                "write a semver requirement such as \"^1.4.2\", or omit version to take the newest published release",
            ),
        );
    }
    if parses {
        return Ok(owned(text));
    }
    let mut message = owned("invalid version requirement: ");
    message.append(quote(text).as_str());
    Err(
        hinted(
            message,
            "Wally takes Cargo-style semver requirements, such as \"^1.4.2\", \"1.4\", or \"=1.4.2\"",
        ),
    )
}

/// Refuses a version requirement `wally install` would later reject.
pub fn check_version_req(value: &str) -> (r: Result<String, Failure>)
    ensures
        match r {
            Ok(kept) => version_req_in(value@) == Ok::<Seq<char>, FailureModel>(kept@),
            Err(failure) => version_req_in(value@) == Err::<Seq<char>, FailureModel>(
                failure.deep_view(),
            ),
        },
{
    let text = trim(value);
    let parses = requirement_is_valid(text);
    judge_version_req(text, parses)
}

// ---------------------------------------------------------------------------
// Aliases

/// Whether a character may stand in an alias.
pub open spec fn is_alias_char(c: char) -> bool {
    'a' <= c <= 'z' || 'A' <= c <= 'Z' || '0' <= c <= '9' || c == '_'
}

/// Whether a text reads as a Luau identifier.
pub open spec fn is_alias(s: Seq<char>) -> bool {
    &&& s.len() > 0
    &&& !('0' <= s[0] <= '9')
    &&& forall|i: int| 0 <= i < s.len() ==> is_alias_char(#[trigger] s[i])
}

/// Refuses an alias that would not be a usable Luau identifier at the require site.
pub fn check_alias<'a>(value: &'a str) -> (r: Result<&'a str, Failure>)
    ensures
        match r {
            Ok(alias) => is_alias(trimmed(value@)) && alias@ == trimmed(value@),
            Err(failure) => !is_alias(trimmed(value@)) && failure.deep_view() == hinted_failure(
                "invalid alias: "@ + quoted(trimmed(value@)),
                "the alias becomes the module's name under Packages/, so it must read as a Luau identifier, such as \"Roact\""@,
            ),
        },
{
    let alias = trim(value);
    let chars = to_chars(alias);
    let mut all = true;
    let mut i: usize = 0;
    while i < chars.len()
        invariant
            i <= chars@.len(),
            chars@ == alias@,
            all == (forall|k: int| 0 <= k < i ==> is_alias_char(#[trigger] alias@[k])),
        decreases chars@.len() - i,
    {
        let c = chars[i];
        assert(c == alias@[i as int]);
        if !(('a' <= c && c <= 'z') || ('A' <= c && c <= 'Z') || ('0' <= c && c <= '9') || c
            == '_') {
            all = false;
        }
        i = i + 1;
    }
    if chars.len() > 0 && !('0' <= chars[0] && chars[0] <= '9') && all {
        return Ok(alias);
    }
    let mut message = owned("invalid alias: ");
    message.append(quote(alias).as_str());
    Err(
        hinted(
            message,
            "the alias becomes the module's name under Packages/, so it must read as a Luau identifier, such as \"Roact\"",
        ),
    )
}

/// A small letter of ASCII made a capital.
pub open spec fn ascii_upper(c: char) -> char {
    if 'a' <= c <= 'z' {
        ((c as u32 - 32) as u32) as char
    } else {
        c
    }
}

/// A text without its hyphens.
pub open spec fn without_hyphens(s: Seq<char>) -> Seq<char>
    decreases s.len(),
{
    if s.len() == 0 {
        Seq::empty()
    } else if s.last() == '-' {
        without_hyphens(s.drop_last())
    } else {
        without_hyphens(s.drop_last()).push(s.last())
    }
}

/// The alias a package gets where none is asked for: its name with a capital first letter and
/// without the hyphens behind it.
pub open spec fn alias_of(name: Seq<char>) -> Seq<char> {
    if name.len() == 0 {
        Seq::empty()
    } else {
        seq![ascii_upper(name[0])] + without_hyphens(name.skip(1))
    }
}

fn upper_char(c: char) -> (r: char)
    ensures
        r == ascii_upper(c),
{
    if 'a' <= c && c <= 'z' {
        let code: u8 = (c as u8) - 32;
        code as char
    } else {
        c
    }
}

/// `roblox/roact` becomes `Roact`, which is what a require site expects to write.
pub fn default_alias(name: &PackageName) -> (r: String)
    ensures
        r@ == alias_of(name@.name),
{
    let chars = to_chars(name.name());
    let ghost rest = chars@.skip(1);
    let mut alias = String::new();
    if chars.len() == 0 {
        return alias;
    }
    alias.push(upper_char(chars[0]));
    let mut i: usize = 1;
    assert(rest.take(0) =~= Seq::empty());
    assert(alias@ =~= seq![ascii_upper(chars@[0])] + without_hyphens(rest.take(0)));
    while i < chars.len()
        invariant
            1 <= i <= chars@.len(),
            rest == chars@.skip(1),
            alias@ == seq![ascii_upper(chars@[0])] + without_hyphens(rest.take(i - 1)),
        decreases chars@.len() - i,
    {
        let ghost next = rest.take(i as int);
        assert(next.drop_last() =~= rest.take(i - 1));
        assert(next.last() == chars@[i as int]);
        let ghost before = alias@;
        if chars[i] != '-' {
            alias.push(chars[i]);
            assert(alias@ =~= seq![ascii_upper(chars@[0])] + without_hyphens(next));
        }
        i = i + 1;
    }
    assert(rest.take(i - 1) =~= rest);
    alias
}

// ---------------------------------------------------------------------------
// What holds of every requirement

proof fn position_is_there(s: Seq<char>, x: char, from: int, at: int)
    requires
        0 <= from <= at < s.len(),
        s[at] == x,
        forall|k: int| from <= k < at ==> #[trigger] s[k] != x,
    ensures
        position_from(s, x, from) == Some(at),
    decreases at - from,
{
    if from < at {
        assert(s[from] != x);
        position_is_there(s, x, from + 1, at);
    }
}

proof fn position_is_nowhere(s: Seq<char>, x: char, from: int)
    requires
        0 <= from,
        forall|k: int| from <= k < s.len() ==> #[trigger] s[k] != x,
    ensures
        position_from(s, x, from) is None,
    decreases s.len() - from,
{
    if from < s.len() {
        position_is_nowhere(s, x, from + 1);
    }
}

proof fn trimming_shortens(s: Seq<char>)
    ensures
        trim_start_of(s).len() <= s.len(),
        trim_start_of(s).len() == s.len() ==> trim_start_of(s) == s,
        trim_end_of(s).len() <= s.len(),
        trim_end_of(s).len() == s.len() ==> trim_end_of(s) == s,
    decreases s.len(),
{
    if s.len() > 0 {
        trimming_shortens(s.drop_first());
        trimming_shortens(s.drop_last());
    }
}

proof fn trim_end_of_sum(a: Seq<char>, b: Seq<char>)
    requires
        a.len() > 0,
        !is_white_space(a.last()),
    ensures
        trim_end_of(a + b) == a + trim_end_of(b),
    decreases b.len(),
{
    let all = a + b;
    if b.len() == 0 {
        assert(all =~= a);
        assert(a + b =~= a);
    } else {
        assert(all.last() == b.last());
        if is_white_space(b.last()) {
            assert(all.drop_last() =~= a + b.drop_last());
            trim_end_of_sum(a, b.drop_last());
        }
    }
}

proof fn name_chars_are_plain(s: Seq<char>)
    requires
        all_name_chars(s),
    ensures
        forall|k: int|
            0 <= k < s.len() ==> #[trigger] s[k] != '/' && s[k] != '@' && !is_white_space(s[k]),
{
}

/// A package name reads back as the package it names.
pub proof fn a_package_reads_back(package: PackageModel)
    requires
        is_segment(package.scope),
        is_segment(package.name),
    ensures
        package_in(package_text(package)) == Ok::<PackageModel, FailureModel>(package),
{
    reveal_strlit("/");
    let scope = package.scope;
    let name = package.name;
    let text = package_text(package);
    name_chars_are_plain(scope);
    name_chars_are_plain(name);
    assert(text[0] == scope[0]);
    assert(text.last() == name.last());
    assert(name.last() == name[name.len() - 1]);
    assert(trimmed(text) == text);
    let at = scope.len() as int;
    assert(text[at] == '/');
    assert forall|k: int| 0 <= k < at implies #[trigger] text[k] != '/' by {
        assert(text[k] == scope[k]);
    }
    position_is_there(text, '/', 0, at);
    assert(text.take(at) =~= scope);
    assert(text.skip(at + 1) =~= name);
    position_is_nowhere(name, '/', 0);
}

/// What is written for a package and a requirement on its version reads back as both.
pub proof fn a_requirement_reads_back(package: PackageModel, version_req: Seq<char>)
    requires
        is_segment(package.scope),
        is_segment(package.name),
    ensures
        requirement_in(package_text(package) + "@"@ + version_req) matches Ok((found, version))
            && found == package && (trimmed(version_req) == version_req ==> version == Some(
            version_req,
        )),
{
    reveal_strlit("/");
    reveal_strlit("@");
    let name = package_text(package);
    let head = name + "@"@;
    let text = head + version_req;
    name_chars_are_plain(package.scope);
    name_chars_are_plain(package.name);
    assert(text[0] == package.scope[0]);
    assert(trim_start_of(text) == text);
    assert(head.last() == '@');
    trim_end_of_sum(head, version_req);
    let kept = trim_end_of(version_req);
    let cut = trimmed(text);
    assert(cut == head + kept);
    let at = name.len() as int;
    assert(cut[at] == '@');
    assert forall|k: int| 0 <= k < at implies #[trigger] cut[k] != '@' by {
        assert(cut[k] == name[k]);
        let s = package.scope.len() as int;
        if k < s {
            assert(name[k] == package.scope[k]);
        } else if k > s {
            assert(name[k] == package.name[k - s - 1]);
        }
    }
    position_is_there(cut, '@', 0, at);
    assert(cut.take(at) =~= name);
    assert(cut.skip(at + 1) =~= kept);
    a_package_reads_back(package);
    if trimmed(version_req) == version_req {
        trimming_shortens(version_req);
        trimming_shortens(trim_start_of(version_req));
    }
}

} // verus!
