//! Replacing the running executable with a released one.
use vstd::prelude::*;
use vstd::utf8::*;
use crate::errors::{bare_failure, caused, caused_failure, unhinted, Failure, FailureModel};
use crate::json::{document_in_bytes, member, read_json_bytes, Json, JsonModel};
use crate::paths::{file_name, join_path, joined_path, name_of, parent, parent_of};
use crate::system::System;
use crate::text::{
    ascii_lowercase, before_first, ends_with, has_prefix, has_suffix, is_white_space, lines, lines_of,
    owned, same_text, slice_text, split, split_on, starts_with, text_from_utf8, to_ascii_lower, to_chars,
    trim, trimmed, up_to, utf8_problem, white_space,
};

verus! {

/// The file that lists the digests of a release.
pub const SUMS_FILE: &'static str = "SHA256SUMS";

/// The hosts a release is downloaded from.
pub open spec fn hosts_of_releases() -> Seq<Seq<char>> {
    seq![
        "api.github.com"@,
        "github.com"@,
        "objects.githubusercontent.com"@,
        "release-assets.githubusercontent.com"@,
    ]
}

/// The hosts a release is downloaded from.
pub fn release_hosts() -> (r: Vec<String>)
    ensures
        r.deep_view() == hosts_of_releases(),
{
    let mut hosts: Vec<String> = Vec::new();
    hosts.push(owned("api.github.com"));
    hosts.push(owned("github.com"));
    hosts.push(owned("objects.githubusercontent.com"));
    hosts.push(owned("release-assets.githubusercontent.com"));
    assert(hosts.deep_view() =~= hosts_of_releases());
    hosts
}

/// The name of the executable.
pub open spec fn binary_name(windows: bool) -> Seq<char> {
    if windows {
        "biskit-mcp.exe"@
    } else {
        "biskit-mcp"@
    }
}

/// The name of the executable.
pub fn binary_file_name(windows: bool) -> (r: &'static str)
    ensures
        r@ == binary_name(windows),
{
    if windows {
        "biskit-mcp.exe"
    } else {
        "biskit-mcp"
    }
}

/// The asset of a release for a system, where one is published.
pub open spec fn asset_for(os: Seq<char>, arch: Seq<char>) -> Option<Seq<char>> {
    if os == "windows"@ && arch == "x86_64"@ {
        Some("biskit-mcp-windows-x86_64.zip"@)
    } else if os == "macos"@ && arch == "aarch64"@ {
        Some("biskit-mcp-macos-aarch64.tar.gz"@)
    } else if os == "macos"@ && arch == "x86_64"@ {
        Some("biskit-mcp-macos-x86_64.tar.gz"@)
    } else if os == "linux"@ && arch == "x86_64"@ {
        Some("biskit-mcp-linux-x86_64.tar.gz"@)
    } else if os == "linux"@ && arch == "aarch64"@ {
        Some("biskit-mcp-linux-aarch64.tar.gz"@)
    } else {
        None
    }
}

/// Which asset of a release is for a system.
pub fn asset_name(os: &str, arch: &str) -> (r: Result<&'static str, Failure>)
    ensures
        match r {
            Ok(asset) => asset_for(os@, arch@) == Some(asset@),
            Err(failure) => asset_for(os@, arch@) is None && failure.deep_view() == bare_failure(
                "no biskit-mcp release asset is published for "@ + os@ + "/"@ + arch@,
            ),
        },
{
    if same_text(os, "windows") && same_text(arch, "x86_64") {
        return Ok("biskit-mcp-windows-x86_64.zip");
    }
    if same_text(os, "macos") && same_text(arch, "aarch64") {
        return Ok("biskit-mcp-macos-aarch64.tar.gz");
    }
    if same_text(os, "macos") && same_text(arch, "x86_64") {
        return Ok("biskit-mcp-macos-x86_64.tar.gz");
    }
    if same_text(os, "linux") && same_text(arch, "x86_64") {
        return Ok("biskit-mcp-linux-x86_64.tar.gz");
    }
    if same_text(os, "linux") && same_text(arch, "aarch64") {
        return Ok("biskit-mcp-linux-aarch64.tar.gz");
    }
    let mut message = owned("no biskit-mcp release asset is published for ");
    message.append(os);
    message.append("/");
    message.append(arch);
    Err(unhinted(message))
}

// ---------------------------------------------------------------------------
// Tags and addresses

/// The tag a version is released under. Releases are tagged `v0.1.4`, so a bare version number is
/// accepted too.
pub open spec fn tag_of(value: Seq<char>) -> Seq<char> {
    if value.len() > 0 && '0' <= value[0] <= '9' {
        "v"@ + value
    } else {
        value
    }
}

/// Turns a version into the tag it is released under.
pub fn normalize_tag(value: &str) -> (r: String)
    ensures
        r@ == tag_of(value@),
{
    let chars = to_chars(value);
    if chars.len() > 0 && '0' <= chars[0] && chars[0] <= '9' {
        let mut r = owned("v");
        r.append(value);
        return r;
    }
    owned(value)
}

/// The tag that was asked for.
pub fn requested_tag(value: &str) -> (r: Result<String, Failure>)
    ensures
        match r {
            Ok(tag) => trimmed(value@).len() > 0 && tag@ == tag_of(trimmed(value@)),
            Err(failure) => trimmed(value@).len() == 0 && failure.deep_view() == bare_failure(
                "--tag was empty"@,
            ),
        },
{
    let text = trim(value);
    if text.is_empty() {
        return Err(unhinted(owned("--tag was empty")));
    }
    Ok(normalize_tag(text))
}

/// The tag of the latest release, out of what GitHub answered.
pub open spec fn latest_tag_in(release: Result<JsonModel, Seq<char>>) -> Result<
    Seq<char>,
    FailureModel,
> {
    match release {
        Err(problem) => Err(
            caused_failure("could not parse the GitHub release response"@, problem),
        ),
        Ok(document) => match member(document, "tag_name"@) {
            Some(JsonModel::Text(tag)) => Ok(tag),
            _ => Err(bare_failure("the latest release does not name a tag"@)),
        },
    }
}

/// A document that was read, or why there is none, as contracts write it.
pub open spec fn read_view(release: Result<Json, String>) -> Result<JsonModel, Seq<char>> {
    match release {
        Ok(document) => Ok(document.deep_view()),
        Err(problem) => Err(problem@),
    }
}

/// Reads the tag of the latest release out of what GitHub answered, once that is parsed.
pub fn tag_in_release(release: Result<Json, String>) -> (r: Result<String, Failure>)
    ensures
        match r {
            Ok(tag) => latest_tag_in(read_view(release)) == Ok::<Seq<char>, FailureModel>(tag@),
            Err(failure) => latest_tag_in(read_view(release)) == Err::<Seq<char>, FailureModel>(
                failure.deep_view(),
            ),
        },
{
    let document = match release {
        Ok(document) => document,
        Err(problem) => {
            return Err(caused(owned("could not parse the GitHub release response"), problem));
        },
    };
    if let Some(held) = document.get("tag_name") {
        if let Some(tag) = held.as_text() {
            return Ok(owned(tag));
        }
    }
    Err(unhinted(owned("the latest release does not name a tag")))
}

/// Reads the tag of the latest release out of what GitHub answered.
pub fn latest_tag(body: &[u8]) -> (r: Result<String, Failure>)
    ensures
        match r {
            Ok(tag) => latest_tag_in(document_in_bytes(body@)) == Ok::<Seq<char>, FailureModel>(
                tag@,
            ),
            Err(failure) => latest_tag_in(document_in_bytes(body@)) == Err::<
                Seq<char>,
                FailureModel,
            >(failure.deep_view()),
        },
{
    tag_in_release(read_json_bytes(body))
}

/// Where the latest release is looked up.
pub fn latest_url() -> (r: &'static str)
    ensures
        r@ == "https://api.github.com/repos/doctr-oof/biskit-mcp/releases/latest"@,
{
    "https://api.github.com/repos/doctr-oof/biskit-mcp/releases/latest"
}

/// Where a file of a release is downloaded from.
pub fn release_url(tag: &str, file: &str) -> (r: String)
    ensures
        r@ == "https://github.com/doctr-oof/biskit-mcp/releases/download/"@ + tag@ + "/"@ + file@,
{
    let mut r = owned("https://github.com/doctr-oof/biskit-mcp/releases/download/");
    r.append(tag);
    r.append("/");
    r.append(file);
    r
}

// ---------------------------------------------------------------------------
// Digests

/// Where the white space from `i` on ends.
pub open spec fn white_end(s: Seq<char>, i: int) -> int
    decreases s.len() - i,
{
    if 0 <= i < s.len() && is_white_space(s[i]) {
        white_end(s, i + 1)
    } else {
        i
    }
}

/// Where the word from `i` on ends.
pub open spec fn word_end(s: Seq<char>, i: int) -> int
    decreases s.len() - i,
{
    if 0 <= i < s.len() && !is_white_space(s[i]) {
        word_end(s, i + 1)
    } else {
        i
    }
}

/// The first word from `i` on, and where it ends.
pub open spec fn word_from(s: Seq<char>, i: int) -> Option<(Seq<char>, int)> {
    let start = white_end(s, i);
    let end = word_end(s, start);
    if start < s.len() {
        Some((s.subrange(start, end), end))
    } else {
        None
    }
}

/// A text without the stars it starts with.
pub open spec fn without_stars(s: Seq<char>) -> Seq<char>
    decreases s.len(),
{
    if s.len() > 0 && s[0] == '*' {
        without_stars(s.skip(1))
    } else {
        s
    }
}

/// The digest a line lists for an asset, where it lists that asset. A star before the name marks a
/// binary and is no part of it.
pub open spec fn digest_in_line(line: Seq<char>, asset: Seq<char>) -> Option<Seq<char>> {
    match word_from(line, 0) {
        Some((digest, end)) => match word_from(line, end) {
            Some((name, _)) => if without_stars(name) == asset {
                Some(ascii_lowercase(digest))
            } else {
                None
            },
            None => None,
        },
        None => None,
    }
}

/// The digest that the lines from `from` on list for an asset.
pub open spec fn digest_in_lines(all: Seq<Seq<char>>, asset: Seq<char>, from: int) -> Option<
    Seq<char>,
>
    decreases all.len() - from,
{
    if from < 0 || from >= all.len() {
        None
    } else {
        match digest_in_line(all[from], asset) {
            Some(digest) => Some(digest),
            None => digest_in_lines(all, asset, from + 1),
        }
    }
}

fn read_word(chars: &Vec<char>, from: usize) -> (r: Option<(String, usize)>)
    requires
        from <= chars@.len(),
    ensures
        match r {
            Some((word, end)) => word_from(chars@, from as int) == Some((word@, end as int)) && end
                <= chars@.len(),
            None => word_from(chars@, from as int) is None,
        },
{
    let mut start: usize = from;
    while start < chars.len() && white_space(chars[start])
        invariant
            from <= start <= chars@.len(),
            white_end(chars@, from as int) == white_end(chars@, start as int),
        decreases chars@.len() - start,
    {
        start = start + 1;
    }
    if start == chars.len() {
        return None;
    }
    let mut end: usize = start;
    while end < chars.len() && !white_space(chars[end])
        invariant
            start <= end <= chars@.len(),
            word_end(chars@, start as int) == word_end(chars@, end as int),
        decreases chars@.len() - end,
    {
        end = end + 1;
    }
    Some((slice_text(chars, start, end), end))
}

fn drop_stars(text: &str) -> (r: String)
    ensures
        r@ == without_stars(text@),
{
    let chars = to_chars(text);
    let mut i: usize = 0;
    assert(text@.skip(0) =~= text@);
    while i < chars.len() && chars[i] == '*'
        invariant
            i <= chars@.len(),
            chars@ == text@,
            without_stars(text@) == without_stars(text@.skip(i as int)),
        decreases chars@.len() - i,
    {
        assert(text@.skip(i as int).skip(1) =~= text@.skip(i + 1));
        i = i + 1;
    }
    assert(text@.skip(i as int) =~= text@.subrange(i as int, text@.len() as int));
    slice_text(&chars, i, chars.len())
}

fn read_digest(line: &str, asset: &str) -> (r: Option<String>)
    ensures
        r.deep_view() == digest_in_line(line@, asset@),
{
    let chars = to_chars(line);
    match read_word(&chars, 0) {
        Some((digest, end)) => match read_word(&chars, end) {
            Some((name, _)) => {
                if same_text(drop_stars(name.as_str()).as_str(), asset) {
                    Some(to_ascii_lower(digest.as_str()))
                } else {
                    None
                }
            },
            None => None,
        },
        None => None,
    }
}

/// The digest that a list of sums gives for an asset.
pub fn expected_digest(sums: &str, asset: &str) -> (r: Option<String>)
    ensures
        r.deep_view() == digest_in_lines(lines_of(sums@), asset@, 0),
{
    let all = lines(sums);
    let ghost model = all.deep_view();
    let mut i: usize = 0;
    while i < all.len()
        invariant
            i <= all@.len(),
            model == all.deep_view(),
            model == lines_of(sums@),
            digest_in_lines(model, asset@, 0) == digest_in_lines(model, asset@, i as int),
        decreases all@.len() - i,
    {
        assert(model[i as int] == all@[i as int]@);
        if let Some(digest) = read_digest(all[i].as_str(), asset) {
            return Some(digest);
        }
        i = i + 1;
    }
    None
}

/// What is wrong with a download, where anything is: it has to be listed, and to have the digest it
/// is listed with, whatever the case of its letters.
pub open spec fn digest_problem(
    sums: Seq<char>,
    asset: Seq<char>,
    actual: Seq<char>,
) -> Option<FailureModel> {
    match digest_in_lines(lines_of(sums), asset, 0) {
        None => Some(
            bare_failure(
                "SHA256SUMS does not list "@ + asset + ". Refusing to install."@,
            ),
        ),
        Some(expected) => if ascii_lowercase(actual) == ascii_lowercase(expected) {
            None
        } else {
            Some(
                bare_failure(
                    "checksum mismatch for "@ + asset + ": expected "@ + expected + ", got "@
                        + actual + ". The download was discarded."@,
                ),
            )
        },
    }
}

/// Refuses a download that is not listed, or whose digest is not the one it is listed with.
pub fn check_digest(sums: &str, asset: &str, actual: &str) -> (r: Result<(), Failure>)
    ensures
        match r {
            Ok(_) => digest_problem(sums@, asset@, actual@) is None,
            Err(failure) => digest_problem(sums@, asset@, actual@) == Some(failure.deep_view()),
        },
{
    let expected = match expected_digest(sums, asset) {
        Some(expected) => expected,
        None => {
            let mut message = owned("SHA256SUMS does not list ");
            message.append(asset);
            message.append(". Refusing to install.");
            return Err(unhinted(message));
        },
    };
    if same_text(to_ascii_lower(actual).as_str(), to_ascii_lower(expected.as_str()).as_str()) {
        return Ok(());
    }
    let mut message = owned("checksum mismatch for ");
    message.append(asset);
    message.append(": expected ");
    message.append(expected.as_str());
    message.append(", got ");
    message.append(actual);
    message.append(". The download was discarded.");
    Err(unhinted(message))
}

/// Reads a list of sums.
pub fn read_sums(bytes: Vec<u8>) -> (r: Result<String, Failure>)
    ensures
        match r {
            Ok(sums) => vstd::utf8::encode_utf8(sums@) == bytes@,
            Err(failure) => !vstd::utf8::valid_utf8(bytes@) && failure.deep_view()
                == caused_failure("SHA256SUMS is not valid UTF-8"@, utf8_problem(bytes@)),
        },
{
    match text_from_utf8(bytes) {
        Ok(sums) => Ok(sums),
        Err(problem) => Err(caused(owned("SHA256SUMS is not valid UTF-8"), problem)),
    }
}

// ---------------------------------------------------------------------------
// Archives

/// An entry of a zip archive: whether it is a file, and the path it is written with.
#[derive(Debug)]
pub struct ZipEntry {
    pub is_file: bool,
    pub path: Option<String>,
}

/// An entry of a tar archive: the path it is written with, and the last name of that path.
#[derive(Debug)]
pub struct TarEntry {
    pub path: Vec<u8>,
    pub name: Result<Option<String>, String>,
}

/// Whether a name is that of a device on some system: one of a few words, or a port with a digit,
/// whatever stands behind its first dot. A space before that dot is passed over there.
pub open spec fn is_device_name(name: Seq<char>) -> bool {
    let stem = ascii_lowercase(before_first(name, '.'));
    ||| stem.len() > 0 && stem.last() == ' '
    ||| stem == "con"@
    ||| stem == "prn"@
    ||| stem == "aux"@
    ||| stem == "nul"@
    ||| stem == "conin$"@
    ||| stem == "conout$"@
    ||| stem == "clock$"@
    ||| {
        &&& stem.len() == 4
        &&& starts_with(stem, "com"@) || starts_with(stem, "lpt"@)
        &&& '1' as int <= (stem[3] as int) % 256 <= '9' as int || stem[3] == '\u{b9}' || stem[3]
            == '\u{b2}' || stem[3] == '\u{b3}'
    }
}

/// Whether a character can stand in a name on every system.
pub open spec fn is_portable_char(c: char) -> bool {
    &&& 0x20 <= c as int
    &&& c as int != 0x7f
    &&& c != '<' && c != '>' && c != ':' && c != '"' && c != '/' && c != '\\' && c != '|' && c != '?'
        && c != '*'
}

/// How many units of two bytes the first `n` characters of a name take.
pub open spec fn units_in(name: Seq<char>, n: int) -> int
    decreases n,
{
    if n <= 0 {
        0
    } else if name[n - 1] as int >= 0x10000 {
        units_in(name, n - 1) + 2
    } else {
        units_in(name, n - 1) + 1
    }
}

/// Whether a name is one on every system: no reserved character, no dot or space at its end, no
/// device, and no longer than 255 units of two bytes.
pub open spec fn is_portable_name(name: Seq<char>) -> bool {
    &&& name.len() > 0
    &&& forall|i: int| 0 <= i < name.len() ==> is_portable_char(#[trigger] name[i])
    &&& name.last() != '.'
    &&& name.last() != ' '
    &&& !is_device_name(name)
    &&& units_in(name, name.len() as int) <= 255
}

/// The names among the first `n` parts of a path: all but nothing and single dots.
pub open spec fn names_among(parts: Seq<Seq<char>>, n: int) -> Seq<Seq<char>>
    decreases n,
{
    if n <= 0 {
        Seq::empty()
    } else if parts[n - 1].len() == 0 || parts[n - 1] == "."@ {
        names_among(parts, n - 1)
    } else {
        names_among(parts, n - 1).push(parts[n - 1])
    }
}

/// The names a path is made of: what stands between its slashes, but for nothing and single dots.
pub open spec fn names_in(path: Seq<char>) -> Seq<Seq<char>> {
    let parts = split_on(path, '/');
    names_among(parts, parts.len() as int)
}

/// Whether a path means the same on every system: it starts at no root, and is made of names that are
/// names everywhere.
pub open spec fn is_portable(path: Seq<char>) -> bool {
    let names = names_in(path);
    &&& !starts_with(path, "/"@)
    &&& forall|i: int| 0 <= i < names.len() ==> is_portable_name(#[trigger] names[i])
}

/// The last name of a path, where it has one.
pub open spec fn last_name(path: Seq<char>) -> Option<Seq<char>> {
    let names = names_in(path);
    if names.len() > 0 {
        Some(names.last())
    } else {
        None
    }
}

/// How many bytes a character takes.
pub open spec fn width_of(c: char) -> int {
    if (c as int) < 0x80 {
        1
    } else if (c as int) < 0x800 {
        2
    } else if (c as int) < 0x10000 {
        3
    } else {
        4
    }
}

/// Whether a part of a path starts at `i`: behind a slash of either kind, or behind a drive.
pub open spec fn starts_part(path: Seq<char>, i: int) -> bool {
    i == 0 || path[i - 1] == '/' || path[i - 1] == '\\' || path[i - 1] == ':'
}

/// Whether what goes on at `i` behind `bytes` bytes, up to a dot or the end of the part, has a character
/// that ends with the third byte, or ends sooner.
pub open spec fn is_whole_at_three(path: Seq<char>, i: int, bytes: int) -> bool
    decreases path.len() - i,
{
    if bytes >= 3 {
        bytes == 3
    } else if i < 0 || i >= path.len() || path[i] == '.' || path[i] == ':' || path[i] == '/' || path[i]
        == '\\' {
        true
    } else {
        is_whole_at_three(path, i + 1, bytes + width_of(path[i]))
    }
}

/// Whether every part of a path can be cut behind its third byte, where it has more than three before
/// its first dot.
pub open spec fn keeps_boundaries(path: Seq<char>) -> bool {
    forall|i: int|
        0 <= i < path.len() && #[trigger] starts_part(path, i) ==> is_whole_at_three(path, i, 0)
}

/// How many entries a zip archive has, or why it is none.
pub uninterp spec fn zip_count(archive: Seq<u8>) -> Result<usize, Seq<char>>;

/// Whether an entry of a zip archive is a file, and the path it is written with where that is a
/// text, or why the entry cannot be read.
pub uninterp spec fn zip_entry(archive: Seq<u8>, index: int) -> Result<
    (bool, Option<Seq<char>>),
    Seq<char>,
>;

/// What an entry of a zip archive holds, or why it cannot be read.
pub uninterp spec fn zip_contents(archive: Seq<u8>, index: int) -> Result<Seq<u8>, Seq<char>>;

/// The path an entry of a compressed tar archive is written with, or why the entry cannot be read;
/// nothing past the last entry.
pub uninterp spec fn tar_entry(archive: Seq<u8>, index: int) -> Option<
    Result<Seq<u8>, Seq<char>>,
>;

/// What an entry of a compressed tar archive holds, or why it cannot be read; nothing past the last
/// entry.
pub uninterp spec fn tar_contents(archive: Seq<u8>, index: int) -> Option<
    Result<Seq<u8>, Seq<char>>,
>;

/// The bytes of a result, as contracts write them.
pub open spec fn bytes_result(r: Result<Vec<u8>, String>) -> Result<Seq<u8>, Seq<char>> {
    match r {
        Ok(bytes) => Ok(bytes@),
        Err(error) => Err(error@),
    }
}

/// `zip::ZipArchive::new` and `len`. What is a zip archive is left to the crate.
#[verifier::external_body]
fn count_zip(archive: &[u8]) -> (r: Result<usize, String>)
    ensures
        match r {
            Ok(count) => zip_count(archive@) == Ok::<usize, Seq<char>>(count),
            Err(problem) => zip_count(archive@) == Err::<usize, Seq<char>>(problem@),
        },
{
    let opened = zip::ZipArchive::new(std::io::Cursor::new(archive));
    opened.map(|zip| zip.len()).map_err(|error| error.to_string())
}

/// `zip::ZipArchive::by_index`, with `ZipFile::is_file` and `ZipFile::name`. How an archive is read is
/// left to the crate.
#[verifier::external_body]
fn read_zip_entry(archive: &[u8], index: usize) -> (r: Result<ZipEntry, String>)
    ensures
        match r {
            Ok(entry) => zip_entry(archive@, index as int) == Ok::<
                (bool, Option<Seq<char>>),
                Seq<char>,
            >((entry.is_file, entry.path.deep_view())),
            Err(error) => zip_entry(archive@, index as int) == Err::<
                (bool, Option<Seq<char>>),
                Seq<char>,
            >(error@),
        },
{
    let opened = zip::ZipArchive::new(std::io::Cursor::new(archive));
    let mut zip = opened.map_err(|error| error.to_string())?;
    let entry = zip.by_index(index).map_err(|error| error.to_string())?;
    Ok(ZipEntry {
        is_file: entry.is_file(),
        path: entry.name().ok().map(|path| path.into_owned()),
    })
}

/// The `std::path::Path::file_name` of `ZipFile::enclosed_name`, on an entry that
/// `zip::ZipArchive::by_index` gives. Where backslashes part paths, the crate holds every part of the path
/// against the names of devices, and cuts it behind its third byte to do so: that byte has to end a
/// character. Each system has its own reading of a path with backslashes, colons, device names, `..` or a
/// root, and nothing is claimed of the name.
#[verifier::external_body]
fn enclosed_file_name(archive: &[u8], index: usize, system: &System) -> (r: Option<String>)
    requires
        zip_entry(archive@, index as int) matches Ok((_, path)) && (path matches Some(text) ==> (
        !system.splits_at_backslashes() || keeps_boundaries(text))),
{
    let mut zip = zip::ZipArchive::new(std::io::Cursor::new(archive)).ok()?;
    let enclosed = zip.by_index(index).ok()?.enclosed_name()?;
    enclosed.file_name().and_then(|name| name.to_str()).map(|name| name.to_owned())
}

/// `std::io::Read::read_to_end` of an entry that `zip::ZipArchive::by_index` gives. How an archive is
/// read is left to the crate.
#[verifier::external_body]
fn read_zip_contents(archive: &[u8], index: usize) -> (r: Result<Vec<u8>, String>)
    ensures
        bytes_result(r) == zip_contents(archive@, index as int),
{
    let opened = zip::ZipArchive::new(std::io::Cursor::new(archive));
    let mut zip = opened.map_err(|error| error.to_string())?;
    let mut entry = zip.by_index(index).map_err(|error| error.to_string())?;
    let mut bytes = Vec::new();
    std::io::Read::read_to_end(&mut entry, &mut bytes).map_err(|error| error.to_string())?;
    Ok(bytes)
}

/// `tar::Archive::entries` over a `flate2::read::GzDecoder`, at one of its entries, with
/// `tar::Entry::path_bytes` and the `std::path::Path::file_name` of `tar::Entry::path`. How an archive
/// is read is left to the crates. A path that is a text can be read, and its last name is claimed
/// where the path means the same on every system: names parted by slashes, single dots passed over,
/// with none that some system reads otherwise. Of other paths each system has its own reading, and
/// nothing is claimed.
#[verifier::external_body]
fn read_tar_entry(archive: &[u8], index: usize) -> (r: Option<Result<TarEntry, String>>)
    ensures
        match r {
            Some(Ok(entry)) => {
                &&& tar_entry(archive@, index as int) == Some(
                    Ok::<Seq<u8>, Seq<char>>(entry.path@),
                )
                &&& valid_utf8(entry.path@) ==> entry.name is Ok
                &&& valid_utf8(entry.path@) && is_portable(decode_utf8(entry.path@)) ==> (
                entry.name matches Ok(name) && name.deep_view() == last_name(
                    decode_utf8(entry.path@),
                ))
            },
            Some(Err(error)) => tar_entry(archive@, index as int) == Some(
                Err::<Seq<u8>, Seq<char>>(error@),
            ),
            None => tar_entry(archive@, index as int) is None,
        },
{
    let decoder = flate2::read::GzDecoder::new(std::io::Cursor::new(archive));
    let mut tar = tar::Archive::new(decoder);
    let entry = tar.entries().ok()?.nth(index)?;
    let told = entry.map(|entry| {
        let name = entry.path().map(|path| {
            path.file_name().and_then(|name| name.to_str()).map(|name| name.to_owned())
        });
        let name = name.map_err(|error| error.to_string());
        TarEntry { path: entry.path_bytes().into_owned(), name }
    });
    Some(told.map_err(|error| error.to_string()))
}

/// `std::io::Read::read_to_end` of an entry that `tar::Archive::entries` gives. How an archive is
/// read is left to the crates.
#[verifier::external_body]
fn read_tar_contents(archive: &[u8], index: usize) -> (r: Option<Result<Vec<u8>, String>>)
    ensures
        match r {
            Some(read) => tar_contents(archive@, index as int) == Some(bytes_result(read)),
            None => tar_contents(archive@, index as int) is None,
        },
{
    let decoder = flate2::read::GzDecoder::new(std::io::Cursor::new(archive));
    let mut tar = tar::Archive::new(decoder);
    let entry = tar.entries().ok()?.nth(index)?;
    let read = entry.and_then(|mut entry| {
        let mut bytes = Vec::new();
        std::io::Read::read_to_end(&mut entry, &mut bytes)?;
        Ok(bytes)
    });
    Some(read.map_err(|error| error.to_string()))
}

/// The failure of an archive that holds no executable.
pub open spec fn no_binary(binary: Seq<char>) -> FailureModel {
    bare_failure("release asset did not contain a "@ + binary + " executable"@)
}

/// What came of reading an entry.
pub open spec fn read_result(read: Result<Seq<u8>, Seq<char>>) -> Result<Seq<u8>, FailureModel> {
    match read {
        Ok(bytes) => Ok(bytes),
        Err(error) => Err(bare_failure(error)),
    }
}

/// Whether the last name of a path can be the executable's.
pub open spec fn may_name(path: Option<Seq<char>>, binary: Seq<char>) -> bool {
    path matches Some(text) && (is_portable(text) ==> last_name(text) == Some(binary))
}

/// Whether the last name of a path can be another than the executable's.
pub open spec fn may_name_another(path: Option<Seq<char>>, binary: Seq<char>) -> bool {
    path matches Some(text) ==> (is_portable(text) ==> last_name(text) != Some(binary))
}

/// The text of a path that is written in bytes, where it is one.
pub open spec fn path_text(path: Seq<u8>) -> Option<Seq<char>> {
    if valid_utf8(path) {
        Some(decode_utf8(path))
    } else {
        None
    }
}

/// Whether the entries of a zip archive from `i` on can lead to a result: what the first file holds
/// whose name is the executable's.
pub open spec fn zip_leads_to(
    archive: Seq<u8>,
    binary: Seq<char>,
    count: int,
    i: int,
    result: Result<Seq<u8>, FailureModel>,
) -> bool
    decreases count - i,
{
    if i >= count {
        result == Err::<Seq<u8>, FailureModel>(no_binary(binary))
    } else {
        match zip_entry(archive, i) {
            Err(error) => result == Err::<Seq<u8>, FailureModel>(bare_failure(error)),
            Ok((is_file, path)) => {
                ||| is_file && may_name(path, binary) && result == read_result(
                    zip_contents(archive, i),
                )
                ||| (!is_file || may_name_another(path, binary)) && zip_leads_to(
                    archive,
                    binary,
                    count,
                    i + 1,
                    result,
                )
            },
        }
    }
}

/// Whether the entries of a compressed tar archive from `i` on can lead to a result: what the first
/// entry holds whose name is the executable's. A path that is no text can fail to be read, and can
/// have any name.
pub open spec fn tar_leads_to(
    archive: Seq<u8>,
    binary: Seq<char>,
    i: int,
    result: Result<Seq<u8>, FailureModel>,
) -> bool
    decreases usize::MAX - i,
{
    if i >= usize::MAX {
        result == Err::<Seq<u8>, FailureModel>(no_binary(binary))
    } else {
        match tar_entry(archive, i) {
            None => result == Err::<Seq<u8>, FailureModel>(no_binary(binary)),
            Some(Err(error)) => result == Err::<Seq<u8>, FailureModel>(bare_failure(error)),
            Some(Ok(path)) => {
                let text = path_text(path);
                ||| (text is None || may_name(text, binary)) && result == (match tar_contents(
                    archive,
                    i,
                ) {
                    Some(read) => read_result(read),
                    None => Err(no_binary(binary)),
                })
                ||| may_name_another(text, binary) && tar_leads_to(archive, binary, i + 1, result)
                ||| text is None && result is Err
            },
        }
    }
}

/// Whether the asset of a release can lead to a result.
pub open spec fn asset_leads_to(
    archive: Seq<u8>,
    asset: Seq<char>,
    binary: Seq<char>,
    result: Result<Seq<u8>, FailureModel>,
) -> bool {
    if ends_with(asset, ".zip"@) {
        match zip_count(archive) {
            Err(problem) => result == Err::<Seq<u8>, FailureModel>(
                caused_failure("release asset is not a valid zip archive"@, problem),
            ),
            Ok(count) => zip_leads_to(archive, binary, count as int, 0, result),
        }
    } else {
        tar_leads_to(archive, binary, 0, result)
    }
}

/// An extracted executable, as contracts write it.
pub open spec fn extracted(r: Result<Vec<u8>, Failure>) -> Result<Seq<u8>, FailureModel> {
    match r {
        Ok(bytes) => Ok(bytes@),
        Err(failure) => Err(failure.deep_view()),
    }
}

/// Whether a name is the executable's.
pub fn names_the_binary(name: &Option<String>, binary: &str) -> (b: bool)
    ensures
        b == (name.deep_view() == Some(binary@)),
{
    match name {
        Some(held) => same_text(held.as_str(), binary),
        None => false,
    }
}

fn missing_binary(binary: &str) -> (r: Failure)
    ensures
        r.deep_view() == no_binary(binary@),
{
    let mut message = owned("release asset did not contain a ");
    message.append(binary);
    message.append(" executable");
    unhinted(message)
}

fn told(read: Result<Vec<u8>, String>) -> (r: Result<Vec<u8>, Failure>)
    ensures
        extracted(r) == read_result(bytes_result(read)),
{
    match read {
        Ok(bytes) => Ok(bytes),
        Err(error) => Err(unhinted(error)),
    }
}

/// Whether every part of a path can be cut behind its third byte.
fn has_boundaries(path: &str) -> (b: bool)
    ensures
        b == keeps_boundaries(path@),
{
    let chars = to_chars(path);
    let end: usize = chars.len();
    let mut i: usize = 0;
    while i < end
        invariant
            i <= end,
            end == chars@.len(),
            chars@ == path@,
            forall|k: int|
                0 <= k < i && #[trigger] starts_part(path@, k) ==> is_whole_at_three(path@, k, 0),
        decreases end - i,
    {
        if i == 0 || chars[i - 1] == '/' || chars[i - 1] == '\\' || chars[i - 1] == ':' {
            assert(starts_part(path@, i as int));
            if !whole_at_three(&chars, i) {
                return false;
            }
        }
        i = i + 1;
    }
    true
}

fn width(c: char) -> (n: usize)
    ensures
        n == width_of(c),
{
    let code: u32 = c as u32;
    if code < 0x80 {
        1
    } else if code < 0x800 {
        2
    } else if code < 0x10000 {
        3
    } else {
        4
    }
}

fn whole_at_three(chars: &Vec<char>, from: usize) -> (b: bool)
    requires
        from <= chars@.len(),
    ensures
        b == is_whole_at_three(chars@, from as int, 0),
{
    let mut bytes: usize = 0;
    let mut i: usize = from;
    while bytes < 3 && i < chars.len() && chars[i] != '.' && chars[i] != ':' && chars[i] != '/'
        && chars[i] != '\\'
        invariant
            from <= i <= chars@.len(),
            bytes <= 6,
            is_whole_at_three(chars@, from as int, 0) == is_whole_at_three(
                chars@,
                i as int,
                bytes as int,
            ),
        decreases chars@.len() - i,
    {
        bytes = bytes + width(chars[i]);
        i = i + 1;
    }
    bytes <= 3
}

fn is_device(name: &str) -> (b: bool)
    ensures
        b == is_device_name(name@),
{
    let stem = to_ascii_lower(up_to(name, '.').as_str());
    let chars = to_chars(stem.as_str());
    let text = stem.as_str();
    if chars.len() > 0 && chars[chars.len() - 1] == ' ' {
        return true;
    }
    if same_text(text, "con") || same_text(text, "prn") || same_text(text, "aux") || same_text(
        text,
        "nul",
    ) || same_text(text, "conin$") || same_text(text, "conout$") || same_text(text, "clock$") {
        return true;
    }
    if chars.len() == 4 && (has_prefix(text, "com") || has_prefix(text, "lpt")) {
        let c: char = chars[3];
        let low: u32 = (c as u32) % 256;
        return (0x31 <= low && low <= 0x39) || c == '\u{b9}' || c == '\u{b2}' || c == '\u{b3}';
    }
    false
}

fn portable_char(c: char) -> (b: bool)
    ensures
        b == is_portable_char(c),
{
    let code: u32 = c as u32;
    code >= 0x20 && code != 0x7f && c != '<' && c != '>' && c != ':' && c != '"' && c != '/' && c
        != '\\' && c != '|' && c != '?' && c != '*'
}

fn portable_name(name: &str) -> (b: bool)
    ensures
        b == is_portable_name(name@),
{
    let chars = to_chars(name);
    let end: usize = chars.len();
    if end == 0 || end > 255 {
        proof {
            units_take_room(name@, name@.len() as int);
        }
        return false;
    }
    let mut units: usize = 0;
    let mut i: usize = 0;
    while i < end
        invariant
            i <= end <= 255,
            end == chars@.len(),
            chars@ == name@,
            units <= 2 * i,
            units == units_in(name@, i as int),
            forall|k: int| 0 <= k < i ==> is_portable_char(#[trigger] name@[k]),
        decreases end - i,
    {
        if !portable_char(chars[i]) {
            assert(!is_portable_char(name@[i as int]));
            return false;
        }
        units = units + if width(chars[i]) == 4 {
            2
        } else {
            1
        };
        i = i + 1;
    }
    units <= 255 && chars[end - 1] != '.' && chars[end - 1] != ' ' && !is_device(name)
}

proof fn units_take_room(name: Seq<char>, n: int)
    requires
        0 <= n <= name.len(),
    ensures
        n <= units_in(name, n),
    decreases n,
{
    if n > 0 {
        units_take_room(name, n - 1);
    }
}

/// The names a path is made of.
fn path_names(path: &str) -> (r: Vec<String>)
    ensures
        r.deep_view() == names_in(path@),
{
    let parts = split(path, '/');
    let ghost all = parts.deep_view();
    let mut names: Vec<String> = Vec::new();
    let mut i: usize = 0;
    assert(names.deep_view() =~= names_among(all, 0));
    while i < parts.len()
        invariant
            i <= parts@.len(),
            all == parts.deep_view(),
            names.deep_view() == names_among(all, i as int),
        decreases parts@.len() - i,
    {
        let part = parts[i].as_str();
        assert(all[i as int] == part@);
        let ghost before = names.deep_view();
        if !part.is_empty() && !same_text(part, ".") {
            names.push(owned(part));
            assert(names.deep_view() =~= before.push(part@));
        }
        i = i + 1;
    }
    names
}

/// The last name of a path, where the path means the same on every system; else whether it does not.
fn portable_last_name(path: &str) -> (r: Result<Option<String>, ()>)
    ensures
        match r {
            Ok(name) => is_portable(path@) && name.deep_view() == last_name(path@),
            Err(_) => !is_portable(path@),
        },
{
    let names = path_names(path);
    let ghost all = names.deep_view();
    if has_prefix(path, "/") {
        return Err(());
    }
    let mut i: usize = 0;
    while i < names.len()
        invariant
            i <= names@.len(),
            all == names.deep_view(),
            all == names_in(path@),
            forall|k: int| 0 <= k < i ==> is_portable_name(#[trigger] all[k]),
        decreases names@.len() - i,
    {
        assert(all[i as int] == names@[i as int]@);
        if !portable_name(names[i].as_str()) {
            return Err(());
        }
        i = i + 1;
    }
    assert(all.len() == names@.len());
    if names.len() > 0 {
        assert(all[names@.len() - 1] == names@[names@.len() - 1]@);
        Ok(Some(owned(names[names.len() - 1].as_str())))
    } else {
        Ok(None)
    }
}

/// The last name of the path of an entry, where it has one and the path stays inside the archive. A path
/// that means the same on every system is read here, and any other as the system does. Where the system
/// cannot read it at all, because a part of it cannot be cut behind its third byte, it has no name.
fn zip_entry_name(archive: &[u8], index: usize, path: &str) -> (r: Option<String>)
    requires
        zip_entry(archive@, index as int) matches Ok((_, held)) && held == Some(path@),
    ensures
        is_portable(path@) ==> r.deep_view() == last_name(path@),
{
    match portable_last_name(path) {
        Ok(name) => name,
        Err(_) => {
            let system = System::here();
            if system.has_backslashes() && !has_boundaries(path) {
                None
            } else {
                enclosed_file_name(archive, index, &system)
            }
        },
    }
}

fn extract_from_zip(archive: &[u8], binary: &str) -> (r: Result<Vec<u8>, Failure>)
    ensures
        match zip_count(archive@) {
            Err(problem) => extracted(r) == Err::<Seq<u8>, FailureModel>(
                caused_failure("release asset is not a valid zip archive"@, problem),
            ),
            Ok(count) => zip_leads_to(archive@, binary@, count as int, 0, extracted(r)),
        },
{
    let count = match count_zip(archive) {
        Ok(count) => count,
        Err(problem) => {
            return Err(caused(owned("release asset is not a valid zip archive"), problem));
        },
    };
    let mut i: usize = 0;
    while i < count
        invariant
            i <= count,
            zip_count(archive@) == Ok::<usize, Seq<char>>(count),
            forall|result: Result<Seq<u8>, FailureModel>| #[trigger]
                zip_leads_to(archive@, binary@, count as int, i as int, result) ==> zip_leads_to(
                    archive@,
                    binary@,
                    count as int,
                    0,
                    result,
                ),
        decreases count - i,
    {
        match read_zip_entry(archive, i) {
            Err(error) => {
                let r = Err(unhinted(error));
                assert(zip_leads_to(archive@, binary@, count as int, i as int, extracted(r)));
                return r;
            },
            Ok(entry) => {
                let named = match &entry.path {
                    Some(path) => entry.is_file && names_the_binary(
                        &zip_entry_name(archive, i, path.as_str()),
                        binary,
                    ),
                    None => false,
                };
                if named {
                    let r = told(read_zip_contents(archive, i));
                    assert(zip_leads_to(archive@, binary@, count as int, i as int, extracted(r)));
                    return r;
                }
                assert forall|result: Result<Seq<u8>, FailureModel>| #[trigger]
                    zip_leads_to(archive@, binary@, count as int, i + 1, result) implies zip_leads_to(
                    archive@,
                    binary@,
                    count as int,
                    0,
                    result,
                ) by {
                    assert(zip_leads_to(archive@, binary@, count as int, i as int, result));
                }
            },
        }
        i = i + 1;
    }
    let r = Err(missing_binary(binary));
    assert(zip_leads_to(archive@, binary@, count as int, i as int, extracted(r)));
    r
}

fn extract_from_tar_gz(archive: &[u8], binary: &str) -> (r: Result<Vec<u8>, Failure>)
    ensures
        tar_leads_to(archive@, binary@, 0, extracted(r)),
{
    let mut i: usize = 0;
    while i < usize::MAX
        invariant
            i <= usize::MAX,
            forall|result: Result<Seq<u8>, FailureModel>| #[trigger]
                tar_leads_to(archive@, binary@, i as int, result) ==> tar_leads_to(
                    archive@,
                    binary@,
                    0,
                    result,
                ),
        decreases usize::MAX - i,
    {
        match read_tar_entry(archive, i) {
            None => {
                let r = Err(missing_binary(binary));
                assert(tar_leads_to(archive@, binary@, i as int, extracted(r)));
                return r;
            },
            Some(Err(error)) => {
                let r = Err(unhinted(error));
                assert(tar_leads_to(archive@, binary@, i as int, extracted(r)));
                return r;
            },
            Some(Ok(entry)) => match entry.name {
                Err(error) => {
                    let r = Err(unhinted(error));
                    assert(tar_leads_to(archive@, binary@, i as int, extracted(r)));
                    return r;
                },
                Ok(name) => {
                    if names_the_binary(&name, binary) {
                        let r = match read_tar_contents(archive, i) {
                            Some(read) => told(read),
                            None => Err(missing_binary(binary)),
                        };
                        assert(tar_leads_to(archive@, binary@, i as int, extracted(r)));
                        return r;
                    }
                    assert forall|result: Result<Seq<u8>, FailureModel>| #[trigger]
                        tar_leads_to(archive@, binary@, i + 1, result) implies tar_leads_to(
                        archive@,
                        binary@,
                        0,
                        result,
                    ) by {
                        assert(tar_leads_to(archive@, binary@, i as int, result));
                    }
                },
            },
        }
        i = i + 1;
    }
    let r = Err(missing_binary(binary));
    assert(tar_leads_to(archive@, binary@, i as int, extracted(r)));
    r
}

/// Takes the executable out of the asset of a release. Entry paths are never written to disk, so
/// only the file name matters here. Where every path means the same on every system, the archive
/// alone decides the result; see [`a_portable_zip_decides`] and [`a_portable_tar_decides`].
pub fn extract_binary(archive: &[u8], asset: &str, binary: &str) -> (r: Result<Vec<u8>, Failure>)
    ensures
        asset_leads_to(archive@, asset@, binary@, extracted(r)),
{
    if has_suffix(asset, ".zip") {
        return extract_from_zip(archive, binary);
    }
    extract_from_tar_gz(archive, binary)
}

/// Whether every entry of a zip archive that can be read has a path that means the same on every
/// system.
pub open spec fn is_portable_zip(archive: Seq<u8>, count: int) -> bool {
    forall|i: int|
        0 <= i < count ==> ((#[trigger] zip_entry(archive, i)) matches Ok((_, path)) ==> path
            matches Some(text) && is_portable(text))
}

/// Whether every entry of a tar archive that can be read has a path that means the same on every
/// system.
pub open spec fn is_portable_tar(archive: Seq<u8>) -> bool {
    forall|i: int|
        0 <= i ==> ((#[trigger] tar_entry(archive, i)) matches Some(Ok(path)) ==> path_text(path)
            matches Some(text) && is_portable(text))
}

/// The executable in a zip archive whose paths are portable: what the first file of its name holds.
pub open spec fn binary_in_zip(archive: Seq<u8>, binary: Seq<char>, count: int, i: int) -> Result<
    Seq<u8>,
    FailureModel,
>
    decreases count - i,
{
    if i >= count {
        Err(no_binary(binary))
    } else {
        match zip_entry(archive, i) {
            Err(error) => Err(bare_failure(error)),
            Ok((is_file, path)) => if is_file && path is Some && last_name(path->0) == Some(binary) {
                read_result(zip_contents(archive, i))
            } else {
                binary_in_zip(archive, binary, count, i + 1)
            },
        }
    }
}

/// The executable in a compressed tar archive whose paths are portable: what the first entry of its
/// name holds.
pub open spec fn binary_in_tar(archive: Seq<u8>, binary: Seq<char>, i: int) -> Result<
    Seq<u8>,
    FailureModel,
>
    decreases usize::MAX - i,
{
    if i >= usize::MAX {
        Err(no_binary(binary))
    } else {
        match tar_entry(archive, i) {
            None => Err(no_binary(binary)),
            Some(Err(error)) => Err(bare_failure(error)),
            Some(Ok(path)) => if last_name(decode_utf8(path)) == Some(binary) {
                match tar_contents(archive, i) {
                    Some(read) => read_result(read),
                    None => Err(no_binary(binary)),
                }
            } else {
                binary_in_tar(archive, binary, i + 1)
            },
        }
    }
}

/// A zip archive whose paths are portable decides what is extracted from it.
pub proof fn a_portable_zip_decides(
    archive: Seq<u8>,
    binary: Seq<char>,
    count: int,
    i: int,
    result: Result<Seq<u8>, FailureModel>,
)
    requires
        0 <= i,
        is_portable_zip(archive, count),
        zip_leads_to(archive, binary, count, i, result),
    ensures
        result == binary_in_zip(archive, binary, count, i),
    decreases count - i,
{
    if i < count {
        match zip_entry(archive, i) {
            Err(_) => {},
            Ok((is_file, path)) => {
                if !(is_file && path is Some && last_name(path->0) == Some(binary)) {
                    a_portable_zip_decides(archive, binary, count, i + 1, result);
                }
            },
        }
    }
}

/// A compressed tar archive whose paths are portable decides what is extracted from it.
pub proof fn a_portable_tar_decides(
    archive: Seq<u8>,
    binary: Seq<char>,
    i: int,
    result: Result<Seq<u8>, FailureModel>,
)
    requires
        0 <= i,
        is_portable_tar(archive),
        tar_leads_to(archive, binary, i, result),
    ensures
        result == binary_in_tar(archive, binary, i),
    decreases usize::MAX - i,
{
    if i < usize::MAX {
        match tar_entry(archive, i) {
            Some(Ok(path)) => {
                if last_name(decode_utf8(path)) != Some(binary) {
                    a_portable_tar_decides(archive, binary, i + 1, result);
                }
            },
            _ => {},
        }
    }
}

// ---------------------------------------------------------------------------
// Names beside the executable

/// The path beside an executable that has a suffix behind its name. A path without a last name takes
/// that of the executable.
pub open spec fn sibling_of(path: Seq<char>, binary: Seq<char>, suffix: Seq<char>) -> Seq<char> {
    match name_of(path) {
        None => joined_path(path, binary + "."@ + suffix),
        Some(name) => joined_path(
            match parent_of(path) {
                Some(directory) => directory,
                None => Seq::empty(),
            },
            name + "."@ + suffix,
        ),
    }
}

/// Names a file beside the executable.
pub fn sibling(path: &str, binary: &str, suffix: &str) -> (r: String)
    ensures
        r@ == sibling_of(path@, binary@, suffix@),
{
    match file_name(path) {
        None => {
            let mut file = owned(binary);
            file.append(".");
            file.append(suffix);
            join_path(path, file.as_str())
        },
        Some(name) => {
            let mut file = name;
            file.append(".");
            file.append(suffix);
            match parent(path) {
                Some(directory) => join_path(directory.as_str(), file.as_str()),
                None => join_path(String::new().as_str(), file.as_str()),
            }
        },
    }
}

// ---------------------------------------------------------------------------
// Replacing the executable

/// How a replacement ended.
#[derive(Copy, Clone, Debug, PartialEq, Eq, Structural)]
pub enum Ending {
    /// The new program stands in place of the old one.
    Replaced,
    /// So it does, and the old one is still there because it is running.
    LeftBehind,
    NotWritten,
    NotExecutable,
    NotMovedAside,
    NotInstalled,
}

/// What is done next to replace the executable. A running image may not be overwritten everywhere
/// but may be renamed, so the old program is moved aside rather than replaced in place.
#[derive(Copy, Clone, Debug, PartialEq, Eq, Structural)]
pub enum Replacing {
    /// Write the new program beside the old one.
    Write,
    MakeExecutable,
    /// Rename the old program.
    MoveAside,
    /// Rename the new program to where the old one stood.
    MoveIn,
    /// Rename the old program back.
    PutBack,
    /// Remove the new program, as the old one would not move aside.
    DiscardUnmoved,
    /// Remove the new program, as it would not move in.
    DiscardUninstalled,
    /// Remove the old program.
    Clear,
    Done(Ending),
}

/// What is done after a step that succeeded or failed.
pub open spec fn step_after(now: Replacing, succeeded: bool) -> Replacing {
    match now {
        Replacing::Write => if succeeded {
            Replacing::MakeExecutable
        } else {
            Replacing::Done(Ending::NotWritten)
        },
        Replacing::MakeExecutable => if succeeded {
            Replacing::MoveAside
        } else {
            Replacing::Done(Ending::NotExecutable)
        },
        Replacing::MoveAside => if succeeded {
            Replacing::MoveIn
        } else {
            Replacing::DiscardUnmoved
        },
        Replacing::MoveIn => if succeeded {
            Replacing::Clear
        } else {
            Replacing::PutBack
        },
        Replacing::PutBack => Replacing::DiscardUninstalled,
        Replacing::DiscardUnmoved => Replacing::Done(Ending::NotMovedAside),
        Replacing::DiscardUninstalled => Replacing::Done(Ending::NotInstalled),
        Replacing::Clear => if succeeded {
            Replacing::Done(Ending::Replaced)
        } else {
            Replacing::Done(Ending::LeftBehind)
        },
        Replacing::Done(ending) => Replacing::Done(ending),
    }
}

/// Decides what is done after a step that succeeded or failed.
pub fn next_step(now: Replacing, succeeded: bool) -> (r: Replacing)
    ensures
        r == step_after(now, succeeded),
{
    match now {
        Replacing::Write => if succeeded {
            Replacing::MakeExecutable
        } else {
            Replacing::Done(Ending::NotWritten)
        },
        Replacing::MakeExecutable => if succeeded {
            Replacing::MoveAside
        } else {
            Replacing::Done(Ending::NotExecutable)
        },
        Replacing::MoveAside => if succeeded {
            Replacing::MoveIn
        } else {
            Replacing::DiscardUnmoved
        },
        Replacing::MoveIn => if succeeded {
            Replacing::Clear
        } else {
            Replacing::PutBack
        },
        Replacing::PutBack => Replacing::DiscardUninstalled,
        Replacing::DiscardUnmoved => Replacing::Done(Ending::NotMovedAside),
        Replacing::DiscardUninstalled => Replacing::Done(Ending::NotInstalled),
        Replacing::Clear => if succeeded {
            Replacing::Done(Ending::Replaced)
        } else {
            Replacing::Done(Ending::LeftBehind)
        },
        Replacing::Done(ending) => Replacing::Done(ending),
    }
}

/// What an ending is told as, where the replacement failed and the step that failed does not tell
/// it itself.
pub fn ending_message(ending: Ending, current: &str, staged: &str) -> (r: Option<String>)
    ensures
        r.deep_view() == (match ending {
            Ending::NotWritten => Some("could not write "@ + staged@),
            Ending::NotMovedAside => Some("could not move "@ + current@ + " aside"@),
            Ending::NotInstalled => Some("could not install the new "@ + current@),
            _ => None,
        }),
{
    match ending {
        Ending::NotWritten => {
            let mut r = owned("could not write ");
            r.append(staged);
            Some(r)
        },
        Ending::NotMovedAside => {
            let mut r = owned("could not move ");
            r.append(current);
            r.append(" aside");
            Some(r)
        },
        Ending::NotInstalled => {
            let mut r = owned("could not install the new ");
            r.append(current);
            Some(r)
        },
        _ => None,
    }
}

/// One of the two programs.
pub enum Program {
    Old,
    New,
}

/// Which program stands under each of the three names, where one does.
pub struct Shelf {
    pub current: Option<Program>,
    pub staged: Option<Program>,
    pub backup: Option<Program>,
}

/// What a step does to the files where it succeeds. A rename takes the file from one name to the
/// other; a step that fails leaves the files as they were.
pub open spec fn shelf_after(now: Replacing, succeeded: bool, shelf: Shelf) -> Shelf {
    if !succeeded {
        shelf
    } else {
        match now {
            Replacing::Write => Shelf { staged: Some(Program::New), ..shelf },
            Replacing::MoveAside => Shelf { backup: shelf.current, current: None, ..shelf },
            Replacing::MoveIn => Shelf { current: shelf.staged, staged: None, ..shelf },
            Replacing::PutBack => Shelf { current: shelf.backup, backup: None, ..shelf },
            Replacing::DiscardUnmoved | Replacing::DiscardUninstalled => Shelf {
                staged: None,
                ..shelf
            },
            Replacing::Clear => Shelf { backup: None, ..shelf },
            _ => shelf,
        }
    }
}

/// Where a replacement stands, and the files, after steps that succeeded or failed.
pub open spec fn replaced_after(now: Replacing, shelf: Shelf, outcomes: Seq<bool>) -> (
    Replacing,
    Shelf,
)
    decreases outcomes.len(),
{
    if outcomes.len() == 0 {
        (now, shelf)
    } else {
        replaced_after(
            step_after(now, outcomes[0]),
            shelf_after(now, outcomes[0], shelf),
            outcomes.skip(1),
        )
    }
}

/// What holds of the files at every step.
spec fn shelf_fits(now: Replacing, shelf: Shelf) -> bool {
    match now {
        Replacing::Write => shelf.current == Some(Program::Old),
        Replacing::MakeExecutable | Replacing::MoveAside => shelf.current == Some(Program::Old)
            && shelf.staged == Some(Program::New),
        Replacing::DiscardUnmoved => shelf.current == Some(Program::Old),
        Replacing::MoveIn => shelf.staged == Some(Program::New) && shelf.backup == Some(
            Program::Old,
        ),
        Replacing::PutBack => shelf.backup == Some(Program::Old),
        Replacing::DiscardUninstalled => shelf.current == Some(Program::Old) || shelf.backup
            == Some(Program::Old),
        Replacing::Clear => shelf.current == Some(Program::New),
        Replacing::Done(Ending::Replaced) | Replacing::Done(Ending::LeftBehind) => shelf.current
            == Some(Program::New),
        Replacing::Done(_) => shelf.current == Some(Program::Old) || shelf.backup == Some(
            Program::Old,
        ),
    }
}

proof fn shelves_keep_fitting(now: Replacing, shelf: Shelf, outcomes: Seq<bool>)
    requires
        shelf_fits(now, shelf),
    ensures
        ({
            let (ended, files) = replaced_after(now, shelf, outcomes);
            shelf_fits(ended, files)
        }),
    decreases outcomes.len(),
{
    if outcomes.len() > 0 {
        shelves_keep_fitting(
            step_after(now, outcomes[0]),
            shelf_after(now, outcomes[0], shelf),
            outcomes.skip(1),
        );
    }
}

/// Whichever steps fail, a replacement loses no program: where it says the executable was replaced
/// the new program stands in its place, and where it says it was not the old one stands there or
/// beside it.
pub proof fn a_program_is_never_lost(outcomes: Seq<bool>)
    ensures
        ({
            let start = Shelf { current: Some(Program::Old), staged: None, backup: None };
            let (ended, files) = replaced_after(Replacing::Write, start, outcomes);
            ended matches Replacing::Done(ending) ==> if ending == Ending::Replaced || ending
                == Ending::LeftBehind {
                files.current == Some(Program::New)
            } else {
                files.current == Some(Program::Old) || files.backup == Some(Program::Old)
            }
        }),
{
    let start = Shelf { current: Some(Program::Old), staged: None, backup: None };
    shelves_keep_fitting(Replacing::Write, start, outcomes);
}

/// How many steps are left at most.
spec fn steps_left(now: Replacing) -> nat {
    match now {
        Replacing::Write => 6,
        Replacing::MakeExecutable => 5,
        Replacing::MoveAside => 4,
        Replacing::MoveIn => 3,
        Replacing::PutBack => 2,
        Replacing::DiscardUnmoved | Replacing::DiscardUninstalled | Replacing::Clear => 1,
        Replacing::Done(_) => 0,
    }
}

proof fn enough_steps_lead_to_the_end(now: Replacing, shelf: Shelf, outcomes: Seq<bool>)
    requires
        outcomes.len() >= steps_left(now),
    ensures
        replaced_after(now, shelf, outcomes).0 is Done,
    decreases outcomes.len(),
{
    if outcomes.len() > 0 {
        enough_steps_lead_to_the_end(
            step_after(now, outcomes[0]),
            shelf_after(now, outcomes[0], shelf),
            outcomes.skip(1),
        );
    }
}

/// A replacement ends after at most six steps.
pub proof fn a_replacement_ends(shelf: Shelf, outcomes: Seq<bool>)
    requires
        outcomes.len() >= 6,
    ensures
        replaced_after(Replacing::Write, shelf, outcomes).0 is Done,
{
    enough_steps_lead_to_the_end(Replacing::Write, shelf, outcomes);
}

} // verus!
