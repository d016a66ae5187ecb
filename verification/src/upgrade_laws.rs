//! Which release is taken, and what is taken out of it.
use vstd::prelude::*;
use vstd::utf8::*;
use crate::errors::FailureModel;
use crate::json::{member_position, member_position_is_first, JsonModel};
use crate::paths_laws::{a_name_stands_in_its_directory, has_no_tail, is_name};
use crate::text::{ascii_lowercase, is_white_space, lines_of, split_on};
use crate::text_laws::{a_text_without_it_is_not_split, free_of, parts_come_one_by_one};
use crate::upgrade::{
    asset_for, digest_in_line, digest_in_lines, digest_problem, is_portable_tar, is_portable_zip,
    last_name, latest_tag_in, names_among, names_in, sibling_of, tag_of, tar_contents, tar_entry,
    tar_leads_to, white_end, without_stars, word_end, word_from, zip_contents, zip_entry,
    zip_leads_to,
};

verus! {

// ---------------------------------------------------------------------------
// Names

/// The asset for a system is named after it: after its operating system and its processor, in a zip on
/// Windows and in a compressed tar elsewhere.
pub proof fn an_asset_is_named_after_its_system(os: Seq<char>, arch: Seq<char>)
    ensures
        match asset_for(os, arch) {
            Some(asset) => asset == "biskit-mcp-"@ + os + "-"@ + arch + (if os == "windows"@ {
                ".zip"@
            } else {
                ".tar.gz"@
            }),
            None => true,
        },
        asset_for(os, arch) is Some <==> {
            ||| os == "windows"@ && arch == "x86_64"@
            ||| os == "macos"@ && (arch == "x86_64"@ || arch == "aarch64"@)
            ||| os == "linux"@ && (arch == "x86_64"@ || arch == "aarch64"@)
        },
{
    reveal_strlit("biskit-mcp-");
    reveal_strlit("-");
    reveal_strlit(".zip");
    reveal_strlit(".tar.gz");
    reveal_strlit("windows");
    reveal_strlit("macos");
    reveal_strlit("linux");
    reveal_strlit("x86_64");
    reveal_strlit("aarch64");
    reveal_strlit("biskit-mcp-windows-x86_64.zip");
    reveal_strlit("biskit-mcp-macos-aarch64.tar.gz");
    reveal_strlit("biskit-mcp-macos-x86_64.tar.gz");
    reveal_strlit("biskit-mcp-linux-x86_64.tar.gz");
    reveal_strlit("biskit-mcp-linux-aarch64.tar.gz");
    if let Some(asset) = asset_for(os, arch) {
        let built = "biskit-mcp-"@ + os + "-"@ + arch + (if os == "windows"@ {
            ".zip"@
        } else {
            ".tar.gz"@
        });
        assert("windows"@ != "macos"@) by {
            assert("windows"@[0] != "macos"@[0]);
        }
        assert("windows"@ != "linux"@) by {
            assert("windows"@[0] != "linux"@[0]);
        }
        assert(asset =~= built);
    }
}

/// A version is released under itself with a `v` before it. A tag that was given as one is kept, so that
/// asking twice changes nothing.
pub proof fn a_version_is_tagged_with_a_v(value: Seq<char>)
    ensures
        tag_of(tag_of(value)) == tag_of(value),
        tag_of(value) == value || tag_of(value) == seq!['v'] + value,
        value.len() > 0 && '0' <= value[0] <= '9' ==> tag_of(value) == seq!['v'] + value,
        tag_of(seq!['v'] + value) == seq!['v'] + value,
{
    reveal_strlit("v");
    assert("v"@ =~= seq!['v']);
    assert((seq!['v'] + value)[0] == 'v');
}

/// What GitHub answers names the tag of the release under `tag_name`, the first time that key stands in it.
pub proof fn the_latest_tag_is_what_the_answer_names(members: Seq<(Seq<char>, JsonModel)>, i: int)
    requires
        0 <= i < members.len(),
        members[i].0 == "tag_name"@,
        forall|k: int| 0 <= k < i ==> (#[trigger] members[k]).0 != "tag_name"@,
    ensures
        match members[i].1 {
            JsonModel::Text(tag) => latest_tag_in(Ok(JsonModel::Object(members))) matches Ok(told)
                && told == tag,
            _ => latest_tag_in(Ok(JsonModel::Object(members))) is Err,
        },
{
    member_position_is_first(members, "tag_name"@, 0);
    if let Some(j) = member_position(members, "tag_name"@, 0) {
        if j < i {
            assert(members[j].0 != "tag_name"@);
        } else if i < j {
            assert(members[i].0 != "tag_name"@);
        }
    }
}

// ---------------------------------------------------------------------------
// Digests

/// Whether a text is one word.
pub open spec fn is_one_word(s: Seq<char>) -> bool {
    s.len() > 0 && forall|k: int| 0 <= k < s.len() ==> !is_white_space(#[trigger] s[k])
}

/// Whether a text is only white space.
pub open spec fn is_blank(s: Seq<char>) -> bool {
    forall|k: int| 0 <= k < s.len() ==> is_white_space(#[trigger] s[k])
}

proof fn white_space_ends(s: Seq<char>, i: int, end: int)
    requires
        0 <= i <= end <= s.len(),
        forall|k: int| i <= k < end ==> is_white_space(#[trigger] s[k]),
        end < s.len() ==> !is_white_space(s[end]),
    ensures
        white_end(s, i) == end,
    decreases end - i,
{
    if i < end {
        assert(is_white_space(s[i]));
        white_space_ends(s, i + 1, end);
    }
}

proof fn a_word_ends(s: Seq<char>, i: int, end: int)
    requires
        0 <= i <= end <= s.len(),
        forall|k: int| i <= k < end ==> !is_white_space(#[trigger] s[k]),
        end < s.len() ==> is_white_space(s[end]),
    ensures
        word_end(s, i) == end,
    decreases end - i,
{
    if i < end {
        assert(!is_white_space(s[i]));
        a_word_ends(s, i + 1, end);
    }
}

proof fn stars_come_off(stars: Seq<char>, name: Seq<char>)
    requires
        forall|k: int| 0 <= k < stars.len() ==> #[trigger] stars[k] == '*',
        name.len() > 0 ==> name[0] != '*',
    ensures
        without_stars(stars + name) == name,
    decreases stars.len(),
{
    if stars.len() > 0 {
        let rest = stars.skip(1);
        assert forall|k: int| 0 <= k < rest.len() implies #[trigger] rest[k] == '*' by {
            assert(rest[k] == stars[k + 1]);
        }
        assert((stars + name)[0] == stars[0]);
        assert((stars + name).skip(1) =~= rest + name);
        stars_come_off(rest, name);
    } else {
        assert(stars + name =~= name);
    }
}

/// A line that has a digest, white space and a name lists that digest, in small letters, for what has
/// that name, and nothing for anything else. Stars before the name and what follows it do not count.
pub proof fn a_line_lists_a_digest_for_a_name(
    digest: Seq<char>,
    gap: Seq<char>,
    stars: Seq<char>,
    name: Seq<char>,
    tail: Seq<char>,
    asset: Seq<char>,
)
    requires
        is_one_word(digest),
        gap.len() > 0,
        is_blank(gap),
        forall|k: int| 0 <= k < stars.len() ==> #[trigger] stars[k] == '*',
        is_one_word(name),
        name[0] != '*',
        tail.len() > 0 ==> is_white_space(tail[0]),
    ensures
        digest_in_line(digest + gap + stars + name + tail, asset) == if name == asset {
            Some(ascii_lowercase(digest))
        } else {
            None
        },
{
    let line = digest + gap + stars + name + tail;
    let first = digest.len() as int;
    let second = first + gap.len();
    let end = second + stars.len() + name.len();
    assert forall|k: int| 0 <= k < first implies !is_white_space(#[trigger] line[k]) by {
        assert(line[k] == digest[k]);
    }
    assert forall|k: int| first <= k < second implies is_white_space(#[trigger] line[k]) by {
        assert(line[k] == gap[k - first]);
    }
    assert forall|k: int| second <= k < end implies !is_white_space(#[trigger] line[k]) by {
        if k < second + stars.len() {
            assert(line[k] == stars[k - second]);
        } else {
            assert(line[k] == name[k - second - stars.len()]);
        }
    }
    if end < line.len() {
        assert(line[end] == tail[0]);
    }
    assert(is_white_space(line[first]));
    assert(!is_white_space(line[second]));
    white_space_ends(line, 0, 0);
    a_word_ends(line, 0, first);
    assert(line.subrange(0, first) =~= digest);
    white_space_ends(line, first, second);
    a_word_ends(line, second, end);
    assert(line.subrange(second, end) =~= stars + name);
    stars_come_off(stars, name);
    assert(word_from(line, 0) == Some((digest, first)));
    assert(word_from(line, first) == Some((stars + name, end)));
}

proof fn the_first_listing_counts(all: Seq<Seq<char>>, asset: Seq<char>, from: int)
    requires
        0 <= from <= all.len(),
    ensures
        match digest_in_lines(all, asset, from) {
            Some(digest) => exists|i: int|
                {
                    &&& from <= i < all.len()
                    &&& #[trigger] digest_in_line(all[i], asset) == Some(digest)
                    &&& forall|j: int|
                        from <= j < i ==> #[trigger] digest_in_line(all[j], asset) is None
                },
            None => forall|j: int|
                from <= j < all.len() ==> #[trigger] digest_in_line(all[j], asset) is None,
        },
    decreases all.len() - from,
{
    if from < all.len() {
        match digest_in_line(all[from], asset) {
            Some(_) => {},
            None => {
                the_first_listing_counts(all, asset, from + 1);
                if let Some(digest) = digest_in_lines(all, asset, from + 1) {
                    let i = choose|i: int|
                        {
                            &&& from + 1 <= i < all.len()
                            &&& #[trigger] digest_in_line(all[i], asset) == Some(digest)
                            &&& forall|j: int|
                                from + 1 <= j < i ==> #[trigger] digest_in_line(all[j], asset)
                                    is None
                        };
                    assert forall|j: int| from <= j < i implies #[trigger] digest_in_line(
                        all[j],
                        asset,
                    ) is None by {
                        if j > from {
                            assert(digest_in_line(all[j], asset) is None);
                        }
                    }
                    assert(digest_in_line(all[i], asset) == Some(digest));
                }
            },
        }
    }
}

/// A download is accepted exactly where the first line that lists it lists the digest it has, whatever the
/// case of the letters. One that no line lists is not.
pub proof fn a_download_has_the_digest_it_is_listed_with(
    sums: Seq<char>,
    asset: Seq<char>,
    actual: Seq<char>,
)
    ensures
        digest_problem(sums, asset, actual) is None <==> exists|i: int|
            {
                &&& 0 <= i < lines_of(sums).len()
                &&& #[trigger] digest_in_line(lines_of(sums)[i], asset) matches Some(listed)
                &&& ascii_lowercase(listed) == ascii_lowercase(actual)
                &&& forall|j: int|
                    0 <= j < i ==> #[trigger] digest_in_line(lines_of(sums)[j], asset) is None
            },
{
    let all = lines_of(sums);
    the_first_listing_counts(all, asset, 0);
    if let Some(digest) = digest_in_lines(all, asset, 0) {
        let i = choose|i: int|
            {
                &&& 0 <= i < all.len()
                &&& #[trigger] digest_in_line(all[i], asset) == Some(digest)
                &&& forall|j: int| 0 <= j < i ==> #[trigger] digest_in_line(all[j], asset) is None
            };
        assert forall|k: int|
            0 <= k < all.len() && #[trigger] digest_in_line(all[k], asset) is Some && (forall|j: int|
                0 <= j < k ==> #[trigger] digest_in_line(all[j], asset) is None) implies k == i by {
            if i < k {
                assert(digest_in_line(all[i], asset) is None);
            } else if k < i {
                assert(digest_in_line(all[k], asset) is None);
            }
        }
        assert(digest_in_line(all[i], asset) == Some(digest));
    }
}

/// Small letters stay, capitals of ASCII become small, and nothing else changes.
pub proof fn letters_are_made_small(s: Seq<char>)
    ensures
        ascii_lowercase(s).len() == s.len(),
        forall|k: int|
            0 <= k < s.len() ==> (#[trigger] ascii_lowercase(s)[k] as int == if 'A' <= s[k] <= 'Z' {
                s[k] as int + 32
            } else {
                s[k] as int
            }),
        ascii_lowercase(ascii_lowercase(s)) == ascii_lowercase(s),
{
    assert(ascii_lowercase(ascii_lowercase(s)) =~= ascii_lowercase(s));
}

// ---------------------------------------------------------------------------
// Archives

proof fn more_parts_keep_names(a: Seq<Seq<char>>, b: Seq<Seq<char>>, n: int)
    requires
        0 <= n <= a.len(),
    ensures
        names_among(a + b, n) == names_among(a, n),
    decreases n,
{
    if n > 0 {
        more_parts_keep_names(a, b, n - 1);
        assert((a + b)[n - 1] == a[n - 1]);
    }
}

/// The last name of a path is what stands behind its last slash.
pub proof fn the_last_name_is_behind_the_last_slash(directory: Seq<char>, name: Seq<char>)
    requires
        name.len() > 0,
        name != "."@,
        free_of(name, '/'),
    ensures
        last_name(name) == Some(name),
        last_name(directory.push('/') + name) == Some(name),
        names_in(directory.push('/') + name) == names_in(directory).push(name),
{
    a_text_without_it_is_not_split(name, '/');
    let one = seq![name];
    assert(names_among(one, 1) =~= names_among(one, 0).push(name));
    parts_of_a_longer_text(directory, name);
    let parts = split_on(directory, '/');
    let all = parts.push(name);
    assert(parts + one =~= all);
    more_parts_keep_names(parts, one, parts.len() as int);
    assert(names_among(all, all.len() as int) == names_among(all, parts.len() as int).push(name));
}

proof fn parts_of_a_longer_text(directory: Seq<char>, name: Seq<char>)
    requires
        free_of(name, '/'),
    ensures
        split_on(directory.push('/') + name, '/') == split_on(directory, '/').push(name),
    decreases directory.len(),
{
    let whole = directory.push('/') + name;
    if free_of(directory, '/') {
        a_text_without_it_is_not_split(directory, '/');
        a_text_without_it_is_not_split(name, '/');
        parts_come_one_by_one(directory, '/', name);
        assert(split_on(whole, '/') =~= split_on(directory, '/').push(name));
    } else {
        let at = first_slash(directory, 0);
        let first = directory.take(at);
        let rest = directory.skip(at + 1);
        assert(free_of(first, '/')) by {
            assert forall|k: int| 0 <= k < first.len() implies #[trigger] first[k] != '/' by {
                assert(first[k] == directory[k]);
            }
        }
        assert(directory =~= first.push('/') + rest);
        let longer = rest.push('/') + name;
        assert(whole =~= first.push('/') + longer);
        parts_come_one_by_one(first, '/', rest);
        parts_come_one_by_one(first, '/', longer);
        parts_of_a_longer_text(rest, name);
        assert(split_on(whole, '/') =~= split_on(directory, '/').push(name));
    }
}

proof fn first_slash(s: Seq<char>, from: int) -> (at: int)
    requires
        0 <= from <= s.len(),
        exists|k: int| from <= k < s.len() && #[trigger] s[k] == '/',
    ensures
        from <= at < s.len(),
        s[at] == '/',
        forall|k: int| from <= k < at ==> #[trigger] s[k] != '/',
    decreases s.len() - from,
{
    if s[from] == '/' {
        from
    } else {
        first_slash(s, from + 1)
    }
}

/// Whether an entry of a zip archive is a file with the executable's name.
pub open spec fn is_binary_in_zip(archive: Seq<u8>, binary: Seq<char>, i: int) -> bool {
    zip_entry(archive, i) matches Ok((is_file, path)) && is_file && (path matches Some(text)
        && last_name(text) == Some(binary))
}

/// Out of a zip archive with portable paths comes what the first file with the executable's name holds.
/// Where no entry is one, nothing comes out of it.
pub proof fn a_zip_gives_its_first_binary(
    archive: Seq<u8>,
    binary: Seq<char>,
    count: int,
    from: int,
    at: int,
    result: Result<Seq<u8>, FailureModel>,
)
    requires
        0 <= from <= at <= count,
        is_portable_zip(archive, count),
        zip_leads_to(archive, binary, count, from, result),
        forall|k: int|
            from <= k < at ==> (#[trigger] zip_entry(archive, k)) is Ok && !is_binary_in_zip(
                archive,
                binary,
                k,
            ),
        at < count ==> is_binary_in_zip(archive, binary, at),
    ensures
        at == count ==> result is Err,
        at < count ==> match zip_contents(archive, at) {
            Ok(held) => result == Ok::<Seq<u8>, FailureModel>(held),
            Err(_) => result is Err,
        },
    decreases at - from,
{
    if from < at {
        assert(zip_entry(archive, from) is Ok);
        assert(!is_binary_in_zip(archive, binary, from));
        a_zip_gives_its_first_binary(archive, binary, count, from + 1, at, result);
    }
}

/// Whether an entry of a compressed tar archive has the executable's name.
pub open spec fn is_binary_in_tar(archive: Seq<u8>, binary: Seq<char>, i: int) -> bool {
    tar_entry(archive, i) matches Some(Ok(path)) && last_name(decode_utf8(path)) == Some(binary)
}

/// Out of a compressed tar archive with portable paths comes what the first entry with the executable's
/// name holds. Where the entries end without one, nothing comes out of it.
pub proof fn a_tar_gives_its_first_binary(
    archive: Seq<u8>,
    binary: Seq<char>,
    from: int,
    at: int,
    result: Result<Seq<u8>, FailureModel>,
)
    requires
        0 <= from <= at < usize::MAX,
        is_portable_tar(archive),
        tar_leads_to(archive, binary, from, result),
        forall|k: int|
            from <= k < at ==> ((#[trigger] tar_entry(archive, k)) matches Some(Ok(_)))
                && !is_binary_in_tar(archive, binary, k),
        is_binary_in_tar(archive, binary, at) || tar_entry(archive, at) is None,
    ensures
        tar_entry(archive, at) is None ==> result is Err,
        tar_entry(archive, at) is Some ==> match tar_contents(archive, at) {
            Some(Ok(held)) => result == Ok::<Seq<u8>, FailureModel>(held),
            _ => result is Err,
        },
    decreases at - from,
{
    assert(tar_entry(archive, from) == tar_entry(archive, from));
    if from < at {
        assert(tar_entry(archive, from) matches Some(Ok(_)));
        assert(!is_binary_in_tar(archive, binary, from));
        a_tar_gives_its_first_binary(archive, binary, from + 1, at, result);
    }
}

/// A file beside the executable is in its directory, and has its name with a dot and a suffix behind it.
pub proof fn a_sibling_has_a_longer_name(
    directory: Seq<char>,
    name: Seq<char>,
    binary: Seq<char>,
    suffix: Seq<char>,
)
    requires
        has_no_tail(directory),
        is_name(name),
        free_of(suffix, '/'),
    ensures
        sibling_of(directory + "/"@ + name, binary, suffix) == directory + "/"@ + (name + "."@
            + suffix),
{
    a_name_stands_in_its_directory(directory, name);
    reveal_strlit(".");
    reveal_strlit("..");
    let longer = name + "."@ + suffix;
    assert forall|k: int| 0 <= k < longer.len() implies #[trigger] longer[k] != '/' by {
        if k < name.len() {
            assert(longer[k] == name[k]);
        } else if k > name.len() {
            assert(longer[k] == suffix[k - name.len() - 1]);
        }
    }
    if longer == ".."@ {
        assert(longer.len() == name.len() + 1 + suffix.len());
        assert("."@.len() == 1 && ".."@.len() == 2);
        assert(name.len() == 1);
        assert(name[0] == longer[0]);
        assert(name =~= "."@);
    }
    a_name_stands_in_its_directory(directory, longer);
}

} // verus!
