//! Projects: their identifiers, their manifests and their log sources.
use vstd::prelude::*;
use vstd::utf8::encode_utf8;

use crate::hash::{fingerprint, fingerprint_of};
use crate::json::{decimal_text, natural_to_text, option_view};
use crate::launch::ProjectConfiguration;
use crate::store::text_view;
use crate::text::{
    ascii_alphanumeric, chars_of, first_occurrence, first_where, has_prefix, has_suffix, is_blank,
    is_char, is_space, join, joined, lemma_first_occurrence, lemma_first_where_is, lemma_one_piece,
    lemma_split_at_separator, lemma_split_undoes_join, lemma_trim_end_keeps,
    lemma_trim_start_keeps, lemma_trimmed_twice, lowercase, lowercased, lowered, occurs_at, owned,
    position_of_char, replace_char, same, same_ignoring_case, split, split_at_char, split_once,
    split_once_spec, split_where, strip_prefix, text_between, trim, trim_end_matches,
    trim_start_spec, trimmed, views, with_char, without_suffix,
};

verus! {

/// The test for characters that cannot stand in an identifier.
pub open spec fn breaks_identifier() -> spec_fn(char) -> bool {
    |character: char| !ascii_alphanumeric(character)
}

/// The test for texts that are not empty.
pub open spec fn is_nonempty() -> spec_fn(Seq<char>) -> bool {
    |text: Seq<char>| text.len() > 0
}

/// A part of an identifier made from a name: its runs of ASCII letters and
/// digits in lower case, with hyphens between them.
pub open spec fn identifier_part(name: Seq<char>) -> Seq<char> {
    joined(split_where(lowercased(name), breaks_identifier()).filter(is_nonempty()), "-"@)
}

/// A part of an identifier made from a name.
pub fn id_component(value: &str) -> (result: String)
    ensures
        result@ == identifier_part(value@),
{
    let lower = lowercase(value);
    let characters = chars_of(lower.as_str());
    let ghost text = lowercased(value@);
    let ghost breaks = breaks_identifier();
    let mut runs: Vec<String> = Vec::new();
    let mut current = String::new();
    let mut length: usize = 0;
    let mut index: usize = 0;
    assert(text.take(0) == Seq::<char>::empty());
    proof {
        reveal_with_fuel(Seq::filter, 2);
    }
    while index < characters.len()
        invariant
            index <= characters.len(),
            characters@ == text,
            breaks == breaks_identifier(),
            length == current@.len(),
            length <= index,
            split_where(text.take(index as int), breaks).len() > 0,
            current@ == split_where(text.take(index as int), breaks).last(),
            views(runs@) == split_where(text.take(index as int), breaks).drop_last().filter(
                is_nonempty(),
            ),
        decreases characters.len() - index,
    {
        let character = characters[index];
        let ghost before = split_where(text.take(index as int), breaks);
        let ghost found = views(runs@);
        assert(text.take(index + 1).drop_last() == text.take(index as int));
        let keeps = ('0' <= character && character <= '9') || ('a' <= character && character
            <= 'z') || ('A' <= character && character <= 'Z');
        if keeps {
            current.push(character);
            length += 1;
            assert(before.drop_last().push(before.last().push(character)).drop_last()
                == before.drop_last());
        } else {
            assert(before.push(Seq::<char>::empty()).drop_last() == before);
            assert(before == before.drop_last().push(before.last()));
            proof {
                before.drop_last().lemma_filter_push(before.last(), is_nonempty());
            }
            if length > 0 {
                runs.push(current);
                assert(views(runs@) == found.push(current@));
            }
            current = String::new();
            length = 0;
        }
        index += 1;
    }
    assert(text.take(index as int) == text);
    let ghost pieces = split_where(text, breaks);
    assert(pieces == pieces.drop_last().push(pieces.last()));
    proof {
        pieces.drop_last().lemma_filter_push(pieces.last(), is_nonempty());
    }
    if length > 0 {
        let ghost found = views(runs@);
        runs.push(current);
        assert(views(runs@) == found.push(current@));
    }
    join(&runs, "-")
}

/// The parts of an identifier made from some names, without those that are empty.
pub open spec fn identifier_parts(names: Seq<Seq<char>>) -> Seq<Seq<char>>
    decreases names.len(),
{
    if names.len() == 0 {
        Seq::empty()
    } else if identifier_part(names.last()).len() > 0 {
        identifier_parts(names.drop_last()).push(identifier_part(names.last()))
    } else {
        identifier_parts(names.drop_last())
    }
}

/// Where a remote repository lies: its host and the path on it. An address with
/// a scheme gives the host up to the first slash, without a user and a port; any
/// other gives it up to the first colon, without a user.
pub open spec fn remote_location(remote: Seq<char>) -> Option<(Seq<char>, Seq<char>)> {
    let remote = without_suffix(without_suffix(trimmed(remote), "/"@), ".git"@);
    match split_once_spec(remote, "://"@) {
        Some((_, rest)) => match split_once_spec(rest, "/"@) {
            Some((authority, path)) => {
                let host = split_at_char(authority, '@').last();
                Some((split_at_char(host, ':')[0], path))
            },
            None => None,
        },
        None => match split_once_spec(remote, ":"@) {
            Some((authority, path)) => Some((split_at_char(authority, '@').last(), path)),
            None => None,
        },
    }
}

/// The identifier of the project in a remote repository: the names of its host
/// from the last on, and those of its path.
pub open spec fn remote_identifier(remote: Seq<char>) -> Option<Seq<char>> {
    match remote_location(remote) {
        Some((host, path)) => {
            let names = split_at_char(host, '.').reverse() + split_at_char(path, '/');
            let parts = identifier_parts(names);
            if parts.len() > 0 {
                Some(joined(parts, "."@))
            } else {
                None
            }
        },
        None => None,
    }
}

/// Where a remote repository lies: its host and the path on it.
fn locate_remote(remote: &str) -> (result: Option<(String, String)>)
    ensures
        match result {
            Some((host, path)) => remote_location(remote@) == Some((host@, path@)),
            None => remote_location(remote@) is None,
        },
{
    proof {
        reveal_strlit("/");
        reveal_strlit(".git");
    }
    let remote = trim(remote);
    let remote = trim_end_matches(remote.as_str(), "/");
    let remote = trim_end_matches(remote.as_str(), ".git");
    match split_once(remote.as_str(), "://") {
        Some((_, rest)) => match split_once(rest.as_str(), "/") {
            Some((authority, path)) => {
                let users = split(authority.as_str(), '@');
                let host = &users[users.len() - 1];
                assert(views(users@).last() == host@);
                let ports = split(host.as_str(), ':');
                assert(views(ports@)[0] == ports@[0]@);
                Some((ports[0].clone(), path))
            },
            None => None,
        },
        None => match split_once(remote.as_str(), ":") {
            Some((authority, path)) => {
                let users = split(authority.as_str(), '@');
                let host = &users[users.len() - 1];
                assert(views(users@).last() == host@);
                Some((host.clone(), path))
            },
            None => None,
        },
    }
}

/// Adds the part of an identifier that a name gives, unless it is empty.
fn push_part(parts: &mut Vec<String>, name: &str, Ghost(names): Ghost<Seq<Seq<char>>>)
    requires
        views(old(parts)@) == identifier_parts(names),
    ensures
        views(final(parts)@) == identifier_parts(names.push(name@)),
{
    let part = id_component(name);
    let ghost before = views(parts@);
    assert(names.push(name@).drop_last() == names);
    if !part.as_str().is_empty() {
        parts.push(part);
        assert(views(parts@) == before.push(part@));
    }
}

/// The identifier of the project in a remote repository.
pub fn project_id_from_remote(remote: &str) -> (result: Option<String>)
    ensures
        option_view(result) == remote_identifier(remote@),
{
    let (host, path) = match locate_remote(remote) {
        Some(location) => location,
        None => return None,
    };
    let hosts = split(host.as_str(), '.');
    let paths = split(path.as_str(), '/');
    let ghost reversed = views(hosts@).reverse();
    let mut parts: Vec<String> = Vec::new();
    let mut count: usize = 0;
    assert(reversed.take(0) == Seq::<Seq<char>>::empty());
    while count < hosts.len()
        invariant
            count <= hosts.len(),
            reversed == views(hosts@).reverse(),
            views(parts@) == identifier_parts(reversed.take(count as int)),
        decreases hosts.len() - count,
    {
        let name = hosts[hosts.len() - 1 - count].as_str();
        assert(reversed[count as int] == name@);
        assert(reversed.take(count + 1) == reversed.take(count as int).push(name@));
        push_part(&mut parts, name, Ghost(reversed.take(count as int)));
        count += 1;
    }
    assert(reversed.take(count as int) == reversed);
    let ghost tail = views(paths@);
    let mut index: usize = 0;
    assert(reversed + tail.take(0) == reversed);
    while index < paths.len()
        invariant
            index <= paths.len(),
            tail == views(paths@),
            views(parts@) == identifier_parts(reversed + tail.take(index as int)),
        decreases paths.len() - index,
    {
        let name = paths[index].as_str();
        assert(tail[index as int] == name@);
        assert(reversed + tail.take(index + 1) == (reversed + tail.take(index as int)).push(name@));
        push_part(&mut parts, name, Ghost(reversed + tail.take(index as int)));
        index += 1;
    }
    assert(tail.take(index as int) == tail);
    if parts.len() == 0 {
        assert(views(parts@).len() == 0);
        return None;
    }
    assert(views(parts@).len() > 0);
    Some(join(&parts, "."))
}

/// The identifier suggested for a project: that of its remote repository, or one
/// made from its name.
pub open spec fn suggested_identifier(origin: Option<Seq<char>>, name: Seq<char>) -> Seq<char> {
    let remote = match origin {
        Some(origin) => remote_identifier(origin),
        None => None,
    };
    match remote {
        Some(identifier) => identifier,
        None => "local."@ + identifier_part(name),
    }
}

/// The identifier suggested for a project.
pub fn suggested_project_id(origin: Option<&str>, project_name: &str) -> (result: String)
    ensures
        result@ == suggested_identifier(text_view(origin), project_name@),
{
    if let Some(origin) = origin {
        if let Some(identifier) = project_id_from_remote(origin) {
            return identifier;
        }
    }
    let mut result = owned("local.");
    let part = id_component(project_name);
    result.append(part.as_str());
    result
}

/// The address of the remote repository `origin` in the lines of a repository's
/// configuration from one on, given whether they are those of that remote.
pub open spec fn origin_in(lines: Seq<Seq<char>>, index: int, in_origin: bool) -> Option<Seq<char>>
    decreases lines.len() - index,
{
    if index < 0 || index >= lines.len() {
        None
    } else {
        let line = trimmed(lines[index]);
        if line.len() > 0 && line[0] == '[' {
            origin_in(lines, index + 1, lowered(line) == lowered("[remote \"origin\"]"@))
        } else if in_origin {
            match split_once_spec(line, "="@) {
                Some((key, value)) => if lowered(trimmed(key)) == lowered("url"@) {
                    Some(trimmed(value))
                } else {
                    origin_in(lines, index + 1, in_origin)
                },
                None => origin_in(lines, index + 1, in_origin),
            }
        } else {
            origin_in(lines, index + 1, in_origin)
        }
    }
}

/// The address of the remote repository `origin` in the text of a repository's
/// configuration.
pub fn git_origin_url(text: &str) -> (result: Option<String>)
    ensures
        option_view(result) == origin_in(split_at_char(text@, '\n'), 0, false),
{
    let lines = split(text, '\n');
    let ghost texts = views(lines@);
    let mut in_origin = false;
    let mut index: usize = 0;
    while index < lines.len()
        invariant
            index <= lines.len(),
            texts == views(lines@),
            texts == split_at_char(text@, '\n'),
            origin_in(texts, index as int, in_origin) == origin_in(texts, 0, false),
        decreases lines.len() - index,
    {
        assert(texts[index as int] == lines@[index as int]@);
        let line = trim(lines[index].as_str());
        let characters = chars_of(line.as_str());
        if characters.len() > 0 && characters[0] == '[' {
            in_origin = same_ignoring_case(line.as_str(), "[remote \"origin\"]");
        } else if in_origin {
            if let Some((key, value)) = split_once(line.as_str(), "=") {
                let key = trim(key.as_str());
                if same_ignoring_case(key.as_str(), "url") {
                    return Some(trim(value.as_str()));
                }
            }
        }
        index += 1;
    }
    None
}

/// The names of the variables that stand between percent signs, up to the first
/// that is not closed or has no name.
pub open spec fn variables_in(text: Seq<char>) -> Seq<Seq<char>>
    decreases text.len(),
{
    let start = first_where(text, is_char('%'));
    let rest = text.skip(start + 1);
    let end = first_where(rest, is_char('%'));
    if 0 <= start < text.len() && 0 < end < rest.len() {
        seq![rest.take(end)] + variables_in(rest.skip(end + 1))
    } else {
        Seq::empty()
    }
}

/// A text with values put in place of its variables, or what is wrong with it.
/// The source is the whole text, for what is said of it.
pub open spec fn expansion(
    text: Seq<char>,
    values: Seq<Option<Seq<char>>>,
    source: Seq<char>,
) -> Result<Seq<char>, Seq<char>>
    decreases text.len(),
{
    let start = first_where(text, is_char('%'));
    let rest = text.skip(start + 1);
    let end = first_where(rest, is_char('%'));
    if !(0 <= start < text.len()) {
        Ok(text)
    } else if !(0 <= end < rest.len()) {
        Err("Unclosed environment variable in project source: "@ + source)
    } else if end == 0 {
        Err("Empty environment variable in project source: "@ + source)
    } else if values.len() == 0 || values[0] is None {
        Err("Environment variable %"@ + rest.take(end) + "% is unavailable"@)
    } else {
        match expansion(rest.skip(end + 1), values.drop_first(), source) {
            Ok(tail) => Ok(text.take(start) + values[0]->0 + tail),
            Err(message) => Err(message),
        }
    }
}

/// The views of optional strings.
pub open spec fn option_views(values: Seq<Option<String>>) -> Seq<Option<Seq<char>>> {
    values.map_values(|value: Option<String>| option_view(value))
}

/// The names of the variables that a text asks for.
pub fn environment_names(value: &str) -> (names: Vec<String>)
    ensures
        views(names@) == variables_in(value@),
{
    let characters = chars_of(value);
    let mut names: Vec<String> = Vec::new();
    let mut place: usize = 0;
    assert(value@.skip(0) == value@);
    assert(views(names@) + variables_in(value@) == variables_in(value@));
    while place <= characters.len()
        invariant
            place <= characters.len(),
            characters@ == value@,
            views(names@) + variables_in(value@.skip(place as int)) == variables_in(value@),
        decreases characters.len() - place,
    {
        let ghost text = value@.skip(place as int);
        let start: usize = position_of_char(characters.as_slice(), '%', place);
        if start == characters.len() {
            assert(views(names@) + Seq::<Seq<char>>::empty() == views(names@));
            return names;
        }
        let ghost rest = text.skip(start - place + 1);
        assert(rest == value@.skip(start + 1));
        let end: usize = position_of_char(characters.as_slice(), '%', start + 1);
        if end == characters.len() || end == start + 1 {
            assert(views(names@) + Seq::<Seq<char>>::empty() == views(names@));
            return names;
        }
        let name = text_between(characters.as_slice(), start + 1, end);
        assert(name@ == rest.take(end - start - 1));
        assert(rest.skip(end - start) == value@.skip(end + 1));
        let ghost found = views(names@);
        names.push(name);
        assert(views(names@) == found.push(name@));
        assert(found + (seq![name@] + variables_in(value@.skip(end + 1))) == found.push(name@)
            + variables_in(value@.skip(end + 1)));
        place = end + 1;
    }
    names
}

/// A text with values put in place of its variables.
pub fn expand_environment_variables(value: &str, values: &Vec<Option<String>>) -> (result: Result<
    String,
    String,
>)
    ensures
        match result {
            Ok(text) => expansion(value@, option_views(values@), value@) == Ok::<
                Seq<char>,
                Seq<char>,
            >(text@),
            Err(message) => expansion(value@, option_views(values@), value@) == Err::<
                Seq<char>,
                Seq<char>,
            >(message@),
        },
{
    let characters = chars_of(value);
    let ghost given = option_views(values@);
    let mut expanded = String::new();
    let mut place: usize = 0;
    let mut count: usize = 0;
    assert(value@.skip(0) == value@);
    assert(given.skip(0) == given);
    proof {
        match expansion(value@, given, value@) {
            Ok(tail) => {
                assert(expanded@ + tail == tail);
            },
            Err(_) => {},
        }
    }
    loop
        invariant
            place <= characters.len(),
            count <= values@.len(),
            characters@ == value@,
            given == option_views(values@),
            match expansion(value@.skip(place as int), given.skip(count as int), value@) {
                Ok(tail) => expansion(value@, given, value@) == Ok::<Seq<char>, Seq<char>>(
                    expanded@ + tail,
                ),
                Err(message) => expansion(value@, given, value@) == Err::<Seq<char>, Seq<char>>(
                    message,
                ),
            },
        decreases characters.len() - place,
    {
        let ghost text = value@.skip(place as int);
        let ghost left = given.skip(count as int);
        let start: usize = position_of_char(characters.as_slice(), '%', place);
        let prefix = text_between(characters.as_slice(), place, start);
        assert(prefix@ == text.take(start - place));
        let ghost sofar = expanded@;
        expanded.append(prefix.as_str());
        if start == characters.len() {
            assert(prefix@ == text);
            return Ok(expanded);
        }
        let ghost rest = text.skip(start - place + 1);
        assert(rest == value@.skip(start + 1));
        let end: usize = position_of_char(characters.as_slice(), '%', start + 1);
        if end == characters.len() {
            let mut message = owned("Unclosed environment variable in project source: ");
            message.append(value);
            return Err(message);
        }
        if end == start + 1 {
            let mut message = owned("Empty environment variable in project source: ");
            message.append(value);
            return Err(message);
        }
        let name = text_between(characters.as_slice(), start + 1, end);
        assert(name@ == rest.take(end - start - 1));
        assert(rest.skip(end - start) == value@.skip(end + 1));
        let mut replacement: Option<String> = None;
        if count < values.len() {
            assert(left[0] == option_view(values@[count as int]));
            replacement = values[count].clone();
        }
        match replacement {
            Some(replacement) => {
                assert(left[0] == Some(replacement@));
                expanded.append(replacement.as_str());
                assert(left.drop_first() == given.skip(count + 1));
                proof {
                    match expansion(value@.skip(end + 1), given.skip(count + 1), value@) {
                        Ok(tail) => {
                            assert(sofar + (text.take(start - place) + replacement@ + tail)
                                == expanded@ + tail);
                        },
                        Err(_) => {},
                    }
                }
                count += 1;
                place = end + 1;
            },
            None => {
                let mut message = owned("Environment variable %");
                message.append(name.as_str());
                message.append("% is unavailable");
                return Err(message);
            },
        }
    }
}

/// The name under which the private state of a project is kept: the fingerprint
/// of its identifier.
pub fn stable_project_key(id: &str) -> (key: String)
    ensures
        key@ == fingerprint_of(encode_utf8(id@)),
{
    fingerprint(id.as_bytes())
}

/// A path with slashes in place of backslashes.
pub fn portable_path(path: &str) -> (result: String)
    ensures
        result@ == with_char(path@, '\\', '/'),
{
    replace_char(path, '\\', '/')
}

/// A path as it is shown: without the marks of a verbatim path.
pub open spec fn shown_path(path: Seq<char>) -> Seq<char> {
    if has_prefix(path, "\\\\?\\UNC\\"@) {
        "\\\\"@ + path.skip("\\\\?\\UNC\\"@.len() as int)
    } else if has_prefix(path, "\\\\?\\"@) {
        path.skip("\\\\?\\"@.len() as int)
    } else {
        path
    }
}

/// A path as it is shown.
pub fn display_path(path: &str) -> (result: String)
    ensures
        result@ == shown_path(path@),
{
    if let Some(network) = strip_prefix(path, "\\\\?\\UNC\\") {
        let mut result = owned("\\\\");
        result.append(network.as_str());
        return result;
    }
    match strip_prefix(path, "\\\\?\\") {
        Some(rest) => rest,
        None => owned(path),
    }
}

/// Where the first blank text stands, or the number of texts.
pub open spec fn first_blank(texts: Seq<Seq<char>>) -> int
    decreases texts.len(),
{
    if texts.len() == 0 || trimmed(texts[0]).len() == 0 {
        0
    } else {
        1 + first_blank(texts.drop_first())
    }
}

/// Adds a source: in place of the first blank one, or else at the end.
pub fn add_project_source(sources: &mut Vec<String>, source: String)
    ensures
        ({
            let before = views(old(sources)@);
            views(final(sources)@) == if first_blank(before) < before.len() {
                before.update(first_blank(before), source@)
            } else {
                before.push(source@)
            }
        }),
{
    let ghost before = views(sources@);
    let mut index: usize = 0;
    assert(before.skip(0) == before);
    while index < sources.len()
        invariant
            index <= sources.len(),
            *sources == *old(sources),
            before == views(sources@),
            first_blank(before) == index + first_blank(before.skip(index as int)),
        decreases sources.len() - index,
    {
        assert(before.skip(index as int)[0] == sources@[index as int]@);
        if is_blank(sources[index].as_str()) {
            sources.set(index, source);
            assert(views(sources@) == before.update(index as int, source@));
            return;
        }
        assert(before.skip(index as int).drop_first() == before.skip(index + 1));
        index += 1;
    }
    sources.push(source);
    assert(views(sources@) == before.push(source@));
}

/// The text of a log source in a manifest, given where it lies: the path from
/// the project's root, or else from the local application data, where it lies in
/// one of them, and its path.
pub open spec fn source_text(
    from_root: Option<Seq<char>>,
    from_data: Option<Seq<char>>,
    path: Seq<char>,
) -> Seq<char> {
    match from_root {
        Some(relative) => if relative.len() == 0 {
            "."@
        } else {
            with_char(relative, '\\', '/')
        },
        None => match from_data {
            Some(relative) => if relative.len() == 0 {
                "%LOCALAPPDATA%"@
            } else {
                "%LOCALAPPDATA%/"@ + with_char(relative, '\\', '/')
            },
            None => with_char(path, '\\', '/'),
        },
    }
}

/// The text of a log source in a manifest, given where it lies.
pub fn manifest_source_path(from_root: Option<&str>, from_data: Option<&str>, path: &str) -> (
result: String)
    ensures
        result@ == source_text(
            text_view(from_root),
            text_view(from_data),
            path@,
        ),
{
    if let Some(relative) = from_root {
        return if relative.is_empty() {
            owned(".")
        } else {
            portable_path(relative)
        };
    }
    if let Some(relative) = from_data {
        return if relative.is_empty() {
            owned("%LOCALAPPDATA%")
        } else {
            let mut result = owned("%LOCALAPPDATA%/");
            let relative = portable_path(relative);
            result.append(relative.as_str());
            result
        };
    }
    portable_path(path)
}

/// The text of a log source in a manifest, as it was given, and where it lies if
/// that is an absolute path.
pub open spec fn source_argument(source: Seq<char>, absolute: Option<Seq<char>>) -> Seq<char> {
    let source = trimmed(source);
    if source.len() > 0 && source[0] == '%' {
        with_char(source, '\\', '/')
    } else {
        match absolute {
            Some(text) => text,
            None => with_char(source, '\\', '/'),
        }
    }
}

/// The text of a log source in a manifest.
pub fn manifest_source_argument(source: &str, absolute: Option<String>) -> (result: String)
    ensures
        result@ == source_argument(source@, option_view(absolute)),
{
    let source = trim(source);
    let characters = chars_of(source.as_str());
    if characters.len() > 0 && characters[0] == '%' {
        return portable_path(source.as_str());
    }
    match absolute {
        Some(text) => text,
        None => portable_path(source.as_str()),
    }
}

/// The manifest of a project.
#[derive(Debug, Clone)]
pub struct ProjectConfig {
    pub version: u16,
    pub id: String,
    pub name: String,
    pub sources: Vec<String>,
}

/// What is wrong with a manifest, given the path that it is named by.
pub open spec fn manifest_fault(config: ProjectConfig, manifest: Seq<char>) -> Option<Seq<char>> {
    if config.version != 1 {
        Some(
            "Unsupported project manifest version "@ + decimal_text(config.version as nat)
                + " in "@ + manifest,
        )
    } else if trimmed(config.id@).len() == 0 || trimmed(config.name@).len() == 0 {
        Some(
            "Project manifest "@ + manifest + " requires non-empty id and name values"@,
        )
    } else if config.sources@.len() == 0 {
        Some("Project manifest "@ + manifest + " requires at least one source"@)
    } else {
        None
    }
}

/// The sources with their variables expanded, or what is wrong with the first
/// that cannot be. Each source has the values of its variables.
pub open spec fn expanded_sources(
    sources: Seq<Seq<char>>,
    values: Seq<Seq<Option<Seq<char>>>>,
) -> Result<Seq<Seq<char>>, Seq<char>>
    decreases sources.len(),
{
    if sources.len() == 0 {
        Ok(Seq::empty())
    } else {
        match expanded_sources(sources.drop_last(), values) {
            Err(message) => Err(message),
            Ok(before) => match expansion(
                sources.last(),
                values[sources.len() - 1],
                sources.last(),
            ) {
                Ok(text) => Ok(before.push(text)),
                Err(message) => Err(message),
            },
        }
    }
}

/// What a project opens: its log sources, and the name under which its private
/// state is kept.
pub struct ProjectLaunch {
    pub workspace_key: String,
    pub sources: Vec<String>,
}

/// The views of the values of variables.
pub open spec fn value_views(values: Seq<Vec<Option<String>>>) -> Seq<Seq<Option<Seq<char>>>> {
    values.map_values(|value: Vec<Option<String>>| option_views(value@))
}

/// What a project opens, given the values of the variables of each source and
/// whether there is a place for its private state.
pub fn project_launch_from_config(
    config: &ProjectConfig,
    manifest: &str,
    values: &Vec<Vec<Option<String>>>,
    has_local_data: bool,
) -> (result: Result<ProjectLaunch, String>)
    requires
        values@.len() == config.sources@.len(),
    ensures
        match manifest_fault(*config, manifest@) {
            Some(message) => result is Err && result->Err_0@ == message,
            None => match expanded_sources(views(config.sources@), value_views(values@)) {
                Err(message) => result is Err && result->Err_0@ == message,
                Ok(sources) => if !has_local_data {
                    result is Err && result->Err_0@
                        == "LOCALAPPDATA is unavailable; cannot store project workspace"@
                } else {
                    result is Ok && views(result->Ok_0.sources@) == sources
                        && result->Ok_0.workspace_key@ == fingerprint_of(
                        encode_utf8(trimmed(config.id@)),
                    )
                },
            },
        },
{
    if config.version != 1 {
        let mut message = owned("Unsupported project manifest version ");
        let version = natural_to_text(config.version as u64);
        message.append(version.as_str());
        message.append(" in ");
        message.append(manifest);
        return Err(message);
    }
    if is_blank(config.id.as_str()) || is_blank(config.name.as_str()) {
        let mut message = owned("Project manifest ");
        message.append(manifest);
        message.append(" requires non-empty id and name values");
        return Err(message);
    }
    if config.sources.len() == 0 {
        let mut message = owned("Project manifest ");
        message.append(manifest);
        message.append(" requires at least one source");
        return Err(message);
    }
    let ghost texts = views(config.sources@);
    let ghost given = value_views(values@);
    let mut sources: Vec<String> = Vec::new();
    let mut index: usize = 0;
    assert(texts.take(0) == Seq::<Seq<char>>::empty());
    assert(views(sources@) == Seq::<Seq<char>>::empty());
    while index < config.sources.len()
        invariant
            index <= config.sources.len(),
            values@.len() == config.sources@.len(),
            texts == views(config.sources@),
            given == value_views(values@),
            manifest_fault(*config, manifest@) is None,
            expanded_sources(texts.take(index as int), given) == Ok::<
                Seq<Seq<char>>,
                Seq<char>,
            >(views(sources@)),
        decreases config.sources.len() - index,
    {
        let ghost before = views(sources@);
        assert(texts.take(index + 1).drop_last() == texts.take(index as int));
        assert(texts[index as int] == config.sources@[index as int]@);
        assert(given[index as int] == option_views(values@[index as int]@));
        match expand_environment_variables(config.sources[index].as_str(), &values[index]) {
            Ok(text) => {
                sources.push(text);
                assert(views(sources@) == before.push(text@));
            },
            Err(message) => {
                proof {
                    lemma_expansion_stops(texts, given, index + 1);
                }
                return Err(message);
            },
        }
        index += 1;
    }
    assert(texts.take(index as int) == texts);
    if !has_local_data {
        return Err(owned("LOCALAPPDATA is unavailable; cannot store project workspace"));
    }
    let id = trim(config.id.as_str());
    Ok(ProjectLaunch { workspace_key: stable_project_key(id.as_str()), sources })
}

/// A source that cannot be expanded stops the expansion of them all.
proof fn lemma_expansion_stops(
    sources: Seq<Seq<char>>,
    values: Seq<Seq<Option<Seq<char>>>>,
    count: int,
)
    requires
        0 <= count <= sources.len(),
        expanded_sources(sources.take(count), values) is Err,
    ensures
        expanded_sources(sources, values) == expanded_sources(sources.take(count), values),
    decreases sources.len() - count,
{
    if count == sources.len() {
        assert(sources.take(count) == sources);
    } else {
        assert(sources.take(count + 1).drop_last() == sources.take(count));
        lemma_expansion_stops(sources, values, count + 1);
    }
}

/// Texts trimmed, without those that are blank.
pub open spec fn trimmed_nonblank(texts: Seq<Seq<char>>) -> Seq<Seq<char>>
    decreases texts.len(),
{
    if texts.len() == 0 {
        Seq::empty()
    } else if trimmed(texts.last()).len() > 0 {
        trimmed_nonblank(texts.drop_last()).push(trimmed(texts.last()))
    } else {
        trimmed_nonblank(texts.drop_last())
    }
}

/// The setup of a project while it is edited.
#[derive(Debug, Clone)]
pub struct ProjectSetup {
    pub name: String,
    pub id: String,
    pub sources: Vec<String>,
    pub editing_existing: bool,
    pub confirm_overwrite: bool,
    pub error: Option<String>,
}

impl ProjectSetup {
    /// The setup of a new project, given the name of its directory and the
    /// address of its remote repository, where it has them.
    pub fn new(directory_name: Option<String>, origin: Option<String>) -> (setup: Self)
        ensures
            ({
                let name = match directory_name {
                    Some(name) => name@,
                    None => "My Application"@,
                };
                &&& setup.name@ == name
                &&& setup.id@ == suggested_identifier(option_view(origin), name)
                &&& views(setup.sources@) == seq![Seq::<char>::empty()]
                &&& !setup.editing_existing
                &&& !setup.confirm_overwrite
                &&& setup.error is None
            }),
    {
        let name = match directory_name {
            Some(name) => name,
            None => owned("My Application"),
        };
        let id = match &origin {
            Some(origin) => suggested_project_id(Some(origin.as_str()), name.as_str()),
            None => suggested_project_id(None, name.as_str()),
        };
        let mut sources: Vec<String> = Vec::new();
        sources.push(String::new());
        assert(views(sources@) == seq![Seq::<char>::empty()]);
        ProjectSetup {
            name,
            id,
            sources,
            editing_existing: false,
            confirm_overwrite: false,
            error: None,
        }
    }

    /// The setup of a project that has a manifest.
    pub fn from_config(config: ProjectConfig) -> (setup: Self)
        ensures
            setup.name@ == config.name@,
            setup.id@ == config.id@,
            views(setup.sources@) == views(config.sources@),
            setup.editing_existing,
            !setup.confirm_overwrite,
            setup.error is None,
    {
        ProjectSetup {
            name: config.name,
            id: config.id,
            sources: config.sources,
            editing_existing: true,
            confirm_overwrite: false,
            error: None,
        }
    }

    /// The manifest that the setup gives.
    pub fn config(&self) -> (config: ProjectConfig)
        ensures
            config.version == 1,
            config.id@ == trimmed(self.id@),
            config.name@ == trimmed(self.name@),
            views(config.sources@) == trimmed_nonblank(views(self.sources@)),
    {
        let ghost texts = views(self.sources@);
        let mut sources: Vec<String> = Vec::new();
        let mut index: usize = 0;
        assert(texts.take(0) == Seq::<Seq<char>>::empty());
        while index < self.sources.len()
            invariant
                index <= self.sources.len(),
                texts == views(self.sources@),
                views(sources@) == trimmed_nonblank(texts.take(index as int)),
            decreases self.sources.len() - index,
        {
            assert(texts.take(index + 1).drop_last() == texts.take(index as int));
            assert(texts[index as int] == self.sources@[index as int]@);
            let ghost before = views(sources@);
            let source = trim(self.sources[index].as_str());
            if !source.as_str().is_empty() {
                sources.push(source);
                assert(views(sources@) == before.push(source@));
            }
            index += 1;
        }
        assert(texts.take(index as int) == texts);
        ProjectConfig {
            version: 1,
            id: trim(self.id.as_str()),
            name: trim(self.name.as_str()),
            sources,
        }
    }
}

/// What was found at the root of a project to be configured.
pub enum RootState {
    /// It cannot be resolved, for a reason.
    Unresolved(String),
    /// It is there, under a path, but no directory.
    NotADirectory(String),
    /// It is a directory.
    Directory,
}

/// The texts of the log sources in a manifest, as they were given, and where
/// each lies if that is an absolute path.
pub open spec fn source_arguments(
    sources: Seq<Seq<char>>,
    absolute: Seq<Option<Seq<char>>>,
) -> Seq<Seq<char>> {
    Seq::new(sources.len(), |i: int| source_argument(sources[i], absolute[i]))
}

/// Why a manifest is not written, if it is not: what is wrong with it, that a source has
/// a variable without a value, that there is no place for the private state of the
/// project, or that there is a manifest that is not to be replaced.
pub open spec fn writing_fault(
    config: ProjectConfig,
    manifest: Seq<char>,
    values: Seq<Seq<Option<Seq<char>>>>,
    has_local_data: bool,
    manifest_exists: bool,
    overwrite: bool,
) -> Option<Seq<char>> {
    match manifest_fault(config, manifest) {
        Some(message) => Some(message),
        None => match expanded_sources(views(config.sources@), values) {
            Err(message) => Some(message),
            Ok(_) => if !has_local_data {
                Some("LOCALAPPDATA is unavailable; cannot store project workspace"@)
            } else if manifest_exists && !overwrite {
                Some("Unable to create project manifest "@ + manifest + ": it already exists"@)
            } else {
                None
            },
        },
    }
}

/// Whether a manifest may be written, or why not. The values are those of the variables
/// of each source.
pub fn check_manifest(
    config: &ProjectConfig,
    manifest: &str,
    values: &Vec<Vec<Option<String>>>,
    has_local_data: bool,
    manifest_exists: bool,
    overwrite: bool,
) -> (result: Result<(), String>)
    requires
        values@.len() == config.sources@.len(),
    ensures
        ({
            let fault = writing_fault(
                *config,
                manifest@,
                value_views(values@),
                has_local_data,
                manifest_exists,
                overwrite,
            );
            match result {
                Ok(_) => fault is None,
                Err(message) => fault == Some(message@),
            }
        }),
{
    match project_launch_from_config(config, manifest, values, has_local_data) {
        Err(message) => Err(message),
        Ok(_) => if manifest_exists && !overwrite {
            let mut message = owned("Unable to create project manifest ");
            message.append(manifest);
            message.append(": it already exists");
            Err(message)
        } else {
            Ok(())
        },
    }
}

/// Whether a manifest is the one that is asked for.
pub open spec fn is_asked_for(
    configuration: ProjectConfiguration,
    absolute: Seq<Option<Seq<char>>>,
    config: ProjectConfig,
) -> bool {
    &&& config.version == 1
    &&& config.id@ == trimmed(configuration.id@)
    &&& config.name@ == trimmed(configuration.name@)
    &&& views(config.sources@) == source_arguments(views(configuration.sources@), absolute)
}

/// The manifest that is asked for.
fn manifest_asked_for(configuration: &ProjectConfiguration, absolute: &Vec<Option<String>>) -> (
config: ProjectConfig)
    requires
        absolute@.len() == configuration.sources@.len(),
    ensures
        is_asked_for(*configuration, option_views(absolute@), config),
{
    let ghost wanted = source_arguments(views(configuration.sources@), option_views(absolute@));
    let mut sources: Vec<String> = Vec::new();
    let mut index: usize = 0;
    while index < configuration.sources.len()
        invariant
            index <= configuration.sources.len(),
            absolute@.len() == configuration.sources@.len(),
            wanted == source_arguments(views(configuration.sources@), option_views(absolute@)),
            views(sources@) == wanted.take(index as int),
        decreases configuration.sources.len() - index,
    {
        let ghost before = views(sources@);
        let place = absolute[index].clone();
        assert(option_view(place) == option_views(absolute@)[index as int]);
        let source = manifest_source_argument(configuration.sources[index].as_str(), place);
        assert(views(configuration.sources@)[index as int]
            == configuration.sources@[index as int]@);
        assert(source@ == wanted[index as int]);
        sources.push(source);
        assert(views(sources@) == before.push(source@));
        index += 1;
    }
    assert(wanted.take(index as int) == wanted);
    ProjectConfig {
        version: 1,
        id: trim(configuration.id.as_str()),
        name: trim(configuration.name.as_str()),
        sources,
    }
}

/// The manifest to be written for a project, or why none is. What was found at the root
/// of the project is given, where its sources lie, the values of the variables in the
/// manifest, whether there is a place for private state, and whether there is a manifest
/// already.
pub fn configure_project(
    configuration: &ProjectConfiguration,
    root: RootState,
    absolute: &Vec<Option<String>>,
    manifest: &str,
    values: &Vec<Vec<Option<String>>>,
    has_local_data: bool,
    manifest_exists: bool,
) -> (result: Result<ProjectConfig, String>)
    requires
        absolute@.len() == configuration.sources@.len(),
        values@.len() == configuration.sources@.len(),
    ensures
        match root {
            RootState::Unresolved(reason) => result is Err && result->Err_0@
                == "Unable to resolve project root "@ + configuration.root@ + ": "@ + reason@,
            RootState::NotADirectory(path) => result is Err && result->Err_0@ == "Project root "@
                + path@ + " is not a directory"@,
            RootState::Directory => exists|config: ProjectConfig|
                {
                    let fault = writing_fault(
                        config,
                        manifest@,
                        value_views(values@),
                        has_local_data,
                        manifest_exists,
                        configuration.overwrite,
                    );
                    &&& #[trigger] is_asked_for(*configuration, option_views(absolute@), config)
                    &&& match result {
                        Ok(written) => fault is None && written == config,
                        Err(message) => fault == Some(message@),
                    }
                },
        },
{
    match root {
        RootState::Unresolved(reason) => {
            let mut message = owned("Unable to resolve project root ");
            message.append(configuration.root.as_str());
            message.append(": ");
            message.append(reason.as_str());
            Err(message)
        },
        RootState::NotADirectory(path) => {
            let mut message = owned("Project root ");
            message.append(path.as_str());
            message.append(" is not a directory");
            Err(message)
        },
        RootState::Directory => {
            let config = manifest_asked_for(configuration, absolute);
            assert(is_asked_for(*configuration, option_views(absolute@), config));
            assert(views(config.sources@).len() == config.sources@.len());
            match check_manifest(
                &config,
                manifest,
                values,
                has_local_data,
                manifest_exists,
                configuration.overwrite,
            ) {
                Ok(_) => Ok(config),
                Err(message) => Err(message),
            }
        },
    }
}

/// A manifest without an identifier, a name or a source is not written, whether or not
/// another one is to be replaced; nor is one that would replace another one unasked.
pub proof fn lemma_faulty_manifests_are_refused(
    config: ProjectConfig,
    manifest: Seq<char>,
    values: Seq<Seq<Option<Seq<char>>>>,
    has_local_data: bool,
    manifest_exists: bool,
    overwrite: bool,
)
    ensures
        trimmed(config.id@).len() == 0 || trimmed(config.name@).len() == 0
            || config.sources@.len() == 0 || (manifest_exists && !overwrite) || expanded_sources(
            views(config.sources@),
            values,
        ) is Err ==> writing_fault(
            config,
            manifest,
            values,
            has_local_data,
            manifest_exists,
            overwrite,
        ) is Some,
{
}

/// The name that a project is shown by: that of its manifest, or else that of
/// its directory.
pub fn project_display_name(manifest_name: Option<String>, directory_name: Option<String>) -> (
result: Option<String>)
    ensures
        option_view(result) == (match manifest_name {
            Some(name) => if trimmed(name@).len() > 0 {
                Some(trimmed(name@))
            } else {
                option_view(directory_name)
            },
            None => option_view(directory_name),
        }),
{
    if let Some(name) = manifest_name {
        let name = trim(name.as_str());
        if !name.as_str().is_empty() {
            return Some(name);
        }
    }
    directory_name
}

/// The name of the directory that holds the manifest of a project.
pub const MANIFEST_DIRECTORY: &'static str = ".deebugee";

/// The name of the manifest of a project.
pub const MANIFEST_NAME: &'static str = "project.toml";

/// Where the root of a project lies, seen from its manifest.
#[derive(Clone, Copy, PartialEq, Eq, Structural, Debug)]
pub enum RootPlace {
    /// In the directory of the manifest.
    Parent,
    /// In the directory around that of the manifest.
    Grandparent,
}

/// Where the root of a project lies: around the directory that is meant for the
/// manifest, or where the manifest lies elsewhere, in its directory. The name of
/// the directory of the manifest is given where it has one.
pub fn project_root_from_manifest(
    manifest: &str,
    has_parent: bool,
    parent_name: Option<&str>,
    has_grandparent: bool,
) -> (result: Result<RootPlace, String>)
    ensures
        ({
            let meant = text_view(parent_name) == Some(MANIFEST_DIRECTORY@);
            if !has_parent {
                result is Err && result->Err_0@ == "Project manifest "@ + manifest@
                    + " has no parent"@
            } else if !meant {
                result == Ok::<RootPlace, String>(RootPlace::Parent)
            } else if has_grandparent {
                result == Ok::<RootPlace, String>(RootPlace::Grandparent)
            } else {
                result is Err && result->Err_0@ == "Project manifest "@ + manifest@
                    + " has no project root"@
            }
        }),
{
    if !has_parent {
        let mut message = owned("Project manifest ");
        message.append(manifest);
        message.append(" has no parent");
        return Err(message);
    }
    let meant = match parent_name {
        Some(name) => same(name, MANIFEST_DIRECTORY),
        None => false,
    };
    if !meant {
        return Ok(RootPlace::Parent);
    }
    if has_grandparent {
        return Ok(RootPlace::Grandparent);
    }
    let mut message = owned("Project manifest ");
    message.append(manifest);
    message.append(" has no project root");
    Err(message)
}

/// Whether a path is that of a project: a directory that holds a manifest, or the
/// manifest itself.
pub fn is_project_path(
    holds_manifest: bool,
    is_file: bool,
    name: Option<&str>,
    parent_name: Option<&str>,
) -> (result: bool)
    ensures
        result == (holds_manifest || (is_file && text_view(name) == Some(MANIFEST_NAME@)
            && text_view(parent_name) == Some(MANIFEST_DIRECTORY@))),
{
    if holds_manifest {
        return true;
    }
    match (name, parent_name) {
        (Some(name), Some(parent)) => is_file && same(name, MANIFEST_NAME) && same(
            parent,
            MANIFEST_DIRECTORY,
        ),
        _ => false,
    }
}

/// The name that a workspace is shown by: that of the directory of its file, or
/// where that is the directory for the manifest of a project, the one around it. A
/// name is given where there is one that is a Unicode text.
pub fn workspace_display_name(
    parent_name: Option<String>,
    has_grandparent: bool,
    grandparent_name: Option<String>,
) -> (name: Option<String>)
    ensures
        option_view(name) == if option_view(parent_name) == Some(MANIFEST_DIRECTORY@)
            && has_grandparent {
            option_view(grandparent_name)
        } else {
            option_view(parent_name)
        },
{
    let meant = match &parent_name {
        Some(name) => same(name.as_str(), MANIFEST_DIRECTORY),
        None => false,
    };
    if meant && has_grandparent {
        grandparent_name
    } else {
        parent_name
    }
}

impl ProjectSetup {
    /// Whether the setup can be saved: it has a name, an identifier and a source.
    pub fn can_save(&self) -> (result: bool)
        ensures
            result == (trimmed(self.name@).len() > 0 && trimmed(self.id@).len() > 0
                && trimmed_nonblank(views(self.sources@)).len() > 0),
    {
        let config = self.config();
        assert(views(config.sources@).len() == config.sources@.len());
        !is_blank(self.name.as_str()) && !is_blank(self.id.as_str()) && config.sources.len() > 0
    }

    /// Takes a change of the setup over: what was asked or told before is no longer
    /// so.
    pub fn edited(&mut self)
        ensures
            *final(self) == (ProjectSetup {
                confirm_overwrite: false,
                error: None,
                ..*old(self)
            }),
    {
        self.confirm_overwrite = false;
        self.error = None;
    }

    /// Adds a source that was picked.
    pub fn add_source(&mut self, source: String)
        ensures
            ({
                let before = views(old(self).sources@);
                views(final(self).sources@) == if first_blank(before) < before.len() {
                    before.update(first_blank(before), source@)
                } else {
                    before.push(source@)
                }
            }),
            *final(self) == (ProjectSetup {
                sources: final(self).sources,
                confirm_overwrite: false,
                error: None,
                ..*old(self)
            }),
    {
        add_project_source(&mut self.sources, source);
        self.edited();
    }

    /// Removes a source.
    pub fn remove_source(&mut self, index: usize)
        requires
            index < old(self).sources@.len(),
        ensures
            views(final(self).sources@) == views(old(self).sources@).remove(index as int),
            *final(self) == (ProjectSetup {
                sources: final(self).sources,
                confirm_overwrite: false,
                error: None,
                ..*old(self)
            }),
    {
        let removed = self.sources.remove(index);
        assert(views(self.sources@) == views(old(self).sources@).remove(index as int));
        self.edited();
    }

    /// Asks to save: at once where there is no manifest yet or its replacement was
    /// confirmed; otherwise that is asked for first.
    pub fn request_save(&mut self) -> (save_now: bool)
        ensures
            save_now == (old(self).confirm_overwrite || !old(self).editing_existing),
            *final(self) == (ProjectSetup {
                confirm_overwrite: old(self).confirm_overwrite || old(self).editing_existing,
                ..*old(self)
            }),
    {
        if self.confirm_overwrite {
            return true;
        }
        if self.editing_existing {
            self.confirm_overwrite = true;
            return false;
        }
        true
    }
}

/// What is told of a project that was configured.
pub fn configured_notice(manifest: &str, source_count: usize) -> (notice: String)
    ensures
        notice@ == "Configured "@ + manifest@ + " with "@ + decimal_text(source_count as nat)
            + " log source"@ + if source_count == 1 {
            Seq::empty()
        } else {
            "s"@
        },
{
    let mut notice = owned("Configured ");
    notice.append(manifest);
    notice.append(" with ");
    let count = natural_to_text(source_count as u64);
    notice.append(count.as_str());
    notice.append(" log source");
    if source_count != 1 {
        notice.append("s");
    }
    assert(notice@ == "Configured "@ + manifest@ + " with "@ + decimal_text(source_count as nat)
        + " log source"@ + if source_count == 1 {
        Seq::empty()
    } else {
        "s"@
    });
    notice
}

/// The manifest that a setup gives can be opened where the setup can be saved.
pub proof fn lemma_saved_setup_is_valid(setup: ProjectSetup, config: ProjectConfig, manifest: Seq<
    char,
>)
    requires
        trimmed(setup.name@).len() > 0,
        trimmed(setup.id@).len() > 0,
        trimmed_nonblank(views(setup.sources@)).len() > 0,
        config.version == 1,
        config.id@ == trimmed(setup.id@),
        config.name@ == trimmed(setup.name@),
        views(config.sources@) == trimmed_nonblank(views(setup.sources@)),
    ensures
        manifest_fault(config, manifest) is None,
{
    lemma_trimmed_twice(setup.id@);
    lemma_trimmed_twice(setup.name@);
    assert(views(config.sources@).len() == config.sources@.len());
}

/// A text without percent signs stands for itself and asks for no variables.
pub proof fn lemma_text_without_variables(
    text: Seq<char>,
    values: Seq<Option<Seq<char>>>,
    source: Seq<char>,
)
    requires
        !text.contains('%'),
    ensures
        expansion(text, values, source) == Ok::<Seq<char>, Seq<char>>(text),
        variables_in(text).len() == 0,
{
    assert forall|i: int| 0 <= i < text.len() implies !is_char('%')(#[trigger] text[i]) by {
        assert(text.contains(text[i]));
    }
    lemma_first_where_is(text, is_char('%'), text.len() as int);
}

/// Where the first percent signs of a text stand.
proof fn lemma_first_variable(before: Seq<char>, name: Seq<char>, after: Seq<char>)
    requires
        !before.contains('%'),
        !name.contains('%'),
    ensures
        ({
            let text = before + "%"@ + name + "%"@ + after;
            let rest = text.skip(before.len() as int + 1);
            &&& first_where(text, is_char('%')) == before.len()
            &&& before.len() < text.len()
            &&& text.take(before.len() as int) == before
            &&& rest == name + "%"@ + after
            &&& first_where(rest, is_char('%')) == name.len()
            &&& name.len() < rest.len()
            &&& rest.take(name.len() as int) == name
            &&& rest.skip(name.len() as int + 1) == after
        }),
{
    reveal_strlit("%");
    let text = before + "%"@ + name + "%"@ + after;
    let rest = text.skip(before.len() as int + 1);
    assert forall|i: int| 0 <= i < before.len() implies !is_char('%')(#[trigger] text[i]) by {
        assert(text[i] == before[i]);
        assert(before.contains(before[i]));
    }
    assert(text[before.len() as int] == '%');
    lemma_first_where_is(text, is_char('%'), before.len() as int);
    assert(rest == name + "%"@ + after);
    assert forall|i: int| 0 <= i < name.len() implies !is_char('%')(#[trigger] rest[i]) by {
        assert(rest[i] == name[i]);
        assert(name.contains(name[i]));
    }
    assert(rest[name.len() as int] == '%');
    lemma_first_where_is(rest, is_char('%'), name.len() as int);
    assert(text.take(before.len() as int) == before);
    assert(rest.take(name.len() as int) == name);
    assert(rest.skip(name.len() as int + 1) == after);
}

/// A variable between percent signs is asked for by its name, and its value is put in its
/// place; what stands around it stays, and what follows is treated alike. A variable without
/// a value or without a name is refused.
pub proof fn lemma_variables_are_replaced(
    before: Seq<char>,
    name: Seq<char>,
    after: Seq<char>,
    value: Option<Seq<char>>,
    values: Seq<Option<Seq<char>>>,
    source: Seq<char>,
)
    requires
        !before.contains('%'),
        !name.contains('%'),
    ensures
        ({
            let text = before + "%"@ + name + "%"@ + after;
            let expanded = expansion(text, seq![value] + values, source);
            let tail = expansion(after, values, source);
            &&& name.len() > 0 ==> variables_in(text) == seq![name] + variables_in(after)
            &&& name.len() > 0 && value is Some && tail is Ok ==> expanded == Ok::<
                Seq<char>,
                Seq<char>,
            >(before + value->0 + tail->Ok_0)
            &&& name.len() > 0 && value is Some && tail is Err ==> expanded is Err
            &&& name.len() == 0 || value is None ==> expanded is Err
        }),
{
    lemma_first_variable(before, name, after);
    assert((seq![value] + values).drop_first() == values);
}

/// A percent sign that has no second one is refused.
pub proof fn lemma_open_variable_is_refused(
    before: Seq<char>,
    after: Seq<char>,
    values: Seq<Option<Seq<char>>>,
    source: Seq<char>,
)
    requires
        !before.contains('%'),
        !after.contains('%'),
    ensures
        expansion(before + "%"@ + after, values, source) is Err,
{
    reveal_strlit("%");
    let text = before + "%"@ + after;
    assert forall|i: int| 0 <= i < before.len() implies !is_char('%')(#[trigger] text[i]) by {
        assert(text[i] == before[i]);
        assert(before.contains(before[i]));
    }
    assert(text[before.len() as int] == '%');
    lemma_first_where_is(text, is_char('%'), before.len() as int);
    assert(text.skip(before.len() as int + 1) == after);
    assert forall|i: int| 0 <= i < after.len() implies !is_char('%')(#[trigger] after[i]) by {
        assert(after.contains(after[i]));
    }
    lemma_first_where_is(after, is_char('%'), after.len() as int);
}

/// What stands before and behind the first occurrence of a part.
proof fn lemma_split_once_is(before: Seq<char>, part: Seq<char>, behind: Seq<char>)
    requires
        part.len() > 0,
        forall|place: int|
            0 <= place < before.len() ==> !occurs_at(before + part + behind, part, place),
    ensures
        split_once_spec(before + part + behind, part) == Some((before, behind)),
{
    let text = before + part + behind;
    assert(text.subrange(before.len() as int, before.len() + part.len() as int) == part);
    lemma_first_occurrence(text, part, 0, Some(before.len() as int));
    assert(text.take(before.len() as int) == before);
    assert(text.skip(before.len() as int + part.len()) == behind);
}

/// Whether a text has none of the marks of an address.
pub open spec fn is_plain_host(text: Seq<char>) -> bool {
    !text.contains('/') && !text.contains(':') && !text.contains('@')
}

proof fn lemma_no_occurrence(text: Seq<char>, part: Seq<char>, place: int, index: int)
    requires
        0 <= index < part.len(),
        0 <= place,
        place + index < text.len() ==> text[place + index] != part[index],
    ensures
        !occurs_at(text, part, place),
{
    if occurs_at(text, part, place) {
        assert(text.subrange(place, place + part.len())[index] == part[index]);
    }
}

/// An address with a scheme names the host between the scheme and the first slash, without a
/// user in front of it and a port behind it, and the path behind that slash.
pub proof fn lemma_address_names_host_and_path(
    scheme: Seq<char>,
    user: Option<Seq<char>>,
    host: Seq<char>,
    port: Option<Seq<char>>,
    path: Seq<char>,
)
    requires
        is_plain_host(scheme),
        user is Some ==> is_plain_host(user->0),
        is_plain_host(host),
        port is Some ==> is_plain_host(port->0),
        ({
            let authority = (match user {
                Some(user) => user + "@"@,
                None => Seq::empty(),
            }) + host + (match port {
                Some(port) => ":"@ + port,
                None => Seq::empty(),
            });
            let remote = scheme + "://"@ + authority + "/"@ + path;
            trimmed(remote) == remote && !has_suffix(remote, "/"@) && !has_suffix(remote, ".git"@)
        }),
    ensures
        ({
            let authority = (match user {
                Some(user) => user + "@"@,
                None => Seq::empty(),
            }) + host + (match port {
                Some(port) => ":"@ + port,
                None => Seq::empty(),
            });
            remote_location(scheme + "://"@ + authority + "/"@ + path) == Some((host, path))
        }),
{
    reveal_strlit("://");
    reveal_strlit("/");
    reveal_strlit("@");
    reveal_strlit(":");
    let front = match user {
        Some(user) => user + "@"@,
        None => Seq::empty(),
    };
    let back = match port {
        Some(port) => ":"@ + port,
        None => Seq::empty(),
    };
    let authority = front + host + back;
    let rest = authority + "/"@ + path;
    let remote = scheme + "://"@ + authority + "/"@ + path;
    assert(remote == scheme + "://"@ + rest);
    assert forall|place: int| 0 <= place < scheme.len() implies !occurs_at(
        scheme + "://"@ + rest,
        "://"@,
        place,
    ) by {
        assert((scheme + "://"@ + rest)[place] == scheme[place]);
        assert(scheme.contains(scheme[place]));
        lemma_no_occurrence(scheme + "://"@ + rest, "://"@, place, 0);
    }
    lemma_split_once_is(scheme, "://"@, rest);
    assert forall|place: int| 0 <= place < authority.len() implies !occurs_at(
        rest,
        "/"@,
        place,
    ) by {
        if place < front.len() {
            assert(rest[place] == front[place]);
            if place < user->0.len() {
                assert(front[place] == user->0[place]);
                assert(user->0.contains(user->0[place]));
            }
        } else if place < front.len() + host.len() {
            assert(rest[place] == host[place - front.len()]);
            assert(host.contains(host[place - front.len()]));
        } else {
            let inner = place - front.len() - host.len();
            assert(rest[place] == back[inner]);
            if inner > 0 {
                assert(back[inner] == port->0[inner - 1]);
                assert(port->0.contains(port->0[inner - 1]));
            }
        }
        lemma_no_occurrence(rest, "/"@, place, 0);
    }
    lemma_split_once_is(authority, "/"@, path);
    lemma_authority_names_host(user, host, port);
}

/// The host of an authority, without its user and its port.
proof fn lemma_authority_names_host(
    user: Option<Seq<char>>,
    host: Seq<char>,
    port: Option<Seq<char>>,
)
    requires
        user is Some ==> is_plain_host(user->0),
        is_plain_host(host),
        port is Some ==> is_plain_host(port->0),
    ensures
        ({
            let behind = host + (match port {
                Some(port) => ":"@ + port,
                None => Seq::empty(),
            });
            let authority = (match user {
                Some(user) => user + "@"@,
                None => Seq::empty(),
            }) + behind;
            &&& authority == (match user {
                Some(user) => user + "@"@,
                None => Seq::empty(),
            }) + host + (match port {
                Some(port) => ":"@ + port,
                None => Seq::empty(),
            })
            &&& split_at_char(authority, '@').last() == behind
            &&& split_at_char(behind, ':')[0] == host
        }),
{
    reveal_strlit("@");
    reveal_strlit(":");
    assert("@"@ == seq!['@']);
    assert(":"@ == seq![':']);
    let back = match port {
        Some(port) => ":"@ + port,
        None => Seq::empty(),
    };
    let behind = host + back;
    let front = match user {
        Some(user) => user + "@"@,
        None => Seq::empty(),
    };
    assert(front + behind == front + host + back);
    let at = is_char('@');
    let colon = is_char(':');
    assert forall|i: int| 0 <= i < behind.len() implies !at(#[trigger] behind[i]) by {
        if i < host.len() {
            assert(behind[i] == host[i]);
            assert(host.contains(host[i]));
        } else if i > host.len() {
            assert(behind[i] == port->0[i - host.len() - 1]);
            assert(port->0.contains(port->0[i - host.len() - 1]));
        }
    }
    lemma_one_piece(behind, at);
    if let Some(user) = user {
        lemma_split_at_separator(user, '@', behind, at);
        assert(front + behind == user + seq!['@'] + behind);
        assert((split_where(user, at) + seq![behind]).last() == behind);
    } else {
        assert(front + behind == behind);
    }
    assert forall|i: int| 0 <= i < host.len() implies !colon(#[trigger] host[i]) by {
        assert(host.contains(host[i]));
    }
    lemma_one_piece(host, colon);
    if let Some(port) = port {
        lemma_split_at_separator(host, ':', port, colon);
        assert(behind == host + seq![':'] + port);
        assert((seq![host] + split_where(port, colon))[0] == host);
    } else {
        assert(behind == host);
    }
}

/// An address without a scheme names the host before its first colon, without a user, and the
/// path behind it.
pub proof fn lemma_short_address_names_host_and_path(
    user: Option<Seq<char>>,
    host: Seq<char>,
    path: Seq<char>,
)
    requires
        user is Some ==> is_plain_host(user->0),
        is_plain_host(host),
        !path.contains(':'),
        path.len() < 2 || path.take(2) != "//"@,
        ({
            let remote = (match user {
                Some(user) => user + "@"@,
                None => Seq::empty(),
            }) + host + ":"@ + path;
            trimmed(remote) == remote && !has_suffix(remote, "/"@) && !has_suffix(remote, ".git"@)
        }),
    ensures
        remote_location(
            (match user {
                Some(user) => user + "@"@,
                None => Seq::empty(),
            }) + host + ":"@ + path,
        ) == Some((host, path)),
{
    reveal_strlit("://");
    reveal_strlit("//");
    reveal_strlit("@");
    reveal_strlit(":");
    let front = match user {
        Some(user) => user + "@"@,
        None => Seq::empty(),
    };
    let authority = front + host;
    let remote = authority + ":"@ + path;
    assert forall|i: int| 0 <= i < authority.len() implies #[trigger] authority[i] != ':' by {
        if i < front.len() {
            assert(authority[i] == front[i]);
            if i < user->0.len() {
                assert(front[i] == user->0[i]);
                assert(user->0.contains(user->0[i]));
            }
        } else {
            assert(authority[i] == host[i - front.len()]);
            assert(host.contains(host[i - front.len()]));
        }
    }
    assert forall|place: int| 0 <= place implies !occurs_at(remote, "://"@, place) by {
        if place < authority.len() {
            assert(remote[place] == authority[place]);
            lemma_no_occurrence(remote, "://"@, place, 0);
        } else if place == authority.len() {
            if occurs_at(remote, "://"@, place) {
                assert(remote.subrange(place, place + 3)[1] == '/');
                assert(remote.subrange(place, place + 3)[2] == '/');
                assert(remote[place + 1] == path[0]);
                assert(remote[place + 2] == path[1]);
                assert(path.take(2) =~= "//"@);
            }
        } else if place < remote.len() {
            assert(remote[place] == path[place - authority.len() - 1]);
            assert(path.contains(path[place - authority.len() - 1]));
            lemma_no_occurrence(remote, "://"@, place, 0);
        }
    }
    lemma_first_occurrence(remote, "://"@, 0, None);
    assert forall|place: int| 0 <= place < authority.len() implies !occurs_at(
        remote,
        ":"@,
        place,
    ) by {
        assert(remote[place] == authority[place]);
        lemma_no_occurrence(remote, ":"@, place, 0);
    }
    lemma_split_once_is(authority, ":"@, path);
    lemma_authority_names_host(user, host, None);
    assert(host + Seq::<char>::empty() == host);
    assert(front + (host + Seq::<char>::empty()) == authority);
}

/// Slashes at the end of an address, and `.git` before them, do not count.
pub proof fn lemma_address_endings_do_not_count(remote: Seq<char>)
    requires
        remote.len() > 0,
        trimmed(remote) == remote,
        !has_suffix(remote, "/"@),
        !has_suffix(remote, ".git"@),
    ensures
        remote_location(remote + ".git"@) == remote_location(remote),
        remote_location(remote + "/"@) == remote_location(remote),
        remote_location(remote + ".git/"@) == remote_location(remote),
{
    reveal_strlit("/");
    reveal_strlit(".git");
    reveal_strlit(".git/");
    lemma_trim_start_keeps(remote);
    lemma_trim_end_keeps(trim_start_spec(remote));
    assert(!is_space(remote[0])) by {
        if is_space(remote[0]) {
            lemma_trim_start_shortens(remote);
        }
    }
    assert(trim_start_spec(remote) == remote);
    let first = remote + ".git"@;
    let second = remote + "/"@;
    let third = remote + ".git/"@;
    assert(first[0] == remote[0] && second[0] == remote[0] && third[0] == remote[0]);
    assert(first.last() == 't' && second.last() == '/' && third.last() == '/');
    assert(trimmed(first) == first && trimmed(second) == second && trimmed(third) == third);
    assert(first.take(first.len() - 4) == remote && first.skip(first.len() - 4) == ".git"@);
    assert(second.take(second.len() - 1) == remote && second.skip(second.len() - 1) == "/"@);
    assert(third.take(third.len() - 1) == first && third.skip(third.len() - 1) == "/"@);
    assert(!has_suffix(first, "/"@)) by {
        assert(first.skip(first.len() - 1)[0] == 't');
    }
    reveal_with_fuel(without_suffix, 2);
    assert(without_suffix(remote, "/"@) == remote);
    assert(without_suffix(remote, ".git"@) == remote);
    assert(without_suffix(first, "/"@) == first);
    assert(without_suffix(first, ".git"@) == remote);
    assert(without_suffix(second, "/"@) == remote);
    assert(without_suffix(third, "/"@) == first);
}

proof fn lemma_trim_start_shortens(text: Seq<char>)
    requires
        text.len() > 0,
        is_space(text[0]),
    ensures
        trimmed(text).len() < text.len(),
{
    lemma_trim_start_is_no_longer(text.drop_first());
    lemma_trim_end_keeps(trim_start_spec(text));
}

proof fn lemma_trim_start_is_no_longer(text: Seq<char>)
    ensures
        trim_start_spec(text).len() <= text.len(),
    decreases text.len(),
{
    if text.len() > 0 && is_space(text[0]) {
        lemma_trim_start_is_no_longer(text.drop_first());
    }
}

/// The identifier of a project names its host from the last part on, and then its path: each
/// name that gives a part of an identifier, and those alone, with dots between them.
pub proof fn lemma_remote_identifier_names_parts(
    remote: Seq<char>,
    host: Seq<Seq<char>>,
    path: Seq<Seq<char>>,
)
    requires
        host.len() > 0,
        path.len() > 0,
        forall|i: int| 0 <= i < host.len() ==> !(#[trigger] host[i]).contains('.'),
        forall|i: int| 0 <= i < path.len() ==> !(#[trigger] path[i]).contains('/'),
        remote_location(remote) == Some((joined(host, "."@), joined(path, "/"@))),
        forall|i: int| 0 <= i < host.len() ==> is_identifier_part(#[trigger] host[i]),
        forall|i: int| 0 <= i < path.len() ==> is_identifier_part(#[trigger] path[i]),
    ensures
        remote_identifier(remote) == Some(joined(host.reverse() + path, "."@)),
{
    reveal_strlit(".");
    reveal_strlit("/");
    assert("."@ == seq!['.']);
    assert("/"@ == seq!['/']);
    lemma_split_undoes_join(host, '.');
    lemma_split_undoes_join(path, '/');
    let names = host.reverse() + path;
    assert forall|i: int| 0 <= i < names.len() implies is_identifier_part(#[trigger] names[i]) by {
        if i < host.len() {
            assert(names[i] == host[host.len() - 1 - i]);
        } else {
            assert(names[i] == path[i - host.len()]);
        }
    }
    lemma_parts_of_names(names);
}

/// Whether a text is a part of an identifier as it is: ASCII letters in lower case and digits.
pub open spec fn is_identifier_part(text: Seq<char>) -> bool {
    &&& text.len() > 0
    &&& lowercased(text) == text
    &&& forall|i: int|
        0 <= i < text.len() ==> {
            let character = #[trigger] text[i];
            '0' <= character <= '9' || 'a' <= character <= 'z'
        }
}

proof fn lemma_parts_of_names(names: Seq<Seq<char>>)
    requires
        forall|i: int| 0 <= i < names.len() ==> is_identifier_part(#[trigger] names[i]),
    ensures
        identifier_parts(names) == names,
    decreases names.len(),
{
    if names.len() > 0 {
        let before = names.drop_last();
        assert forall|i: int| 0 <= i < before.len() implies is_identifier_part(
            #[trigger] before[i],
        ) by {
            assert(is_identifier_part(names[i]));
        }
        lemma_parts_of_names(before);
        let last = names[names.len() - 1];
        assert(is_identifier_part(last));
        lemma_identifier_of_words(seq![last], last);
    }
}

/// A part of an identifier has the runs of letters and digits of a name in lower case, with
/// one hyphen between them, whatever stands between them in the name.
proof fn lemma_identifier_of_words(words: Seq<Seq<char>>, name: Seq<char>)
    requires
        words.len() == 1,
        name == words[0],
        is_identifier_part(words[0]),
    ensures
        identifier_part(name) == name,
{
    let breaks = breaks_identifier();
    assert forall|i: int| 0 <= i < name.len() implies !breaks(#[trigger] name[i]) by {}
    lemma_one_piece(name, breaks);
    reveal_with_fuel(Seq::filter, 2);
    assert(seq![name].drop_last() == Seq::<Seq<char>>::empty());
    assert(seq![name].filter(is_nonempty()) == seq![name]);
    assert(joined(seq![name], "-"@) == name);
}

/// Two names with something between them that is no letter and no digit give one part with
/// a hyphen between theirs.
pub proof fn lemma_breaks_become_hyphens(first: Seq<char>, gap: char, second: Seq<char>)
    requires
        is_identifier_part(first),
        is_identifier_part(second),
        !ascii_alphanumeric(gap),
        lowercased(first + seq![gap] + second) == first + seq![gap] + second,
    ensures
        identifier_part(first + seq![gap] + second) == first + "-"@ + second,
        identifier_part(first) == first,
{
    lemma_identifier_of_words(seq![first], first);
    let breaks = breaks_identifier();
    assert forall|i: int| 0 <= i < first.len() implies !breaks(#[trigger] first[i]) by {}
    assert forall|i: int| 0 <= i < second.len() implies !breaks(#[trigger] second[i]) by {}
    lemma_one_piece(first, breaks);
    lemma_one_piece(second, breaks);
    lemma_split_at_separator(first, gap, second, breaks);
    reveal_with_fuel(Seq::filter, 3);
    let both = seq![first] + seq![second];
    assert(both == seq![first, second]);
    assert(both.drop_last() == seq![first]);
    assert(seq![first].drop_last() == Seq::<Seq<char>>::empty());
    assert(both.filter(is_nonempty()) == seq![first, second]);
    assert(joined(seq![first], "-"@) == first);
    assert(joined(seq![first, second], "-"@) == first + "-"@ + second) by {
        assert(seq![first, second].drop_last() == seq![first]);
    }
}

/// A verbatim path is shown without its marks, one on the network with the two backslashes
/// that such a path begins with; any other path is shown as it is.
pub proof fn lemma_paths_are_shown_without_marks(path: Seq<char>)
    ensures
        shown_path("\\\\?\\UNC\\"@ + path) == "\\\\"@ + path,
        !has_prefix(path, "UNC\\"@) ==> shown_path("\\\\?\\"@ + path) == path,
        !has_prefix(path, "\\\\?\\"@) ==> shown_path(path) == path,
{
    reveal_strlit("\\\\?\\UNC\\");
    reveal_strlit("\\\\?\\");
    reveal_strlit("UNC\\");
    let network = "\\\\?\\UNC\\"@ + path;
    assert(network.take("\\\\?\\UNC\\"@.len() as int) == "\\\\?\\UNC\\"@);
    assert(network.skip("\\\\?\\UNC\\"@.len() as int) == path);
    let verbatim = "\\\\?\\"@ + path;
    assert(verbatim.take("\\\\?\\"@.len() as int) == "\\\\?\\"@);
    assert(verbatim.skip("\\\\?\\"@.len() as int) == path);
    if has_prefix(verbatim, "\\\\?\\UNC\\"@) {
        assert forall|i: int| 0 <= i < 4 implies path[i] == "UNC\\"@[i] by {
            assert(verbatim[i + 4] == verbatim.take("\\\\?\\UNC\\"@.len() as int)[i + 4]);
        }
        assert(path.take(4) =~= "UNC\\"@);
    }
    if has_prefix(path, "\\\\?\\UNC\\"@) {
        assert(path.take(4) =~= "\\\\?\\"@) by {
            assert forall|i: int| 0 <= i < 4 implies path[i] == "\\\\?\\"@[i] by {
                assert(path[i] == path.take("\\\\?\\UNC\\"@.len() as int)[i]);
            }
        }
    }
}

/// A source that is added takes the place of the first blank one: all before it say
/// something.
pub proof fn lemma_first_blank_is_the_first(texts: Seq<Seq<char>>)
    ensures
        0 <= first_blank(texts) <= texts.len(),
        forall|i: int| 0 <= i < first_blank(texts) ==> trimmed(#[trigger] texts[i]).len() > 0,
        first_blank(texts) < texts.len() ==> trimmed(texts[first_blank(texts)]).len() == 0,
    decreases texts.len(),
{
    if texts.len() > 0 && trimmed(texts[0]).len() > 0 {
        let rest = texts.drop_first();
        lemma_first_blank_is_the_first(rest);
        assert forall|i: int| 0 <= i < first_blank(texts) implies trimmed(
            #[trigger] texts[i],
        ).len() > 0 by {
            if i > 0 {
                assert(rest[i - 1] == texts[i]);
            }
        }
        if first_blank(texts) < texts.len() {
            assert(rest[first_blank(rest)] == texts[first_blank(texts)]);
        }
    }
}

/// The sources of a project are those that are not blank, in their order and without the
/// white space around them.
pub proof fn lemma_blank_sources_are_left_out(texts: Seq<Seq<char>>)
    ensures
        trimmed_nonblank(texts) == texts.filter(
            |text: Seq<char>| trimmed(text).len() > 0,
        ).map_values(|text: Seq<char>| trimmed(text)),
    decreases texts.len(),
{
    reveal(Seq::filter);
    let test = |text: Seq<char>| trimmed(text).len() > 0;
    let trim = |text: Seq<char>| trimmed(text);
    if texts.len() > 0 {
        lemma_blank_sources_are_left_out(texts.drop_last());
        let kept = texts.drop_last().filter(test);
        if test(texts.last()) {
            assert(kept.push(texts.last()).map_values(trim) == kept.map_values(trim).push(
                trim(texts.last()),
            ));
        }
    } else {
        assert(texts.filter(test).map_values(trim) == Seq::<Seq<char>>::empty());
    }
}

/// Whether a line begins a section of a repository's configuration.
pub open spec fn begins_section(line: Seq<char>) -> bool {
    trimmed(line).len() > 0 && trimmed(line)[0] == '['
}

/// Whether a line gives the address of a remote repository.
pub open spec fn gives_address(line: Seq<char>, address: Seq<char>) -> bool {
    exists|key: Seq<char>, value: Seq<char>|
        #[trigger] (key + "="@ + value) == trimmed(line) && !key.contains('=') && lowered(
            trimmed(key),
        ) == lowered("url"@) && trimmed(value) == address
}

/// The address of `origin` is the first one in its section: between the line that begins it
/// and the line with the address there is no other section and no other address, and before
/// it the sections are those of others.
pub proof fn lemma_origin_is_in_its_section(
    lines: Seq<Seq<char>>,
    from: int,
    section: int,
    place: int,
    address: Seq<char>,
)
    requires
        0 <= from <= section < place < lines.len(),
        forall|i: int|
            from <= i < section && begins_section(#[trigger] lines[i]) ==> lowered(
                trimmed(lines[i]),
            ) != lowered("[remote \"origin\"]"@),
        lowered(trimmed(lines[section])) == lowered("[remote \"origin\"]"@),
        begins_section(lines[section]),
        forall|i: int| section < i < place ==> !begins_section(#[trigger] lines[i]),
        forall|i: int, other: Seq<char>|
            section < i < place ==> !#[trigger] gives_address(lines[i], other),
        !begins_section(lines[place]),
        gives_address(lines[place], address),
    ensures
        origin_in(lines, from, false) == Some(address),
    decreases section - from,
{
    if from < section {
        lemma_origin_is_in_its_section(lines, from + 1, section, place, address);
    } else {
        lemma_address_in_section(lines, section + 1, place, address);
    }
}

proof fn lemma_address_in_section(
    lines: Seq<Seq<char>>,
    from: int,
    place: int,
    address: Seq<char>,
)
    requires
        0 <= from <= place < lines.len(),
        forall|i: int| from <= i < place ==> !begins_section(#[trigger] lines[i]),
        forall|i: int, other: Seq<char>|
            from <= i < place ==> !#[trigger] gives_address(lines[i], other),
        !begins_section(lines[place]),
        gives_address(lines[place], address),
    ensures
        origin_in(lines, from, true) == Some(address),
    decreases place - from,
{
    reveal_strlit("=");
    let line = trimmed(lines[from]);
    assert(!begins_section(lines[from]));
    if from == place {
        let (key, value) = choose|key: Seq<char>, value: Seq<char>|
            #[trigger] (key + "="@ + value) == line && !key.contains('=') && lowered(trimmed(key))
                == lowered("url"@) && trimmed(value) == address;
        lemma_key_of_line(key, value);
    } else {
        match split_once_spec(line, "="@) {
            Some((key, value)) => {
                lemma_line_of_key(line, key, value);
                if lowered(trimmed(key)) == lowered("url"@) {
                    assert(key + "="@ + value == line);
                    assert(gives_address(lines[from], trimmed(value)));
                }
            },
            None => {},
        }
        lemma_address_in_section(lines, from + 1, place, address);
    }
}

proof fn lemma_key_of_line(key: Seq<char>, value: Seq<char>)
    requires
        !key.contains('='),
    ensures
        split_once_spec(key + "="@ + value, "="@) == Some((key, value)),
{
    reveal_strlit("=");
    let line = key + "="@ + value;
    assert forall|place: int| 0 <= place < key.len() implies !occurs_at(line, "="@, place) by {
        assert(line[place] == key[place]);
        assert(key.contains(key[place]));
        lemma_no_occurrence(line, "="@, place, 0);
    }
    lemma_split_once_is(key, "="@, value);
}

proof fn lemma_line_of_key(line: Seq<char>, key: Seq<char>, value: Seq<char>)
    requires
        split_once_spec(line, "="@) == Some((key, value)),
    ensures
        line == key + "="@ + value,
        !key.contains('='),
{
    reveal_strlit("=");
    let part = "="@;
    assert(part == seq!['=']);
    lemma_found_occurrence(line, part, 0);
    let position = first_occurrence(line, part, 0)->0;
    assert(line.subrange(position, position + 1) == part);
    assert(line[position] == line.subrange(position, position + 1)[0]);
    assert(line == key + part + value);
    if key.contains('=') {
        let place = choose|i: int| 0 <= i < key.len() && key[i] == '=';
        assert(line[place] == '=');
        assert(line.subrange(place, place + 1) =~= part);
        assert(occurs_at(line, part, place));
    }
}

proof fn lemma_found_occurrence(text: Seq<char>, part: Seq<char>, from: int)
    requires
        0 <= from,
        first_occurrence(text, part, from) is Some,
    ensures
        occurs_at(text, part, first_occurrence(text, part, from)->0),
        forall|place: int|
            from <= place < first_occurrence(text, part, from)->0 ==> !occurs_at(text, part, place),
        from <= first_occurrence(text, part, from)->0,
    decreases text.len() + 1 - from,
{
    if !occurs_at(text, part, from) && from + part.len() <= text.len() {
        lemma_found_occurrence(text, part, from + 1);
    }
}

/// Without a section of `origin` there is no address.
pub proof fn lemma_no_origin_without_its_section(lines: Seq<Seq<char>>, from: int)
    requires
        0 <= from,
        forall|i: int|
            from <= i < lines.len() && begins_section(#[trigger] lines[i]) ==> lowered(
                trimmed(lines[i]),
            ) != lowered("[remote \"origin\"]"@),
    ensures
        origin_in(lines, from, false) is None,
    decreases lines.len() - from,
{
    if from < lines.len() {
        assert(begins_section(lines[from]) ==> lowered(trimmed(lines[from])) != lowered(
            "[remote \"origin\"]"@,
        ));
        lemma_no_origin_without_its_section(lines, from + 1);
    }
}

/// A manifest can be used where its version is the first one and it has an identifier, a name
/// and a source, and only there.
pub proof fn lemma_usable_manifests(config: ProjectConfig, manifest: Seq<char>)
    ensures
        manifest_fault(config, manifest) is None <==> config.version == 1 && trimmed(config.id@).len()
            > 0 && trimmed(config.name@).len() > 0 && config.sources@.len() > 0,
{
}

}
