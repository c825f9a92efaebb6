//! Updating: which release is newer, and whether what was downloaded is it.
use semver::Version;
use sha2::{Digest, Sha256};
use vstd::prelude::*;

use crate::json::option_view;
use crate::natural::Comparison;
use crate::numeral::{all_digits, digits_value, parse_i64, split_sign};
use crate::text::{
    chars_of, has_prefix, lowered, owned, same, same_ignoring_case, strip_prefix, text_between,
    views,
};

verus! {

/// The release asset that holds the viewer.
pub const VIEWER_ASSET: &'static str = "dee-bugee.exe";

/// The release asset that holds the updater.
pub const UPDATER_ASSET: &'static str = "dee-bugee-updater.exe";

/// The major, minor and patch numbers that a version text gives, or what is wrong
/// with a text that is no version.
pub uninterp spec fn version_reading(text: Seq<char>) -> Result<(nat, nat, nat), Seq<char>>;

/// How one version stands to another.
pub uninterp spec fn version_order(left: Seq<char>, right: Seq<char>) -> Comparison;

/// `Version::parse`: the numbers of a version, or the text of the error where the
/// text is no version. Which texts are versions is left to the name.
#[verifier::external_body]
fn read_version(text: &str) -> (result: Result<(u64, u64, u64), String>)
    ensures
        match result {
            Ok((major, minor, patch)) => version_reading(text@) == Ok::<
                (nat, nat, nat),
                Seq<char>,
            >((major as nat, minor as nat, patch as nat)),
            Err(message) => version_reading(text@) == Err::<(nat, nat, nat), Seq<char>>(message@),
        },
{
    match Version::parse(text) {
        Ok(version) => Ok((version.major, version.minor, version.patch)),
        Err(error) => Err(error.to_string()),
    }
}

/// Whether one version's numbers come before another's.
pub open spec fn numbers_before(left: (nat, nat, nat), right: (nat, nat, nat)) -> bool {
    ||| left.0 < right.0
    ||| left.0 == right.0 && left.1 < right.1
    ||| left.0 == right.0 && left.1 == right.1 && left.2 < right.2
}

/// `Version`'s order: first by the major, then by the minor, then by the patch
/// number. How versions with the same numbers stand to each other is left to the
/// name; equal texts are equal versions.
#[verifier::external_body]
fn compare_versions(left: &str, right: &str) -> (result: Comparison)
    requires
        version_reading(left@) is Ok,
        version_reading(right@) is Ok,
    ensures
        result == version_order(left@, right@),
        numbers_before(version_reading(left@)->Ok_0, version_reading(right@)->Ok_0) ==> result
            == Comparison::Less,
        numbers_before(version_reading(right@)->Ok_0, version_reading(left@)->Ok_0) ==> result
            == Comparison::Greater,
        left@ == right@ ==> result == Comparison::Equal,
{
    match Version::parse(left).unwrap().cmp(&Version::parse(right).unwrap()) {
        std::cmp::Ordering::Less => Comparison::Less,
        std::cmp::Ordering::Equal => Comparison::Equal,
        std::cmp::Ordering::Greater => Comparison::Greater,
    }
}

/// The SHA-256 digest of bytes, in lower-case hexadecimal digits.
pub uninterp spec fn sha256_text(bytes: Seq<u8>) -> Seq<char>;

/// `Sha256::digest`: the digest of bytes, written in hexadecimal digits, under
/// the name.
#[verifier::external_body]
fn sha256_hex(bytes: &[u8]) -> (result: String)
    ensures
        result@ == sha256_text(bytes@),
{
    format!("{:x}", Sha256::digest(bytes))
}

/// `str`'s `Debug`: the text between double quotes, with what has to be escaped
/// escaped.
pub uninterp spec fn debug_text(text: Seq<char>) -> Seq<char>;

/// `str`'s `Debug`: the text as a string literal, under the name.
#[verifier::external_body]
fn quote_debug(text: &str) -> (result: String)
    ensures
        result@ == debug_text(text@),
{
    format!("{:?}", text)
}

/// A text without the letters `v` at its start.
pub open spec fn without_v(text: Seq<char>) -> Seq<char>
    decreases text.len(),
{
    if text.len() > 0 && text[0] == 'v' {
        without_v(text.drop_first())
    } else {
        text
    }
}

/// The version that a release's tag names, in its text, or what is wrong with it.
pub open spec fn version_of_tag(tag: Seq<char>) -> Result<Seq<char>, Seq<char>> {
    match version_reading(without_v(tag)) {
        Ok(_) => Ok(without_v(tag)),
        Err(fault) => Err("Invalid release version "@ + debug_text(tag) + ": "@ + fault),
    }
}

/// The version that a release's tag names, in its text.
pub fn parse_version(value: &str) -> (result: Result<String, String>)
    ensures
        match result {
            Ok(version) => version_of_tag(value@) == Ok::<Seq<char>, Seq<char>>(version@),
            Err(message) => version_of_tag(value@) == Err::<Seq<char>, Seq<char>>(message@),
        },
{
    let characters = chars_of(value);
    let mut start: usize = 0;
    assert(value@.skip(0) == value@);
    while start < characters.len() && characters[start] == 'v'
        invariant
            start <= characters.len(),
            characters@ == value@,
            without_v(value@.skip(start as int)) == without_v(value@),
        decreases characters.len() - start,
    {
        assert(value@.skip(start as int).drop_first() == value@.skip(start + 1));
        start += 1;
    }
    let version = text_between(characters.as_slice(), start, characters.len());
    assert(version@ == value@.skip(start as int));
    match read_version(version.as_str()) {
        Ok(_) => Ok(version),
        Err(fault) => {
            let mut message = owned("Invalid release version ");
            let shown = quote_debug(value);
            message.append(shown.as_str());
            message.append(": ");
            message.append(fault.as_str());
            Err(message)
        },
    }
}

/// A release that is newer than the running program.
#[derive(Debug, Clone, PartialEq, Eq)]
pub struct AvailableUpdate {
    pub version: String,
    pub tag_name: String,
}

/// What a look at the releases found.
#[derive(Debug, Clone, PartialEq, Eq)]
pub enum CheckResult {
    Current,
    Available(AvailableUpdate),
    Failed(String),
}

/// What the tag of the latest release says to the running version.
pub fn compare_release(tag_name: &str, running: &str) -> (result: CheckResult)
    ensures
        match version_of_tag(tag_name@) {
            Err(message) => result is Failed && result->Failed_0@ == message,
            Ok(available) => match version_of_tag(running@) {
                Err(message) => result is Failed && result->Failed_0@ == message,
                Ok(current) => if version_order(available, current) == Comparison::Greater {
                    result is Available && result->Available_0.version@ == available
                        && result->Available_0.tag_name@ == tag_name@
                } else {
                    result is Current
                },
            },
        },
{
    let available = match parse_version(tag_name) {
        Ok(version) => version,
        Err(message) => return CheckResult::Failed(message),
    };
    let current = match parse_version(running) {
        Ok(version) => version,
        Err(message) => return CheckResult::Failed(message),
    };
    match compare_versions(available.as_str(), current.as_str()) {
        Comparison::Greater => CheckResult::Available(
            AvailableUpdate { version: available, tag_name: owned(tag_name) },
        ),
        _ => CheckResult::Current,
    }
}

/// A file of a release.
#[derive(Debug, Clone)]
pub struct ReleaseAsset {
    pub name: String,
    pub browser_download_url: String,
    pub digest: Option<String>,
}

/// A release and its files.
#[derive(Debug)]
pub struct Release {
    pub tag_name: String,
    pub assets: Vec<ReleaseAsset>,
}

/// The files of a release with a name.
pub open spec fn assets_named(assets: Seq<ReleaseAsset>, name: Seq<char>) -> Seq<ReleaseAsset> {
    assets.filter(|asset: ReleaseAsset| asset.name@ == name)
}

impl Release {
    /// The one file of the release with a name.
    pub fn asset(&self, name: &str) -> (result: Result<&ReleaseAsset, String>)
        ensures
            ({
                let found = assets_named(self.assets@, name@);
                match result {
                    Ok(asset) => found == seq![*asset],
                    Err(message) => {
                        ||| found.len() == 0 && message@ == "Release "@ + self.tag_name@
                            + " does not contain "@ + name@
                        ||| found.len() > 1 && message@ == "Release "@ + self.tag_name@
                            + " contains more than one "@ + name@
                    },
                }
            }),
    {
        let ghost test = |asset: ReleaseAsset| asset.name@ == name@;
        let mut found: Option<usize> = None;
        let mut repeated = false;
        let mut index: usize = 0;
        assert(self.assets@.take(0) == Seq::<ReleaseAsset>::empty());
        proof {
            reveal_with_fuel(Seq::filter, 2);
        }
        while index < self.assets.len()
            invariant
                index <= self.assets.len(),
                test == (|asset: ReleaseAsset| asset.name@ == name@),
                match found {
                    Some(place) => {
                        &&& place < index
                        &&& if repeated {
                            self.assets@.take(index as int).filter(test).len() > 1
                        } else {
                            self.assets@.take(index as int).filter(test) == seq![
                                self.assets@[place as int],
                            ]
                        }
                    },
                    None => !repeated && self.assets@.take(index as int).filter(test).len() == 0,
                },
            decreases self.assets.len() - index,
        {
            let asset = &self.assets[index];
            proof {
                let shorter = self.assets@.take(index as int);
                assert(self.assets@.take(index + 1) == shorter.push(*asset));
                shorter.lemma_filter_push(*asset, test);
            }
            if same(asset.name.as_str(), name) {
                if found.is_some() {
                    repeated = true;
                } else {
                    found = Some(index);
                    assert(self.assets@.take(index + 1).filter(test) == seq![*asset]);
                }
            }
            index += 1;
        }
        assert(self.assets@.take(index as int) == self.assets@);
        let mut message = owned("Release ");
        message.append(self.tag_name.as_str());
        match found {
            Some(place) => if repeated {
                message.append(" contains more than one ");
                message.append(name);
                Err(message)
            } else {
                Ok(&self.assets[place])
            },
            None => {
                message.append(" does not contain ");
                message.append(name);
                Err(message)
            },
        }
    }
}

/// A hexadecimal digit.
pub open spec fn is_hex_digit(character: char) -> bool {
    ||| '0' <= character <= '9'
    ||| 'a' <= character <= 'f'
    ||| 'A' <= character <= 'F'
}

/// Whether a text is a SHA-256 digest: 64 hexadecimal digits.
pub open spec fn is_sha256(text: Seq<char>) -> bool {
    text.len() == 64 && forall|i: int| 0 <= i < text.len() ==> is_hex_digit(#[trigger] text[i])
}

/// The SHA-256 digest that a release gives of a file.
pub open spec fn expected_digest(asset: ReleaseAsset) -> Option<Seq<char>> {
    match asset.digest {
        Some(digest) => {
            let hash = digest@.skip("sha256:"@.len() as int);
            if has_prefix(digest@, "sha256:"@) && is_sha256(hash) {
                Some(hash)
            } else {
                None
            }
        },
        None => None,
    }
}

impl ReleaseAsset {
    /// The SHA-256 digest that the release gives of the file.
    pub fn expected_hash(&self) -> (result: Result<String, String>)
        ensures
            match expected_digest(*self) {
                Some(hash) => result is Ok && result->Ok_0@ == hash,
                None => result is Err && result->Err_0@ == "Release asset "@ + self.name@
                    + " has no valid SHA-256 digest"@,
            },
    {
        if let Some(digest) = &self.digest {
            if let Some(hash) = strip_prefix(digest.as_str(), "sha256:") {
                let characters = chars_of(hash.as_str());
                let mut index: usize = 0;
                while index < characters.len() && ((('0' <= characters[index]
                    && characters[index] <= '9') || ('a' <= characters[index] && characters[index]
                    <= 'f')) || ('A' <= characters[index] && characters[index] <= 'F'))
                    invariant
                        index <= characters.len(),
                        forall|i: int| 0 <= i < index ==> is_hex_digit(#[trigger] characters@[i]),
                    decreases characters.len() - index,
                {
                    index += 1;
                }
                if index == 64 && characters.len() == 64 {
                    return Ok(hash);
                }
                assert(!is_sha256(hash@)) by {
                    if is_sha256(hash@) && index < 64 {
                        assert(is_hex_digit(hash@[index as int]));
                    }
                }
            }
        }
        let mut message = owned("Release asset ");
        message.append(self.name.as_str());
        message.append(" has no valid SHA-256 digest");
        Err(message)
    }

    /// Checks that bytes are the content of the file.
    pub fn verify_content(&self, content: &[u8]) -> (result: Result<(), String>)
        ensures
            match expected_digest(*self) {
                None => result is Err && result->Err_0@ == "Release asset "@ + self.name@
                    + " has no valid SHA-256 digest"@,
                Some(hash) => if lowered(sha256_text(content@)) == lowered(hash) {
                    result is Ok
                } else {
                    result is Err && result->Err_0@ == "SHA-256 verification failed for "@
                        + self.name@
                },
            },
    {
        let expected = match self.expected_hash() {
            Ok(hash) => hash,
            Err(message) => return Err(message),
        };
        let actual = sha256_hex(content);
        if same_ignoring_case(actual.as_str(), expected.as_str()) {
            Ok(())
        } else {
            let mut message = owned("SHA-256 verification failed for ");
            message.append(self.name.as_str());
            Err(message)
        }
    }
}

/// What the updater is to do: wait for a process to end, replace two files, and
/// start the first again with arguments. Paths are texts.
#[derive(Debug, PartialEq, Eq)]
pub struct UpdateRequest {
    pub wait_pid: u32,
    pub target: String,
    pub updater_target: String,
    pub restart_arguments: Vec<String>,
}

/// What is known of an update.
#[verifier::ext_equal]
pub struct UpdateModel {
    pub wait_pid: Option<int>,
    pub target: Option<Seq<char>>,
    pub updater_target: Option<Seq<char>>,
    pub restart_arguments: Seq<Seq<char>>,
}

/// The 32-bit natural number that a text stands for: digits behind an optional
/// plus sign.
pub open spec fn u32_of(text: Seq<char>) -> Option<int> {
    let (negative, digits) = split_sign(text);
    if !negative && digits.len() > 0 && all_digits(digits) && digits_value(digits) <= u32::MAX {
        Some(digits_value(digits) as int)
    } else {
        None
    }
}

/// Whether an argument is an option of the updater, each of which has a value.
pub open spec fn is_update_option(argument: Seq<char>) -> bool {
    ||| argument == "--wait-pid"@
    ||| argument == "--target"@
    ||| argument == "--updater-target"@
    ||| argument == "--restart-arg"@
}

/// What an option says of an update, or what is wrong with its value.
pub open spec fn update_with(known: UpdateModel, option: Seq<char>, value: Seq<char>) -> Result<
    UpdateModel,
    Seq<char>,
> {
    if option == "--wait-pid"@ {
        match u32_of(value) {
            Some(process) => Ok(UpdateModel { wait_pid: Some(process), ..known }),
            None => Err("--wait-pid must be a process id"@),
        }
    } else if option == "--target"@ {
        Ok(UpdateModel { target: Some(value), ..known })
    } else if option == "--updater-target"@ {
        Ok(UpdateModel { updater_target: Some(value), ..known })
    } else {
        Ok(UpdateModel { restart_arguments: known.restart_arguments.push(value), ..known })
    }
}

/// What the options from a place on say of an update, or what is wrong with them.
pub open spec fn update_from(
    arguments: Seq<Seq<char>>,
    index: int,
    known: UpdateModel,
) -> Result<UpdateModel, Seq<char>>
    decreases arguments.len() - index,
{
    if index < 0 || index >= arguments.len() {
        Ok(known)
    } else if !is_update_option(arguments[index]) {
        Err("Unknown updater option: "@ + arguments[index])
    } else if index + 1 >= arguments.len() {
        Err(arguments[index] + " requires a value"@)
    } else {
        match update_with(known, arguments[index], arguments[index + 1]) {
            Ok(more) => update_from(arguments, index + 2, more),
            Err(message) => Err(message),
        }
    }
}

/// What the arguments of the updater say, or what is wrong with them.
pub open spec fn update_request(arguments: Seq<Seq<char>>) -> Result<UpdateModel, Seq<char>> {
    match update_from(
        arguments,
        0,
        UpdateModel {
            wait_pid: None,
            target: None,
            updater_target: None,
            restart_arguments: Seq::empty(),
        },
    ) {
        Err(message) => Err(message),
        Ok(known) => if known.wait_pid is None {
            Err("--wait-pid is required"@)
        } else if known.target is None {
            Err("--target is required"@)
        } else if known.updater_target is None {
            Err("--updater-target is required"@)
        } else {
            Ok(known)
        },
    }
}

/// The 32-bit natural number that a text stands for.
fn parse_u32(text: &str) -> (result: Option<u32>)
    ensures
        match result {
            Some(number) => u32_of(text@) == Some(number as int),
            None => u32_of(text@) is None,
        },
{
    let characters = chars_of(text);
    if characters.len() > 0 && characters[0] == '-' {
        return None;
    }
    match parse_i64(text) {
        Some(number) => if 0 <= number && number <= u32::MAX as i64 {
            Some(number as u32)
        } else {
            None
        },
        None => None,
    }
}

impl UpdateRequest {
    /// What the arguments of the updater ask for.
    pub fn parse(arguments: &Vec<String>) -> (result: Result<Self, String>)
        ensures
            match result {
                Ok(request) => update_request(views(arguments@)) == Ok::<UpdateModel, Seq<char>>(
                    UpdateModel {
                        wait_pid: Some(request.wait_pid as int),
                        target: Some(request.target@),
                        updater_target: Some(request.updater_target@),
                        restart_arguments: views(request.restart_arguments@),
                    },
                ),
                Err(message) => update_request(views(arguments@)) == Err::<
                    UpdateModel,
                    Seq<char>,
                >(message@),
            },
    {
        let ghost texts = views(arguments@);
        let mut wait_pid: Option<u32> = None;
        let mut target: Option<String> = None;
        let mut updater_target: Option<String> = None;
        let mut restart_arguments: Vec<String> = Vec::new();
        let ghost start = UpdateModel {
            wait_pid: None,
            target: None,
            updater_target: None,
            restart_arguments: Seq::empty(),
        };
        let ghost mut known = start;
        assert(views(restart_arguments@) == known.restart_arguments);
        let mut index: usize = 0;
        while index < arguments.len()
            invariant
                index <= arguments.len(),
                texts == views(arguments@),
                start == (UpdateModel {
                    wait_pid: None,
                    target: None,
                    updater_target: None,
                    restart_arguments: Seq::empty(),
                }),
                match wait_pid {
                    Some(process) => known.wait_pid == Some(process as int),
                    None => known.wait_pid is None,
                },
                known.target == option_view(target),
                known.updater_target == option_view(updater_target),
                known.restart_arguments == views(restart_arguments@),
                update_from(texts, index as int, known) == update_from(texts, 0, start),
            decreases arguments.len() - index,
        {
            let option = arguments[index].as_str();
            assert(texts[index as int] == option@);
            let process = same(option, "--wait-pid");
            let viewer = same(option, "--target");
            let updater = same(option, "--updater-target");
            let restart = same(option, "--restart-arg");
            if !(process || viewer || updater || restart) {
                let mut message = owned("Unknown updater option: ");
                message.append(option);
                return Err(message);
            }
            if index + 1 >= arguments.len() {
                let mut message = owned(option);
                message.append(" requires a value");
                return Err(message);
            }
            let value = arguments[index + 1].clone();
            assert(texts[index + 1] == value@);
            let ghost before = known;
            if process {
                match parse_u32(value.as_str()) {
                    Some(number) => {
                        wait_pid = Some(number);
                    },
                    None => return Err(owned("--wait-pid must be a process id")),
                }
            } else if viewer {
                target = Some(value);
            } else if updater {
                updater_target = Some(value);
            } else {
                restart_arguments.push(value);
                assert(views(restart_arguments@) == before.restart_arguments.push(value@));
            }
            proof {
                known = update_with(before, texts[index as int], texts[index + 1])->Ok_0;
            }
            index += 2;
        }
        let wait_pid: u32 = match wait_pid {
            Some(process) => process,
            None => return Err(owned("--wait-pid is required")),
        };
        let target = match target {
            Some(target) => target,
            None => return Err(owned("--target is required")),
        };
        let updater_target = match updater_target {
            Some(target) => target,
            None => return Err(owned("--updater-target is required")),
        };
        Ok(UpdateRequest { wait_pid, target, updater_target, restart_arguments })
    }
}

/// What is known of updates.
#[derive(Debug, Clone)]
pub enum UpdateState {
    Idle,
    Checking,
    Available(AvailableUpdate),
    Failed(String),
}

/// What is known of updates, and whether somebody asked.
pub struct UpdateMonitor {
    pub state: UpdateState,
    pub was_requested: bool,
}

impl UpdateMonitor {
    /// Updates are looked for at the start, without being asked for.
    pub fn new() -> (monitor: Self)
        ensures
            monitor.state is Checking,
            !monitor.was_requested,
    {
        UpdateMonitor { state: UpdateState::Checking, was_requested: false }
    }

    /// Asks for updates: whether they are to be looked for, which they are not
    /// while they are.
    pub fn begin_check(&mut self) -> (begins: bool)
        ensures
            begins == !(old(self).state is Checking),
            begins ==> final(self).state is Checking && final(self).was_requested,
            !begins ==> *final(self) == *old(self),
    {
        if let UpdateState::Checking = self.state {
            return false;
        }
        self.state = UpdateState::Checking;
        self.was_requested = true;
        true
    }

    /// Takes over what was found: what is told of it. That there is nothing new is
    /// told only to somebody who asked.
    pub fn receive(&mut self, result: CheckResult) -> (notice: Option<String>)
        ensures
            !final(self).was_requested,
            match result {
                CheckResult::Available(update) => final(self).state == UpdateState::Available(
                    update,
                ) && notice is None,
                CheckResult::Current => {
                    &&& final(self).state is Idle
                    &&& option_view(notice) == if old(self).was_requested {
                        Some("DeeBugee is up to date"@)
                    } else {
                        None
                    }
                },
                CheckResult::Failed(error) => final(self).state == UpdateState::Failed(error)
                    && notice is None,
            },
    {
        let requested = self.was_requested;
        self.was_requested = false;
        match result {
            CheckResult::Available(update) => {
                self.state = UpdateState::Available(update);
                None
            },
            CheckResult::Current => {
                self.state = UpdateState::Idle;
                if requested {
                    Some(owned("DeeBugee is up to date"))
                } else {
                    None
                }
            },
            CheckResult::Failed(error) => {
                self.state = UpdateState::Failed(error);
                None
            },
        }
    }

    /// Puts an update off.
    pub fn dismiss(&mut self)
        ensures
            final(self).state is Idle,
            final(self).was_requested == old(self).was_requested,
    {
        self.state = UpdateState::Idle;
    }
}

/// Letters `v` in front of a version do not count, however many they are; nothing else is
/// left out.
pub proof fn lemma_v_in_front_is_left_out(text: Seq<char>)
    ensures
        without_v(seq!['v'] + text) == without_v(text),
        text.len() == 0 || text[0] != 'v' ==> without_v(text) == text,
{
    assert((seq!['v'] + text).drop_first() == text);
}

/// The digest of a file is what follows `sha256:`, where that is 64 hexadecimal digits; no
/// other text gives one.
pub proof fn lemma_digest_is_marked(asset: ReleaseAsset, hash: Seq<char>)
    ensures
        expected_digest(asset) == Some(hash) <==> asset.digest is Some && asset.digest->0@
            == "sha256:"@ + hash && hash.len() == 64 && forall|i: int|
            0 <= i < 64 ==> {
                let digit = #[trigger] hash[i];
                '0' <= digit <= '9' || 'a' <= digit <= 'f' || 'A' <= digit <= 'F'
            },
{
    reveal_strlit("sha256:");
    if asset.digest is Some {
        let text = asset.digest->0@;
        let mark = "sha256:"@;
        if text == mark + hash {
            assert(text.take(mark.len() as int) == mark);
            assert(text.skip(mark.len() as int) == hash);
        }
        if expected_digest(asset) == Some(hash) {
            assert(text == mark + hash);
            assert forall|i: int| 0 <= i < 64 implies {
                let digit = #[trigger] hash[i];
                '0' <= digit <= '9' || 'a' <= digit <= 'f' || 'A' <= digit <= 'F'
            } by {
                assert(is_hex_digit(hash[i]));
            }
        }
        if hash.len() == 64 && forall|i: int|
            0 <= i < 64 ==> {
                let digit = #[trigger] hash[i];
                '0' <= digit <= '9' || 'a' <= digit <= 'f' || 'A' <= digit <= 'F'
            } {
            assert forall|i: int| 0 <= i < hash.len() implies is_hex_digit(#[trigger] hash[i]) by {}
        }
    }
}

proof fn lemma_options_in_parts(
    arguments: Seq<Seq<char>>,
    index: int,
    known: UpdateModel,
    option: Seq<char>,
    value: Seq<char>,
)
    requires
        0 <= index <= arguments.len(),
        update_from(arguments, index, known) is Ok,
        is_update_option(option),
    ensures
        update_from(arguments + seq![option, value], index, known) == update_with(
            update_from(arguments, index, known)->Ok_0,
            option,
            value,
        ),
    decreases arguments.len() - index,
{
    reveal_with_fuel(update_from, 2);
    let longer = arguments + seq![option, value];
    if index == arguments.len() {
        assert(longer[index] == option);
        assert(longer[index + 1] == value);
        match update_with(known, option, value) {
            Ok(more) => {
                assert(update_from(longer, index + 2, more) == Ok::<UpdateModel, Seq<char>>(more));
            },
            Err(_) => {},
        }
    } else {
        assert(longer[index] == arguments[index]);
        assert(longer[index + 1] == arguments[index + 1]);
        let more = update_with(known, arguments[index], arguments[index + 1])->Ok_0;
        lemma_options_in_parts(arguments, index + 2, more, option, value);
    }
}

/// Each option of the updater says one thing, and leaves what the others said: one more
/// `--target` or `--updater-target` replaces that file, one more `--wait-pid` that process,
/// and one more `--restart-arg` is put behind the arguments there are.
pub proof fn lemma_option_says_one_thing(
    arguments: Seq<Seq<char>>,
    known: UpdateModel,
    value: Seq<char>,
)
    requires
        update_request(arguments) == Ok::<UpdateModel, Seq<char>>(known),
    ensures
        update_request(arguments + seq!["--target"@, value]) == Ok::<UpdateModel, Seq<char>>(
            UpdateModel { target: Some(value), ..known },
        ),
        update_request(arguments + seq!["--updater-target"@, value]) == Ok::<
            UpdateModel,
            Seq<char>,
        >(UpdateModel { updater_target: Some(value), ..known }),
        update_request(arguments + seq!["--restart-arg"@, value]) == Ok::<UpdateModel, Seq<char>>(
            UpdateModel { restart_arguments: known.restart_arguments.push(value), ..known },
        ),
        value.len() > 0 && all_digits(value) && digits_value(value) <= u32::MAX ==> update_request(
            arguments + seq!["--wait-pid"@, value],
        ) == Ok::<UpdateModel, Seq<char>>(
            UpdateModel { wait_pid: Some(digits_value(value) as int), ..known },
        ),
{
    reveal_strlit("--target");
    reveal_strlit("--updater-target");
    reveal_strlit("--restart-arg");
    reveal_strlit("--wait-pid");
    assert("--target"@.len() == 8 && "--updater-target"@.len() == 16);
    assert("--restart-arg"@.len() == 13 && "--wait-pid"@.len() == 10);
    let start = UpdateModel {
        wait_pid: None,
        target: None,
        updater_target: None,
        restart_arguments: Seq::empty(),
    };
    lemma_options_in_parts(arguments, 0, start, "--target"@, value);
    lemma_options_in_parts(arguments, 0, start, "--updater-target"@, value);
    lemma_options_in_parts(arguments, 0, start, "--restart-arg"@, value);
    lemma_options_in_parts(arguments, 0, start, "--wait-pid"@, value);
    if value.len() > 0 && all_digits(value) {
        assert(crate::numeral::is_digit(value[0]));
        assert(split_sign(value) == (false, value));
    }
}

/// The updater can start with the process to wait for and the two files; it cannot do
/// without any of them.
pub proof fn lemma_updater_needs_three_options(
    process: Seq<char>,
    target: Seq<char>,
    updater: Seq<char>,
)
    requires
        process.len() > 0,
        all_digits(process),
        digits_value(process) <= u32::MAX,
    ensures
        update_request(
            seq!["--wait-pid"@, process, "--target"@, target, "--updater-target"@, updater],
        ) == Ok::<UpdateModel, Seq<char>>(
            UpdateModel {
                wait_pid: Some(digits_value(process) as int),
                target: Some(target),
                updater_target: Some(updater),
                restart_arguments: Seq::empty(),
            },
        ),
        update_request(seq!["--target"@, target, "--updater-target"@, updater]) is Err,
        update_request(seq!["--wait-pid"@, process, "--updater-target"@, updater]) is Err,
        update_request(seq!["--wait-pid"@, process, "--target"@, target]) is Err,
{
    reveal_with_fuel(update_from, 4);
    reveal_strlit("--target");
    reveal_strlit("--updater-target");
    reveal_strlit("--restart-arg");
    reveal_strlit("--wait-pid");
    assert("--target"@.len() == 8 && "--updater-target"@.len() == 16);
    assert("--restart-arg"@.len() == 13 && "--wait-pid"@.len() == 10);
    assert(crate::numeral::is_digit(process[0]));
    assert(split_sign(process) == (false, process));
}

/// The file of a release with a name has that name and is the only one that has it; where there
/// is none, or more than one, that is an error.
pub proof fn lemma_file_is_the_one_with_the_name(
    release: Release,
    name: &str,
    result: Result<&ReleaseAsset, String>,
)
    requires
        call_ensures(Release::asset, (&release, name), result),
    ensures
        result is Ok ==> (*result->Ok_0).name@ == name@ && release.assets@.contains(*result->Ok_0),
        (forall|i: int| 0 <= i < release.assets@.len() ==> (#[trigger] release.assets@[i]).name@
            != name@) ==> result is Err,
        result is Ok ==> forall|i: int|
            0 <= i < release.assets@.len() && (#[trigger] release.assets@[i]).name@ == name@
                ==> release.assets@[i] == *result->Ok_0,
{
    let test = |asset: ReleaseAsset| asset.name@ == name@;
    let assets = release.assets@;
    let found = assets_named(assets, name@);
    assert(found == assets.filter(test));
    if result is Ok {
        let asset = *result->Ok_0;
        assert(found[0] == asset);
        assert(found.contains(asset));
        assets.lemma_filter_pred(test, 0);
        assets.lemma_filter_contains_rev(test, asset);
        assert forall|i: int|
            0 <= i < assets.len() && (#[trigger] assets[i]).name@ == name@ implies assets[i]
            == asset by {
            assets.lemma_filter_contains(test, i);
        }
    }
}

}
