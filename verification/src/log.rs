//! Reading the output of the shell commands and the decisions taken on it:
//! which version to record, whether the log already has an entry, which record
//! of the log is the last one, and which commands remove the last lines.

use vstd::prelude::*;
use vstd::utf8::{valid_utf8, decode_utf8};
use vstd::string::*;
use crate::error::Failure;
use crate::text::{
    trimmed, trim, parsed_i32, parse_i32, integer_text, law_i32_text_parses_back, is_white_space,
    law_trim_cuts_only_white_space,
};
use crate::commands::{
    search_command_text, search_command, version_command_text, version_command,
    remove_line_command_text, remove_line_command,
};

verus! {

/// `std::str::from_utf8(bytes).ok()`. Its documentation: the result is `Ok`
/// exactly when `bytes` is valid UTF-8, and the `str` is then made of these bytes.
#[verifier::external_body]
fn str_from_utf8(bytes: &[u8]) -> (r: Option<&str>)
    ensures
        r is Some <==> valid_utf8(bytes@),
        r matches Some(s) ==> s.spec_bytes() == bytes@,
{
    std::str::from_utf8(bytes).ok()
}

/// The text that a command printed, decoded as UTF-8 and trimmed.
pub open spec fn output_text(stdout: Seq<u8>) -> Seq<char> {
    trimmed(decode_utf8(stdout))
}

/// What a command printed, as the tool reads it: `None` where the bytes are not
/// UTF-8 (there the tool stops), otherwise the text with surrounding white space removed.
pub fn decode_output(stdout: &[u8]) -> (r: Option<String>)
    ensures
        r is Some <==> valid_utf8(stdout@),
        r matches Some(t) ==> t@ == output_text(stdout@),
{
    match str_from_utf8(stdout) {
        Some(s) => {
            proof {
                broadcast use vstd::utf8::encode_utf8_decode_utf8;
                assert(decode_utf8(s.spec_bytes()) == s@);
            }
            Some(trim(s))
        },
        None => None,
    }
}

/// Where the version to record comes from.
pub enum VersionSource {
    /// The version given on the command line.
    Given(String),
    /// Run this command and record what it prints.
    Command(String),
}

/// The version to record: the given one where it is not empty, otherwise what
/// the command that reads `package.json` under `repo` prints.
pub fn version_source(version: &str, repo: &str) -> (r: VersionSource)
    ensures
        version@.len() > 0 ==> (r matches VersionSource::Given(v) && v@ == version@),
        version@.len() == 0 ==> (r matches VersionSource::Command(c) && c@
            == version_command_text(repo@)),
{
    if !version.is_empty() {
        VersionSource::Given(version.to_owned())
    } else {
        VersionSource::Command(version_command(repo))
    }
}

/// How to learn whether the log has an entry for a value.
pub enum EntryCheck {
    /// The answer is known without looking at the log.
    Known(bool),
    /// Run this command; the log has an entry exactly when it prints something.
    Search(String),
}

/// The check for an entry of `version` (column 1 of the log). An empty
/// version has no entry.
pub fn version_check(repo: &str, version: &str) -> (r: EntryCheck)
    ensures
        version@.len() == 0 ==> r matches EntryCheck::Known(false),
        version@.len() > 0 ==> (r matches EntryCheck::Search(c) && c@ == search_command_text(
            "1"@,
            version@,
            repo@,
        )),
{
    if !version.is_empty() {
        EntryCheck::Search(search_command("1", version, repo))
    } else {
        EntryCheck::Known(false)
    }
}

/// The check for an entry of `date` (column 2 of the log). An empty date
/// counts as one that has an entry.
pub fn date_check(repo: &str, date: &str) -> (r: EntryCheck)
    ensures
        date@.len() == 0 ==> r matches EntryCheck::Known(true),
        date@.len() > 0 ==> (r matches EntryCheck::Search(c) && c@ == search_command_text(
            "2"@,
            date@,
            repo@,
        )),
{
    if !date.is_empty() {
        EntryCheck::Search(search_command("2", date, repo))
    } else {
        EntryCheck::Known(true)
    }
}

/// Whether a search printed a matching record: `None` where its output is not UTF-8.
pub fn entry_found(stdout: &[u8]) -> (r: Option<bool>)
    ensures
        r is Some <==> valid_utf8(stdout@),
        r matches Some(found) ==> found == (output_text(stdout@).len() > 0),
{
    match decode_output(stdout) {
        Some(t) => Some(!t.as_str().is_empty()),
        None => None,
    }
}

/// The index of the record that the tool reads as the last entry: the record
/// count that `xsv count` printed, minus two.
pub open spec fn last_record_index_spec(stdout: Seq<u8>) -> Result<i32, Failure> {
    if !valid_utf8(stdout) {
        Err(Failure::OutputNotUtf8)
    } else {
        match parsed_i32(output_text(stdout)) {
            None => Err(Failure::RecordCountNotANumber),
            Some(n) => if n - 2 >= i32::MIN {
                Ok((n - 2) as i32)
            } else {
                Err(Failure::RecordIndexOverflow)
            },
        }
    }
}

/// See [`last_record_index_spec`].
pub fn last_record_index(stdout: &[u8]) -> (r: Result<i32, Failure>)
    ensures
        r == last_record_index_spec(stdout@),
{
    match decode_output(stdout) {
        None => Err(Failure::OutputNotUtf8),
        Some(t) => match parse_i32(t.as_str()) {
            None => Err(Failure::RecordCountNotANumber),
            Some(n) => match n.checked_sub(2) {
                Some(i) => Ok(i),
                None => Err(Failure::RecordIndexOverflow),
            },
        },
    }
}

/// The commands that remove the last lines of the log: none in a dry run,
/// otherwise the same `sed` command twice.
pub fn line_removals(repo: &str, dry_run: bool) -> (r: Vec<String>)
    ensures
        dry_run ==> r@.len() == 0,
        !dry_run ==> r@.len() == 2 && r@[0]@ == remove_line_command_text(repo@) && r@[1]@
            == remove_line_command_text(repo@),
{
    let mut r: Vec<String> = Vec::new();
    if dry_run {
        return r;
    }
    r.push(remove_line_command(repo));
    r.push(remove_line_command(repo));
    r
}

/// Law: the last entry is the record two before the record count. Where the
/// count command printed (around white space) an `i32` `n` with `n - 2` in
/// range, the index is `n - 2`; where it printed no `i32`, there is no index.
pub proof fn law_last_record_is_two_before_the_count(stdout: Seq<u8>)
    requires
        valid_utf8(stdout),
    ensures
        forall|n: i32|
            parsed_i32(output_text(stdout)) == Some(n) && n >= i32::MIN + 2 ==> last_record_index_spec(
                stdout,
            ) == Ok::<i32, Failure>((n - 2) as i32),
        parsed_i32(output_text(stdout)) is None ==> last_record_index_spec(stdout) == Err::<
            i32,
            Failure,
        >(Failure::RecordCountNotANumber),
{
}

/// Law: where the count command printed the decimal text of `n` (at least
/// `i32::MIN + 2`), the index of the last entry is `n - 2`.
pub proof fn law_printed_count_gives_index(stdout: Seq<u8>, n: i32)
    requires
        valid_utf8(stdout),
        output_text(stdout) == integer_text(n as int),
        n >= i32::MIN + 2,
    ensures
        last_record_index_spec(stdout) == Ok::<i32, Failure>((n - 2) as i32),
{
    law_i32_text_parses_back(n);
}

/// Law: a search found an entry exactly when it printed something other than
/// white space.
pub proof fn law_search_found_what_it_printed(stdout: Seq<u8>)
    requires
        valid_utf8(stdout),
    ensures
        output_text(stdout).len() > 0 <==> exists|i: int|
            0 <= i < decode_utf8(stdout).len() && !is_white_space(#[trigger] decode_utf8(stdout)[i]),
{
    let s = decode_utf8(stdout);
    law_trim_cuts_only_white_space(s);
    let (a, b) = choose|a: int, b: int|
        0 <= a <= b <= s.len() && #[trigger] trimmed(s) == s.subrange(a, b) && (forall|i: int|
            0 <= i < a ==> is_white_space(#[trigger] s[i])) && (forall|i: int|
            b <= i < s.len() ==> is_white_space(#[trigger] s[i]));
    if trimmed(s).len() > 0 {
        assert(s[a] == trimmed(s)[0]);
        assert(!is_white_space(s[a]));
    } else {
        assert forall|i: int| 0 <= i < s.len() implies is_white_space(#[trigger] s[i]) by {
            if i < a {
            } else {
                assert(b <= i);
            }
        }
    }
}

} // verus!
