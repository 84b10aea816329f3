//! The shell commands that read and change the CSV log and count source files.
//!
//! Every function builds the exact text of one command; the commands themselves
//! are run by the caller.

use vstd::prelude::*;
use crate::text::{integer_text, i32_to_text};

verus! {

/// The log file under `repo`.
pub open spec fn log_path(repo: Seq<char>) -> Seq<char> {
    repo + "/TYPESCRIPT_EVOLUTION.csv"@
}

/// The command that prints the version field of `package.json` under `repo`.
pub open spec fn version_command_text(repo: Seq<char>) -> Seq<char> {
    r#"grep -Eo '\"version\": \"([\d.]*)\"' "#@ + repo + r#"/package.json | grep -Po '[\d\.]*'"#@
}

/// The command that prints the number of records of the log.
pub open spec fn record_count_command_text(repo: Seq<char>) -> Seq<char> {
    "xsv count "@ + log_path(repo)
}

/// The command that prints the record at `index` of the log, without the header.
pub open spec fn record_slice_command_text(repo: Seq<char>, index: int) -> Seq<char> {
    "xsv slice -i "@ + integer_text(index) + " -n "@ + log_path(repo)
}

/// The command that prints the records of the log whose column `column` matches `value`.
pub open spec fn search_command_text(column: Seq<char>, value: Seq<char>, repo: Seq<char>) -> Seq<char> {
    "xsv search -s "@ + column + " -n \""@ + value + "\" "@ + log_path(repo)
}

/// The command that deletes the last line of the log in place.
pub open spec fn remove_line_command_text(repo: Seq<char>) -> Seq<char> {
    "sed -i '$d' "@ + log_path(repo)
}

/// The command that prints how many files of one language lie under `folder`.
pub open spec fn file_count_command_text(
    name: Seq<char>,
    extensions: Seq<char>,
    repo: Seq<char>,
    folder: Seq<char>,
) -> Seq<char> {
    "rg --files --type-add '"@ + name + ":*{"@ + extensions + "}' -t"@ + name + " "@ + repo + "/"@
        + folder + " | wc -l"@
}

/// The command that appends `row` as a line to the log.
pub open spec fn append_row_command_text(row: Seq<char>, repo: Seq<char>) -> Seq<char> {
    "echo '"@ + row + "' >> "@ + log_path(repo)
}

/// See [`version_command_text`].
pub fn version_command(repo: &str) -> (r: String)
    ensures
        r@ == version_command_text(repo@),
{
    let mut c = String::new();
    c.append(r#"grep -Eo '\"version\": \"([\d.]*)\"' "#);
    c.append(repo);
    c.append(r#"/package.json | grep -Po '[\d\.]*'"#);
    assert(c@ =~= version_command_text(repo@));
    c
}

fn append_log_path(c: &mut String, repo: &str)
    ensures
        final(c)@ == old(c)@ + log_path(repo@),
{
    c.append(repo);
    c.append("/TYPESCRIPT_EVOLUTION.csv");
    assert(c@ =~= old(c)@ + log_path(repo@));
}

/// See [`record_count_command_text`].
pub fn record_count_command(repo: &str) -> (r: String)
    ensures
        r@ == record_count_command_text(repo@),
{
    let mut c = String::new();
    c.append("xsv count ");
    append_log_path(&mut c, repo);
    assert(c@ =~= record_count_command_text(repo@));
    c
}

/// See [`record_slice_command_text`].
pub fn record_slice_command(repo: &str, index: i32) -> (r: String)
    ensures
        r@ == record_slice_command_text(repo@, index as int),
{
    let mut c = String::new();
    c.append("xsv slice -i ");
    let number = i32_to_text(index);
    c.append(number.as_str());
    c.append(" -n ");
    append_log_path(&mut c, repo);
    assert(c@ =~= record_slice_command_text(repo@, index as int));
    c
}

/// See [`search_command_text`].
pub fn search_command(column: &str, value: &str, repo: &str) -> (r: String)
    ensures
        r@ == search_command_text(column@, value@, repo@),
{
    let mut c = String::new();
    c.append("xsv search -s ");
    c.append(column);
    c.append(" -n \"");
    c.append(value);
    c.append("\" ");
    append_log_path(&mut c, repo);
    assert(c@ =~= search_command_text(column@, value@, repo@));
    c
}

/// See [`remove_line_command_text`].
pub fn remove_line_command(repo: &str) -> (r: String)
    ensures
        r@ == remove_line_command_text(repo@),
{
    let mut c = String::new();
    c.append("sed -i '$d' ");
    append_log_path(&mut c, repo);
    assert(c@ =~= remove_line_command_text(repo@));
    c
}

/// See [`file_count_command_text`].
pub fn file_count_command(name: &str, extensions: &str, repo: &str, folder: &str) -> (r: String)
    ensures
        r@ == file_count_command_text(name@, extensions@, repo@, folder@),
{
    let mut c = String::new();
    c.append("rg --files --type-add '");
    c.append(name);
    c.append(":*{");
    c.append(extensions);
    c.append("}' -t");
    c.append(name);
    c.append(" ");
    c.append(repo);
    c.append("/");
    c.append(folder);
    c.append(" | wc -l");
    assert(c@ =~= file_count_command_text(name@, extensions@, repo@, folder@));
    c
}

/// See [`append_row_command_text`].
pub fn append_row_command(row: &str, repo: &str) -> (r: String)
    ensures
        r@ == append_row_command_text(row@, repo@),
{
    let mut c = String::new();
    c.append("echo '");
    c.append(row);
    c.append("' >> ");
    append_log_path(&mut c, repo);
    assert(c@ =~= append_row_command_text(row@, repo@));
    c
}

} // verus!
