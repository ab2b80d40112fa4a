//! What the journal knows of a dump.

use vstd::prelude::*;
use vstd::string::*;
use vstd::utf8::*;

use crate::text::{
    is_white_space, lemma_trim_is_exact, text_of, texts, trim, trim_end, trim_start, utf8_str,
    utf8_text,
};

verus! {

/// What the journal says of a dump. Each part may be missing.
#[derive(Debug, Clone)]
pub struct JournalContext {
    pub executable_path: Option<String>,
    pub command_line: Option<String>,
    pub signal: Option<String>,
}

/// The model of a [`JournalContext`].
pub struct JournalModel {
    pub executable_path: Option<Seq<char>>,
    pub command_line: Option<Seq<char>>,
    pub signal: Option<Seq<char>>,
}

impl View for JournalContext {
    type V = JournalModel;

    open spec fn view(&self) -> JournalModel {
        JournalModel {
            executable_path: text_of(self.executable_path),
            command_line: text_of(self.command_line),
            signal: text_of(self.signal),
        }
    }
}

/// A journal that knows nothing.
pub open spec fn no_journal() -> JournalModel {
    JournalModel { executable_path: None, command_line: None, signal: None }
}

impl Default for JournalContext {
    fn default() -> (context: JournalContext)
        ensures
            context@ == no_journal(),
    {
        JournalContext { executable_path: None, command_line: None, signal: None }
    }
}

/// A field of the journal entry of a dump.
#[derive(Debug, Clone, Copy)]
pub enum JournalField {
    ExecutablePath,
    CommandLine,
    Signal,
}

/// The name of a field in the journal.
pub open spec fn journal_name(field: JournalField) -> Seq<char> {
    match field {
        JournalField::ExecutablePath => "COREDUMP_EXE"@,
        JournalField::CommandLine => "COREDUMP_CMDLINE"@,
        JournalField::Signal => "COREDUMP_SIGNAL_NAME"@,
    }
}

/// The arguments with which `journalctl` prints a field of the newest entry
/// about a dump, and nothing else.
pub open spec fn lookup_command(field: JournalField, shown_path: Seq<char>) -> Seq<Seq<char>> {
    seq![
        "--quiet"@,
        "--no-pager"@,
        "--lines=1"@,
        "--output=cat"@,
        "--output-fields="@ + journal_name(field),
        "COREDUMP_FILENAME="@ + shown_path,
    ]
}

/// The arguments with which `journalctl` looks a field of a dump up. The path
/// is given as it is shown.
pub fn lookup_arguments(field: JournalField, shown_path: &str) -> (arguments: Vec<String>)
    ensures
        texts(arguments@) == lookup_command(field, shown_path@),
{
    let name = match field {
        JournalField::ExecutablePath => "COREDUMP_EXE",
        JournalField::CommandLine => "COREDUMP_CMDLINE",
        JournalField::Signal => "COREDUMP_SIGNAL_NAME",
    };
    let mut fields = String::from_str("--output-fields=");
    fields.append(name);
    let mut filter = String::from_str("COREDUMP_FILENAME=");
    filter.append(shown_path);
    let mut arguments: Vec<String> = Vec::new();
    arguments.push(String::from_str("--quiet"));
    arguments.push(String::from_str("--no-pager"));
    arguments.push(String::from_str("--lines=1"));
    arguments.push(String::from_str("--output=cat"));
    arguments.push(fields);
    arguments.push(filter);
    assert(texts(arguments@) =~= lookup_command(field, shown_path@));
    arguments
}

/// What `journalctl` answered.
#[derive(Debug)]
pub struct Reply {
    pub success: bool,
    pub stdout: Vec<u8>,
}

/// The value in an answer: the output without the white space around it, if the
/// program ran and succeeded, and the output is UTF-8 and not blank.
pub open spec fn value_in(reply: Option<Reply>) -> Option<Seq<char>> {
    match reply {
        None => None,
        Some(reply) => if !reply.success {
            None
        } else {
            match utf8_text(reply.stdout@) {
                None => None,
                Some(text) => if trim_end(trim_start(text)).len() == 0 {
                    None
                } else {
                    Some(trim_end(trim_start(text)))
                },
            }
        },
    }
}

/// Reads the value in an answer; `None` stands for a program that did not run.
pub fn read_reply(reply: Option<Reply>) -> (value: Option<String>)
    ensures
        text_of(value) == value_in(reply),
{
    let reply = match reply {
        Some(reply) => reply,
        None => return None,
    };
    if !reply.success {
        return None;
    }
    match utf8_str(reply.stdout.as_slice()) {
        None => None,
        Some(text) => {
            let value = trim(text);
            if value.as_str().is_empty() {
                None
            } else {
                Some(value)
            }
        },
    }
}

/// The value in an answer is the text that `journalctl` printed, whatever white
/// space stands around it. A blank answer has no value.
pub proof fn lemma_answer(
    reply: Reply,
    before: Seq<char>,
    value: Seq<char>,
    behind: Seq<char>,
)
    requires
        reply.success,
        reply.stdout@ == encode_utf8(before + value + behind),
        forall|i: int| 0 <= i < before.len() ==> is_white_space(#[trigger] before[i]),
        forall|i: int| 0 <= i < behind.len() ==> is_white_space(#[trigger] behind[i]),
        value.len() > 0 ==> !is_white_space(value.first()) && !is_white_space(value.last()),
    ensures
        value_in(Some(reply)) == if value.len() > 0 {
            Some(value)
        } else {
            None
        },
{
    broadcast use {encode_utf8_decode_utf8, encode_utf8_valid_utf8};

    lemma_trim_is_exact(before, value, behind);
}

/// An answer without success, one that is no text, and none at all have no
/// value.
pub proof fn lemma_no_answer(reply: Reply)
    ensures
        value_in(None) is None,
        !reply.success ==> value_in(Some(reply)) is None,
        !valid_utf8(reply.stdout@) ==> value_in(Some(reply)) is None,
{
}

/// Each field and each dump is asked for in its own way.
pub proof fn lemma_questions_differ(
    one: JournalField,
    one_path: Seq<char>,
    other: JournalField,
    other_path: Seq<char>,
)
    requires
        lookup_command(one, one_path) == lookup_command(other, other_path),
    ensures
        one == other,
        one_path == other_path,
{
    let a = lookup_command(one, one_path);
    let b = lookup_command(other, other_path);
    reveal_strlit("COREDUMP_EXE");
    reveal_strlit("COREDUMP_CMDLINE");
    reveal_strlit("COREDUMP_SIGNAL_NAME");
    let fields = "--output-fields="@;
    let filter = "COREDUMP_FILENAME="@;
    assert(a[4] == b[4] && a[5] == b[5]);
    assert(a[4].skip(fields.len() as int) =~= journal_name(one));
    assert(b[4].skip(fields.len() as int) =~= journal_name(other));
    assert(journal_name(one).len() == journal_name(other).len());
    assert(a[5].skip(filter.len() as int) =~= one_path);
    assert(b[5].skip(filter.len() as int) =~= other_path);
}

/// Of the entries about the dump the newest is asked for the field, by the name
/// that it has in the journal.
pub proof fn lemma_what_is_asked(field: JournalField, shown_path: Seq<char>)
    ensures
        ({
            let arguments = lookup_command(field, shown_path);
            let asked = "--output-fields="@ + match field {
                JournalField::ExecutablePath => "COREDUMP_EXE"@,
                JournalField::CommandLine => "COREDUMP_CMDLINE"@,
                JournalField::Signal => "COREDUMP_SIGNAL_NAME"@,
            };
            &&& arguments.contains(asked)
            &&& arguments.contains("COREDUMP_FILENAME="@ + shown_path)
            &&& arguments.contains("--lines=1"@)
            &&& arguments.contains("--output=cat"@)
        }),
{
    let arguments = lookup_command(field, shown_path);
    assert(arguments[4] == "--output-fields="@ + journal_name(field));
    assert(arguments[5] == "COREDUMP_FILENAME="@ + shown_path);
    assert(arguments[2] == "--lines=1"@);
    assert(arguments[3] == "--output=cat"@);
}

} // verus!
