//! The command that pins dumps.

use vstd::prelude::*;
use vstd::string::*;
use vstd::utf8::*;

use crate::dump::{parsed_path, CoredumpFile, DumpName, NameFault};
use crate::path::{
    byte_strings, components, has_directory, is_absolute, is_absolute_path, join_path, joined,
    lemma_joined_components, lemma_names_directory, names_directory,
};
use crate::retain::{dump_name_pinned_by, pinned_by};
use crate::text::{lemma_says, lemma_says_both, says, texts};

verus! {

/// The dump at a path. A marker is no dump.
pub open spec fn dump_at(path: Seq<u8>) -> Option<DumpName> {
    if pinned_by(path) is Some {
        None
    } else {
        match parsed_path(path) {
            Ok(dump) => Some(dump),
            Err(_) => None,
        }
    }
}

/// Whether the dump at a position is the most recent of the first `n`: none of
/// them has a later timestamp, and none before it has the same one.
pub open spec fn is_most_recent_of(paths: Seq<Seq<u8>>, n: int, i: int) -> bool {
    &&& 0 <= i < n
    &&& dump_at(paths[i]) is Some
    &&& forall|j: int|
        0 <= j < n && #[trigger] dump_at(paths[j]) is Some ==> {
            let here = dump_at(paths[i])->0.timestamp_micros;
            let there = dump_at(paths[j])->0.timestamp_micros;
            there < here || (there == here && i <= j)
        }
}

/// Whether the dump at a position is the most recent of all.
pub open spec fn is_most_recent(paths: Seq<Seq<u8>>, i: int) -> bool {
    is_most_recent_of(paths, paths.len() as int, i)
}

/// Reads the dump at a path, if one is there.
fn read_dump(path: &[u8]) -> (dump: Option<CoredumpFile>)
    ensures
        match dump {
            Some(d) => dump_at(path@) == Some(d@) && d.path@ == path@,
            None => dump_at(path@) is None,
        },
{
    if dump_name_pinned_by(path).is_some() {
        return None;
    }
    match CoredumpFile::from_path(path) {
        Ok(dump) => Some(dump),
        Err(_) => None,
    }
}

/// The path of the most recent dump among those in a directory.
pub fn find_most_recent(paths: &Vec<Vec<u8>>) -> (best: Option<Vec<u8>>)
    ensures
        match best {
            Some(path) => exists|i: int| #[trigger]
                is_most_recent(byte_strings(paths@), i) && paths@[i]@ == path@,
            None => forall|i: int| 0 <= i < paths@.len() ==> dump_at(#[trigger] paths@[i]@) is None,
        },
{
    let ghost all = byte_strings(paths@);
    let mut best: Option<CoredumpFile> = None;
    let ghost mut at: int = 0;
    let mut i: usize = 0;
    while i < paths.len()
        invariant
            all == byte_strings(paths@),
            i <= paths@.len(),
            best matches Some(b) ==> is_most_recent_of(all, i as int, at) && dump_at(all[at])
                == Some(b@) && b.path@ == all[at],
            best is None ==> forall|j: int| 0 <= j < i ==> dump_at(#[trigger] all[j]) is None,
        decreases paths@.len() - i,
    {
        assert(all[i as int] == paths@[i as int]@);
        if let Some(dump) = read_dump(paths[i].as_slice()) {
            let later = match &best {
                None => true,
                Some(b) => dump.timestamp_micros > b.timestamp_micros,
            };
            if later {
                proof {
                    at = i as int;
                }
                best = Some(dump);
            }
        }
        i = i + 1;
    }
    match best {
        Some(dump) => {
            assert(is_most_recent(all, at) && paths@[at]@ == dump.path@);
            Some(dump.path)
        },
        None => {
            assert forall|j: int| 0 <= j < paths@.len() implies dump_at(
                #[trigger] paths@[j]@,
            ) is None by {
                assert(all[j] == paths@[j]@);
            }
            None
        },
    }
}

/// There is only one most recent dump.
pub proof fn lemma_one_is_most_recent(paths: Seq<Seq<u8>>, i: int, j: int)
    requires
        is_most_recent(paths, i),
        is_most_recent(paths, j),
    ensures
        i == j,
{
    assert(dump_at(paths[i]) is Some && dump_at(paths[j]) is Some);
}

/// The path that an argument means: an absolute path is itself, a path with a
/// directory starts at the working directory if that is known, and a bare name
/// is one in the coredump directory.
pub open spec fn meant_path(
    arg: Seq<u8>,
    coredump_directory: Seq<u8>,
    working_directory: Option<Seq<u8>>,
) -> Seq<u8> {
    if is_absolute_path(arg) {
        arg
    } else if names_directory(arg) {
        match working_directory {
            Some(directory) => joined(directory, arg),
            None => arg,
        }
    } else {
        joined(coredump_directory, arg)
    }
}

/// The path that an argument means.
pub fn resolve_dump_path(
    arg: &str,
    coredump_directory: &str,
    working_directory: Option<Vec<u8>>,
) -> (path: Vec<u8>)
    ensures
        path@ == meant_path(
            encode_utf8(arg@),
            encode_utf8(coredump_directory@),
            match working_directory {
                Some(directory) => Some(directory@),
                None => None,
            },
        ),
{
    let bytes = arg.as_bytes_vec();
    if is_absolute(bytes.as_slice()) {
        bytes
    } else if has_directory(bytes.as_slice()) {
        match working_directory {
            Some(directory) => join_path(directory.as_slice(), bytes.as_slice()),
            None => bytes,
        }
    } else {
        join_path(coredump_directory.as_bytes_vec().as_slice(), bytes.as_slice())
    }
}

/// How an attempt to pin a dump ended. Paths are given as they are shown.
#[derive(Debug)]
pub enum Outcome {
    /// The configuration could not be read.
    Unconfigured { problem: String },
    /// The coredump directory could not be listed.
    Unlisted { directory: String, problem: String },
    /// There is no dump in the coredump directory.
    NoDumps { directory: String },
    /// There is no such dump.
    Missing { dump: String },
    Retained { dump: String },
    /// The marker may not be made.
    PermissionDenied { dump_name: String, marker: String },
    /// The marker could not be made.
    Unmarked { marker: String, problem: String },
}

/// How an attempt to mark a dump ended: the dump may be missing, and opening the
/// marker may have failed, for want of permission or otherwise.
pub open spec fn outcome_of(
    dump: String,
    dump_name: String,
    marker: String,
    present: bool,
    opened: Result<(), (bool, String)>,
) -> Outcome {
    if !present {
        Outcome::Missing { dump }
    } else {
        match opened {
            Ok(_) => Outcome::Retained { dump },
            Err((true, _)) => Outcome::PermissionDenied { dump_name, marker },
            Err((false, problem)) => Outcome::Unmarked { marker, problem },
        }
    }
}

/// How an attempt to mark a dump ended. The marker is opened only if the dump
/// is present; an error says whether permission was denied.
pub fn pin_outcome(
    dump: String,
    dump_name: String,
    marker: String,
    present: bool,
    opened: Result<(), (bool, String)>,
) -> (outcome: Outcome)
    ensures
        outcome == outcome_of(dump, dump_name, marker, present, opened),
{
    if !present {
        return Outcome::Missing { dump };
    }
    match opened {
        Ok(_) => Outcome::Retained { dump },
        Err((denied, problem)) => {
            if denied {
                Outcome::PermissionDenied { dump_name, marker }
            } else {
                Outcome::Unmarked { marker, problem }
            }
        },
    }
}

/// What the command says, line for line, and its exit code.
#[derive(Debug)]
pub struct Reply {
    pub output: Vec<String>,
    pub errors: Vec<String>,
    pub code: u8,
}

/// The model of a [`Reply`].
#[verifier::ext_equal]
pub struct ReplyModel {
    pub output: Seq<Seq<char>>,
    pub errors: Seq<Seq<char>>,
    pub code: u8,
}

impl View for Reply {
    type V = ReplyModel;

    open spec fn view(&self) -> ReplyModel {
        ReplyModel { output: texts(self.output@), errors: texts(self.errors@), code: self.code }
    }
}

/// What the command says to each outcome. Where the marker may not be made, it
/// says how to make it with more rights.
pub open spec fn reply_to(outcome: Outcome) -> ReplyModel {
    match outcome {
        Outcome::Unconfigured { problem } => ReplyModel {
            output: seq![],
            errors: seq!["config error: "@ + problem@],
            code: 2,
        },
        Outcome::Unlisted { directory, problem } => ReplyModel {
            output: seq![],
            errors: seq!["read "@ + directory@ + ": "@ + problem@],
            code: 1,
        },
        Outcome::NoDumps { directory } => ReplyModel {
            output: seq![],
            errors: seq!["no coredumps found in "@ + directory@],
            code: 1,
        },
        Outcome::Missing { dump } => ReplyModel {
            output: seq![],
            errors: seq![dump@ + " does not exist"@],
            code: 1,
        },
        Outcome::Retained { dump } => ReplyModel {
            output: seq!["retained "@ + dump@],
            errors: seq![],
            code: 0,
        },
        Outcome::PermissionDenied { dump_name, marker } => ReplyModel {
            output: seq![],
            errors: seq![
                "permission denied creating "@ + marker@ + "; try one of:"@,
                "    sudo cdgcctl retain "@ + dump_name@,
                "    sudo touch "@ + marker@,
            ],
            code: 1,
        },
        Outcome::Unmarked { marker, problem } => ReplyModel {
            output: seq![],
            errors: seq!["create "@ + marker@ + ": "@ + problem@],
            code: 1,
        },
    }
}

/// One line made of three parts.
fn line(first: &str, second: &str, third: &str) -> (text: String)
    ensures
        text@ == first@ + second@ + third@,
{
    let mut text = String::from_str(first);
    text.append(second);
    text.append(third);
    text
}

/// What the command says to an outcome.
pub fn reply(outcome: &Outcome) -> (reply: Reply)
    ensures
        reply@ == reply_to(*outcome),
{
    let mut output: Vec<String> = Vec::new();
    let mut errors: Vec<String> = Vec::new();
    let code: u8 = match outcome {
        Outcome::Unconfigured { .. } => 2,
        Outcome::Retained { .. } => 0,
        _ => 1,
    };
    let ghost nothing = ""@;
    proof {
        reveal_strlit("");
        assert(forall|s: Seq<char>| #[trigger] (s + nothing) =~= s);
    }
    match outcome {
        Outcome::Unconfigured { problem } => {
            errors.push(line("config error: ", problem.as_str(), ""));
        },
        Outcome::Unlisted { directory, problem } => {
            let mut text = line("read ", directory.as_str(), ": ");
            text.append(problem.as_str());
            errors.push(text);
        },
        Outcome::NoDumps { directory } => {
            errors.push(line("no coredumps found in ", directory.as_str(), ""));
        },
        Outcome::Missing { dump } => {
            errors.push(line(dump.as_str(), " does not exist", ""));
        },
        Outcome::Retained { dump } => {
            output.push(line("retained ", dump.as_str(), ""));
        },
        Outcome::PermissionDenied { dump_name, marker } => {
            errors.push(line("permission denied creating ", marker.as_str(), "; try one of:"));
            errors.push(line("    sudo cdgcctl retain ", dump_name.as_str(), ""));
            errors.push(line("    sudo touch ", marker.as_str(), ""));
        },
        Outcome::Unmarked { marker, problem } => {
            let mut text = line("create ", marker.as_str(), ": ");
            text.append(problem.as_str());
            errors.push(text);
        },
    }
    let reply = Reply { output, errors, code };
    assert(reply@ =~= reply_to(*outcome));
    reply
}

/// There is a dump at a path if and only if the name is that of a dump, and not
/// that of a marker.
pub proof fn lemma_dump_at(path: Seq<u8>, dump: DumpName)
    ensures
        dump_at(path) == Some(dump) <==> pinned_by(path) is None && parsed_path(path) == Ok::<
            _,
            NameFault,
        >(dump),
{
}

/// The most recent dump is one that no other is later than, and of those with
/// its timestamp it is the first; wherever there is a dump, one is the most
/// recent.
pub proof fn lemma_most_recent(paths: Seq<Seq<u8>>, i: int, j: int)
    requires
        is_most_recent(paths, i),
        0 <= j < paths.len(),
        pinned_by(paths[j]) is None,
        parsed_path(paths[j]) is Ok,
    ensures
        0 <= i < paths.len(),
        pinned_by(paths[i]) is None,
        parsed_path(paths[i]) is Ok,
        parsed_path(paths[j])->Ok_0.timestamp_micros <= parsed_path(
            paths[i],
        )->Ok_0.timestamp_micros,
        parsed_path(paths[j])->Ok_0.timestamp_micros == parsed_path(
            paths[i],
        )->Ok_0.timestamp_micros ==> i <= j,
{
    assert(dump_at(paths[j]) is Some);
}

/// An absolute path means itself, wherever the command runs. A bare name means
/// the file of that name in the coredump directory. Any other path means what is
/// at it from the working directory.
pub proof fn lemma_what_is_meant(
    arg: Seq<u8>,
    coredump_directory: Seq<u8>,
    working_directory: Option<Seq<u8>>,
)
    ensures
        ({
            let meant = meant_path(arg, coredump_directory, working_directory);
            let absolute = arg.len() > 0 && arg[0] == 0x2f;
            &&& absolute ==> meant == arg
            &&& !arg.contains(0x2f) ==> components(meant) == components(coredump_directory)
                + components(arg) && (coredump_directory.len() > 0 ==> is_absolute_path(meant)
                == is_absolute_path(coredump_directory))
            &&& !absolute && names_directory(arg) && working_directory is None ==> meant == arg
            &&& !absolute && names_directory(arg) && working_directory is Some ==> components(meant)
                == components(working_directory->0) + components(arg) && (
            working_directory->0.len() > 0 ==> is_absolute_path(meant) == is_absolute_path(
                working_directory->0,
            ))
            &&& !absolute && !names_directory(arg) ==> components(meant) == components(
                coredump_directory,
            ) + components(arg)
        }),
{
    lemma_names_directory(arg, seq![]);
    if !is_absolute_path(arg) {
        lemma_joined_components(coredump_directory, arg);
        if working_directory is Some {
            lemma_joined_components(working_directory->0, arg);
        }
    } else {
        assert(arg.contains(arg[0]));
    }
}

/// An attempt ends well if and only if the dump is present and its marker could
/// be opened. Whether the marker was opened does not matter without the dump.
pub proof fn lemma_outcomes(
    dump: String,
    dump_name: String,
    marker: String,
    present: bool,
    opened: Result<(), (bool, String)>,
)
    ensures
        ({
            let outcome = outcome_of(dump, dump_name, marker, present, opened);
            &&& outcome is Missing <==> !present
            &&& outcome is Retained <==> present && opened is Ok
            &&& outcome is PermissionDenied <==> present && opened is Err && opened->Err_0.0
            &&& outcome is Unmarked <==> present && opened is Err && !opened->Err_0.0
            &&& outcome matches Outcome::Missing { dump: d } ==> d == dump
            &&& outcome matches Outcome::Retained { dump: d } ==> d == dump
            &&& outcome matches Outcome::PermissionDenied { dump_name: n, marker: m } ==> n
                == dump_name && m == marker
            &&& outcome matches Outcome::Unmarked { marker: m, problem } ==> m == marker && problem
                == opened->Err_0.1
        }),
{
}

/// The command succeeds if and only if the dump is retained, and only then says
/// so; otherwise it complains. A configuration that cannot be read has an exit
/// code of its own. Each reply names what it is about.
pub proof fn lemma_replies(outcome: Outcome)
    ensures
        reply_to(outcome).code == 0 <==> outcome is Retained,
        reply_to(outcome).code == 2 <==> outcome is Unconfigured,
        reply_to(outcome).code <= 2,
        reply_to(outcome).output.len() > 0 <==> outcome is Retained,
        reply_to(outcome).errors.len() == 0 <==> outcome is Retained,
        reply_to(outcome).errors.len() == 3 <==> outcome is PermissionDenied,
        match outcome {
            Outcome::Unconfigured { problem } => says(reply_to(outcome).errors[0], problem@),
            Outcome::Unlisted { directory, problem } => says(
                reply_to(outcome).errors[0],
                directory@,
            ) && says(reply_to(outcome).errors[0], problem@),
            Outcome::NoDumps { directory } => says(reply_to(outcome).errors[0], directory@),
            Outcome::Missing { dump } => says(reply_to(outcome).errors[0], dump@),
            Outcome::Retained { dump } => says(reply_to(outcome).output[0], dump@),
            Outcome::PermissionDenied { dump_name, marker } => says(
                reply_to(outcome).errors[0],
                marker@,
            ) && says(reply_to(outcome).errors[1], dump_name@) && says(
                reply_to(outcome).errors[2],
                marker@,
            ),
            Outcome::Unmarked { marker, problem } => says(reply_to(outcome).errors[0], marker@)
                && says(reply_to(outcome).errors[0], problem@),
        },
{
    let nothing = Seq::<char>::empty();
    match outcome {
        Outcome::Unconfigured { problem } => {
            lemma_says("config error: "@, problem@, nothing);
        },
        Outcome::Unlisted { directory, problem } => {
            lemma_says_both("read "@, directory@, ": "@, problem@);
        },
        Outcome::NoDumps { directory } => {
            lemma_says("no coredumps found in "@, directory@, nothing);
        },
        Outcome::Missing { dump } => {
            lemma_says(nothing, dump@, " does not exist"@);
        },
        Outcome::Retained { dump } => {
            lemma_says("retained "@, dump@, nothing);
        },
        Outcome::PermissionDenied { dump_name, marker } => {
            lemma_says("permission denied creating "@, marker@, "; try one of:"@);
            lemma_says("    sudo cdgcctl retain "@, dump_name@, nothing);
            lemma_says("    sudo touch "@, marker@, nothing);
        },
        Outcome::Unmarked { marker, problem } => {
            lemma_says_both("create "@, marker@, ": "@, problem@);
        },
    }
}

} // verus!
