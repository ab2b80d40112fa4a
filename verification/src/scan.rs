//! A scan of the coredump directory.

use vstd::prelude::*;
use vstd::string::*;
use vstd::utf8::*;

use crate::config::Config;
use crate::dump::{parsed_path, CoredumpFile, DumpName, NameFault, ParseError};
use crate::duration::TimeSpan;
use crate::journal::{no_journal, JournalContext};
use crate::path::{file_name, file_name_of};
use crate::policy::{first_match_of, Policy};
use crate::quota::{
    decide, is_decided, is_kept, lemma_removal_has_a_reason, limit_of, rules_exist, verdict,
    Classified, Decision, KeepReason, RemoveReason, Verdict,
};
use crate::retain::{
    dump_name_pinned_by, is_marker_for, lemma_marker_names, lemma_suffixed_name_pins, pinned_by,
    RETAIN_SUFFIX,
};
use crate::text::{
    decimal, decimal_of, is_digit, lemma_decimal_reads_back, lemma_split_label, lemma_split_one,
    split, str_eq, texts, utf8_str, utf8_text,
};

verus! {

/// A file in the coredump directory.
#[derive(Debug)]
pub struct Entry {
    pub path: Vec<u8>,
    /// How long ago the file was written, if the system says; or why it could
    /// not be looked at.
    pub age: Result<Option<TimeSpan>, String>,
}

/// What is found at a file.
#[derive(Debug)]
pub enum Finding {
    /// A file that is no dump, such as a marker.
    Unparseable(Vec<u8>, ParseError),
    /// A path at which something went wrong.
    Unreadable(Vec<u8>, String),
    TooYoung(CoredumpFile),
    /// A dump to decide on, and whether it is pinned.
    Candidate(CoredumpFile, bool),
}

/// The model of a [`Finding`].
pub enum FindingModel {
    Unparseable(Seq<u8>, NameFault),
    Unreadable(Seq<u8>, Seq<char>),
    TooYoung(Seq<u8>, DumpName),
    Candidate(Seq<u8>, DumpName, bool),
}

impl View for Finding {
    type V = FindingModel;

    open spec fn view(&self) -> FindingModel {
        match self {
            Finding::Unparseable(path, fault) => FindingModel::Unparseable(path@, fault@),
            Finding::Unreadable(path, reason) => FindingModel::Unreadable(path@, reason@),
            Finding::TooYoung(dump) => FindingModel::TooYoung(dump.path@, dump@),
            Finding::Candidate(dump, pinned) => FindingModel::Candidate(
                dump.path@,
                dump@,
                *pinned,
            ),
        }
    }
}

/// The names of the dumps that the markers in a listing pin.
pub open spec fn pinned_names(listing: Seq<Result<Entry, String>>) -> Seq<Seq<char>>
    decreases listing.len(),
{
    if listing.len() == 0 {
        Seq::empty()
    } else {
        let before = pinned_names(listing.drop_last());
        match pinned_at(listing.last()) {
            Some(name) => before.push(name),
            None => before,
        }
    }
}

/// The name of the dump that an item of a listing pins, if it is a marker.
pub open spec fn pinned_at(item: Result<Entry, String>) -> Option<Seq<char>> {
    match item {
        Ok(entry) => pinned_by(entry.path@),
        Err(_) => None,
    }
}

/// Whether a file is younger than a span of time. One whose age is not known
/// is not.
pub open spec fn is_younger(age: Option<TimeSpan>, span: TimeSpan) -> bool {
    age matches Some(a) && a.nanos < span.nanos
}

/// What is found at a file. A marker is no dump, whatever its name reads as.
pub open spec fn finding(
    entry: Entry,
    pinned: Seq<Seq<char>>,
    minimum_age: TimeSpan,
) -> FindingModel {
    if pinned_by(entry.path@) is Some {
        FindingModel::Unparseable(entry.path@, NameFault::NotACoredump)
    } else {
        match parsed_path(entry.path@) {
            Err(fault) => FindingModel::Unparseable(entry.path@, fault),
            Ok(dump) => match entry.age {
                Err(reason) => FindingModel::Unreadable(entry.path@, reason@),
                Ok(age) => if is_younger(age, minimum_age) {
                    FindingModel::TooYoung(entry.path@, dump)
                } else {
                    FindingModel::Candidate(entry.path@, dump, is_pinned(entry.path@, pinned))
                },
            },
        }
    }
}

/// What is found at an item of a listing. What the listing could not give is
/// something that went wrong at the directory.
pub open spec fn item_finding(
    item: Result<Entry, String>,
    directory: Seq<u8>,
    pinned: Seq<Seq<char>>,
    minimum_age: TimeSpan,
) -> FindingModel {
    match item {
        Ok(entry) => finding(entry, pinned, minimum_age),
        Err(reason) => FindingModel::Unreadable(directory, reason@),
    }
}

/// Whether the file at a path is among those that markers pin.
pub open spec fn is_pinned(path: Seq<u8>, pinned: Seq<Seq<char>>) -> bool {
    &&& file_name_of(path) matches Some(name)
    &&& utf8_text(name) matches Some(text)
    &&& pinned.contains(text)
}

/// What is found at the items of a listing, one by one.
pub open spec fn findings(
    listing: Seq<Result<Entry, String>>,
    directory: Seq<u8>,
    minimum_age: TimeSpan,
) -> Seq<FindingModel> {
    listing.map_values(
        |item: Result<Entry, String>|
            item_finding(item, directory, pinned_names(listing), minimum_age),
    )
}

pub open spec fn finding_models(list: Seq<Finding>) -> Seq<FindingModel> {
    list.map_values(|f: Finding| f@)
}

/// The names of the dumps that markers pin.
fn find_pinned(listing: &Vec<Result<Entry, String>>) -> (names: Vec<String>)
    ensures
        texts(names@) == pinned_names(listing@),
{
    let mut names: Vec<String> = Vec::new();
    let mut i: usize = 0;
    assert(texts(names@) =~= pinned_names(listing@.take(0)));
    while i < listing.len()
        invariant
            i <= listing@.len(),
            texts(names@) == pinned_names(listing@.take(i as int)),
        decreases listing@.len() - i,
    {
        let ghost before = names@;
        assert(listing@.take(i + 1).drop_last() =~= listing@.take(i as int));
        if let Ok(entry) = &listing[i] {
            if let Some(name) = dump_name_pinned_by(entry.path.as_slice()) {
                names.push(name);
                assert(texts(names@) =~= texts(before).push(name@));
            }
        }
        i = i + 1;
    }
    assert(listing@.take(i as int) =~= listing@);
    names
}

fn is_listed(path: &[u8], pinned: &Vec<String>) -> (listed: bool)
    ensures
        listed == is_pinned(path@, texts(pinned@)),
{
    let name = match file_name(path) {
        Some(name) => name,
        None => return false,
    };
    let text = match utf8_str(name.as_slice()) {
        Some(text) => text,
        None => return false,
    };
    let mut i: usize = 0;
    while i < pinned.len()
        invariant
            i <= pinned@.len(),
            file_name_of(path@) == Some(name@),
            utf8_text(name@) == Some(text@),
            forall|j: int| 0 <= j < i ==> (#[trigger] texts(pinned@)[j]) != text@,
        decreases pinned@.len() - i,
    {
        assert(texts(pinned@)[i as int] == pinned@[i as int]@);
        if str_eq(pinned[i].as_str(), text) {
            return true;
        }
        i = i + 1;
    }
    false
}

/// Looks at a file.
fn examine(entry: Entry, pinned: &Vec<String>, minimum_age: &TimeSpan) -> (found: Finding)
    ensures
        found@ == finding(entry, texts(pinned@), *minimum_age),
{
    if dump_name_pinned_by(entry.path.as_slice()).is_some() {
        return Finding::Unparseable(entry.path, ParseError::NotACoredump);
    }
    let dump = match CoredumpFile::from_path(entry.path.as_slice()) {
        Ok(dump) => dump,
        Err(fault) => return Finding::Unparseable(entry.path, fault),
    };
    let age = match entry.age {
        Ok(age) => age,
        Err(reason) => return Finding::Unreadable(entry.path, reason),
    };
    if let Some(age) = age {
        if age.nanos < minimum_age.nanos {
            return Finding::TooYoung(dump);
        }
    }
    let retained = is_listed(entry.path.as_slice(), pinned);
    Finding::Candidate(dump, retained)
}

/// Looks at the items of the listing of a directory. Which dumps are pinned is
/// settled first, wherever the markers stand.
pub fn survey(
    listing: Vec<Result<Entry, String>>,
    directory: &str,
    minimum_age: &TimeSpan,
) -> (found: Vec<Finding>)
    ensures
        finding_models(found@) == findings(listing@, encode_utf8(directory@), *minimum_age),
{
    let ghost all = listing@;
    let ghost expected = findings(all, encode_utf8(directory@), *minimum_age);
    let pinned = find_pinned(&listing);
    let mut found: Vec<Finding> = Vec::new();
    for item in it: listing
        invariant
            all == listing@,
            it.seq() == all,
            texts(pinned@) == pinned_names(all),
            expected == findings(all, encode_utf8(directory@), *minimum_age),
            found@.len() == it.index(),
            forall|j: int| 0 <= j < it.index() ==> (#[trigger] found@[j])@ == expected[j],
    {
        let f = match item {
            Ok(entry) => examine(entry, &pinned, minimum_age),
            Err(reason) => Finding::Unreadable(directory.as_bytes_vec(), reason),
        };
        found.push(f);
    }
    assert(finding_models(found@) =~= expected);
    found
}

/// A dump that is pinned is held against no rule; every other one belongs to
/// the first rule that matches it.
pub open spec fn is_classified(
    c: Classified,
    policy: Policy,
    dump: CoredumpFile,
    retained: bool,
    context: JournalContext,
) -> bool {
    &&& c.dump == dump
    &&& c.retained == retained
    &&& if retained {
        c.rule_index is None && c.journal_context@ == no_journal()
    } else {
        &&& c.journal_context == context
        &&& match c.rule_index {
            Some(i) => i < policy.rules@.len() && first_match_of(policy.rules@, dump@, context@)
                == Some(i as int),
            None => first_match_of(policy.rules@, dump@, context@) is None,
        }
    }
}

/// Assigns a dump to the rule that it belongs to, in the light of what the
/// journal says of it.
pub fn classify(
    policy: &Policy,
    dump: CoredumpFile,
    retained: bool,
    context: JournalContext,
) -> (c: Classified)
    ensures
        is_classified(c, *policy, dump, retained, context),
{
    if retained {
        return Classified {
            dump,
            rule_index: None,
            journal_context: JournalContext::default(),
            retained,
        };
    }
    let rule_index = policy.first_match_index(&dump, &context);
    Classified { dump, rule_index, journal_context: context, retained }
}

/// Whether the journal is asked about a dump: only if the dump is not pinned and
/// some rule needs the journal.
pub fn asks_journal(policy: &Policy, retained: bool) -> (b: bool)
    ensures
        b == (!retained && exists|i: int|
            0 <= i < policy.rules@.len() && (#[trigger] policy.rules@[i]).needs_journal),
{
    !retained && policy.needs_journal()
}

/// A dump to decide on.
#[derive(Debug)]
pub struct Candidate {
    pub dump: CoredumpFile,
    /// Whether a marker pins the dump.
    pub retained: bool,
    /// What the journal says of the dump, if it was asked.
    pub context: JournalContext,
}

/// Whether each of the dumps to decide on is classified.
pub open spec fn all_classified(
    dumps: Seq<Classified>,
    policy: Policy,
    found: Seq<Candidate>,
) -> bool {
    &&& dumps.len() == found.len()
    &&& forall|i: int|
        0 <= i < found.len() ==> is_classified(
            #[trigger] dumps[i],
            policy,
            found[i].dump,
            found[i].retained,
            found[i].context,
        )
}

/// Assigns each of the dumps to the rule that it belongs to.
pub fn classify_all(policy: &Policy, found: Vec<Candidate>) -> (dumps: Vec<Classified>)
    ensures
        all_classified(dumps@, *policy, found@),
        rules_exist(*policy, dumps@),
{
    let ghost all = found@;
    let mut dumps: Vec<Classified> = Vec::new();
    for candidate in it: found
        invariant
            all == found@,
            it.seq() == all,
            dumps@.len() == it.index(),
            forall|i: int|
                0 <= i < it.index() ==> is_classified(
                    #[trigger] dumps@[i],
                    *policy,
                    all[i].dump,
                    all[i].retained,
                    all[i].context,
                ),
    {
        dumps.push(classify(policy, candidate.dump, candidate.retained, candidate.context));
    }
    dumps
}

/// Whether each of the dumps is decided on as it should be.
pub open spec fn all_decided(
    decided: Seq<(CoredumpFile, Decision)>,
    policy: Policy,
    dumps: Seq<Classified>,
) -> bool {
    &&& decided.len() == dumps.len()
    &&& forall|i: int|
        0 <= i < dumps.len() ==> is_decided(#[trigger] decided[i], policy, dumps, i)
}

/// Decides on dumps.
pub fn judge(policy: &Policy, found: Vec<Candidate>) -> (decided: Vec<(CoredumpFile, Decision)>)
    ensures
        exists|dumps: Seq<Classified>| #[trigger]
            all_classified(dumps, *policy, found@) && all_decided(decided@, *policy, dumps),
{
    let ghost all = found@;
    let dumps = classify_all(policy, found);
    let ghost list = dumps@;
    let decided = decide(policy, dumps);
    assert(all_classified(list, *policy, all) && all_decided(decided@, *policy, list));
    decided
}

/// What came of a scan.
#[derive(Debug)]
pub struct ScanReport {
    pub kept: Vec<(CoredumpFile, KeepReason)>,
    pub removed: Vec<(CoredumpFile, RemoveReason)>,
    pub would_remove: Vec<(CoredumpFile, RemoveReason)>,
    pub too_young: Vec<CoredumpFile>,
    pub unparseable: Vec<Vec<u8>>,
    /// Paths with what went wrong there.
    pub errors: Vec<(Vec<u8>, String)>,
}

/// What counts in a report.
#[verifier::ext_equal]
pub struct ReportModel {
    pub kept: Seq<(Seq<u8>, DumpName, Verdict)>,
    pub removed: Seq<(Seq<u8>, DumpName, Verdict)>,
    pub would_remove: Seq<(Seq<u8>, DumpName, Verdict)>,
    pub too_young: Seq<(Seq<u8>, DumpName)>,
    pub unparseable: Seq<Seq<u8>>,
    pub errors: Seq<(Seq<u8>, Seq<char>)>,
}

pub open spec fn removals(list: Seq<(CoredumpFile, RemoveReason)>) -> Seq<
    (Seq<u8>, DumpName, Verdict),
> {
    list.map_values(|r: (CoredumpFile, RemoveReason)| (r.0.path@, r.0@, r.1@))
}

impl View for ScanReport {
    type V = ReportModel;

    open spec fn view(&self) -> ReportModel {
        ReportModel {
            kept: self.kept@.map_values(
                |r: (CoredumpFile, KeepReason)| (r.0.path@, r.0@, r.1@),
            ),
            removed: removals(self.removed@),
            would_remove: removals(self.would_remove@),
            too_young: self.too_young@.map_values(|d: CoredumpFile| (d.path@, d@)),
            unparseable: self.unparseable@.map_values(|p: Vec<u8>| p@),
            errors: self.errors@.map_values(|e: (Vec<u8>, String)| (e.0@, e.1@)),
        }
    }
}

/// A report in which nothing has happened yet.
pub open spec fn empty_report() -> ReportModel {
    ReportModel {
        kept: Seq::empty(),
        removed: Seq::empty(),
        would_remove: Seq::empty(),
        too_young: Seq::empty(),
        unparseable: Seq::empty(),
        errors: Seq::empty(),
    }
}

/// A report with what was found at a file. A dump to decide on is not reported
/// yet.
pub open spec fn with_finding(report: ReportModel, found: FindingModel) -> ReportModel {
    match found {
        FindingModel::Unparseable(path, _) => ReportModel {
            unparseable: report.unparseable.push(path),
            ..report
        },
        FindingModel::Unreadable(path, reason) => ReportModel {
            errors: report.errors.push((path, reason)),
            ..report
        },
        FindingModel::TooYoung(path, dump) => ReportModel {
            too_young: report.too_young.push((path, dump)),
            ..report
        },
        FindingModel::Candidate(..) => report,
    }
}

/// A report with what was found at some files.
pub open spec fn with_findings(report: ReportModel, found: Seq<FindingModel>) -> ReportModel
    decreases found.len(),
{
    if found.len() == 0 {
        report
    } else {
        with_finding(with_findings(report, found.drop_last()), found.last())
    }
}

/// The dumps to decide on among some findings, each with whether it is pinned.
pub open spec fn candidates(found: Seq<FindingModel>) -> Seq<(Seq<u8>, DumpName, bool)>
    decreases found.len(),
{
    if found.len() == 0 {
        Seq::empty()
    } else {
        let before = candidates(found.drop_last());
        match found.last() {
            FindingModel::Candidate(path, dump, pinned) => before.push((path, dump, pinned)),
            _ => before,
        }
    }
}

pub open spec fn candidate_models(list: Seq<(CoredumpFile, bool)>) -> Seq<
    (Seq<u8>, DumpName, bool),
> {
    list.map_values(|c: (CoredumpFile, bool)| (c.0.path@, c.0@, c.1))
}

/// The first `n` dumps that stay, or the first that go, with the reason.
pub open spec fn with_fate(
    policy: Policy,
    dumps: Seq<Classified>,
    n: int,
    kept: bool,
) -> Seq<(Seq<u8>, DumpName, Verdict)>
    decreases n,
{
    if n <= 0 {
        Seq::empty()
    } else {
        let before = with_fate(policy, dumps, n - 1, kept);
        let v = verdict(policy, dumps, n - 1);
        if is_kept(v) == kept {
            before.push((dumps[n - 1].dump.path@, dumps[n - 1].dump@, v))
        } else {
            before
        }
    }
}

/// A report with what was decided: the dumps that stay and, in a dry run, those
/// that would go.
pub open spec fn with_decisions(
    report: ReportModel,
    policy: Policy,
    dumps: Seq<Classified>,
    dry_run: bool,
) -> ReportModel {
    ReportModel {
        kept: report.kept + with_fate(policy, dumps, dumps.len() as int, true),
        would_remove: if dry_run {
            report.would_remove + with_fate(policy, dumps, dumps.len() as int, false)
        } else {
            report.would_remove
        },
        ..report
    }
}

/// The dumps to delete, with the reason: those that go, but none in a dry run.
pub open spec fn to_delete(policy: Policy, dumps: Seq<Classified>, dry_run: bool) -> Seq<
    (Seq<u8>, DumpName, Verdict),
> {
    if dry_run {
        Seq::empty()
    } else {
        with_fate(policy, dumps, dumps.len() as int, false)
    }
}

/// The line that sums a report up.
pub open spec fn summary_line(report: ReportModel) -> Seq<char> {
    "kept="@ + decimal(report.kept.len()) + " removed="@ + decimal(report.removed.len())
        + " would_remove="@ + decimal(report.would_remove.len()) + " too_young="@ + decimal(
        report.too_young.len(),
    ) + " unparseable="@ + decimal(report.unparseable.len()) + " errors="@ + decimal(
        report.errors.len(),
    )
}

/// The exit code of a one-shot scan: 2 if anything went wrong, else 1 if
/// anything was removed or would have been, else 0.
pub open spec fn scan_exit_code(report: ReportModel) -> u8 {
    if report.errors.len() > 0 {
        2
    } else if report.removed.len() + report.would_remove.len() > 0 {
        1
    } else {
        0
    }
}

impl Default for ScanReport {
    fn default() -> (report: ScanReport)
        ensures
            report@ == empty_report(),
    {
        let report = ScanReport {
            kept: Vec::new(),
            removed: Vec::new(),
            would_remove: Vec::new(),
            too_young: Vec::new(),
            unparseable: Vec::new(),
            errors: Vec::new(),
        };
        assert(report@ =~= empty_report());
        report
    }
}

impl ScanReport {
    /// Notes that something went wrong at a path.
    pub fn record_error(&mut self, path: Vec<u8>, reason: String)
        ensures
            final(self)@ == (ReportModel {
                errors: old(self)@.errors.push((path@, reason@)),
                ..old(self)@
            }),
    {
        self.errors.push((path, reason));
        assert(self@ =~= ReportModel {
            errors: old(self)@.errors.push((path@, reason@)),
            ..old(self)@
        });
    }

    /// Notes what was found at a file, and hands on a dump to decide on with
    /// whether it is pinned.
    fn record_finding(&mut self, found: Finding) -> (candidate: Option<(CoredumpFile, bool)>)
        ensures
            final(self)@ == with_finding(old(self)@, found@),
            match candidate {
                Some(c) => found == Finding::Candidate(c.0, c.1),
                None => !(found is Candidate),
            },
    {
        match found {
            Finding::Unparseable(path, _) => {
                self.unparseable.push(path);
                assert(self@ =~= with_finding(old(self)@, found@));
                None
            },
            Finding::Unreadable(path, reason) => {
                self.errors.push((path, reason));
                assert(self@ =~= with_finding(old(self)@, found@));
                None
            },
            Finding::TooYoung(dump) => {
                self.too_young.push(dump);
                assert(self@ =~= with_finding(old(self)@, found@));
                None
            },
            Finding::Candidate(dump, pinned) => Some((dump, pinned)),
        }
    }

    /// Notes what was found at some files, and hands on the dumps to decide on,
    /// each with whether it is pinned.
    pub fn record_findings(&mut self, found: Vec<Finding>) -> (dumps: Vec<(CoredumpFile, bool)>)
        ensures
            final(self)@ == with_findings(old(self)@, finding_models(found@)),
            candidate_models(dumps@) == candidates(finding_models(found@)),
    {
        let ghost all = found@;
        let ghost models = finding_models(all);
        let mut dumps: Vec<(CoredumpFile, bool)> = Vec::new();
        assert(candidate_models(dumps@) =~= candidates(models.take(0)));
        for f in it: found
            invariant
                all == found@,
                it.seq() == all,
                models == finding_models(all),
                self@ == with_findings(old(self)@, models.take(it.index())),
                candidate_models(dumps@) == candidates(models.take(it.index())),
        {
            let ghost before = dumps@;
            assert(models.take(it.index() + 1).drop_last() =~= models.take(it.index()));
            assert(models.take(it.index() + 1).last() == f@);
            if let Some(candidate) = self.record_finding(f) {
                dumps.push(candidate);
                assert(candidate_models(dumps@) =~= candidate_models(before).push(
                    (candidate.0.path@, candidate.0@, candidate.1),
                ));
            }
        }
        assert(models.take(all.len() as int) =~= models);
        dumps
    }

    /// Notes that a dump was deleted, or why it could not be.
    pub fn record_removal(
        &mut self,
        dump: CoredumpFile,
        reason: RemoveReason,
        outcome: Result<(), String>,
    )
        ensures
            final(self)@ == (match outcome {
                Ok(_) => ReportModel {
                    removed: old(self)@.removed.push((dump.path@, dump@, reason@)),
                    ..old(self)@
                },
                Err(e) => ReportModel {
                    errors: old(self)@.errors.push((dump.path@, e@)),
                    ..old(self)@
                },
            }),
            listed(final(self)@) == listed(old(self)@) + 1,
    {
        match outcome {
            Ok(_) => {
                self.removed.push((dump, reason));
                assert(self@ =~= ReportModel {
                    removed: old(self)@.removed.push((dump.path@, dump@, reason@)),
                    ..old(self)@
                });
            },
            Err(e) => {
                self.record_error(dump.path, e);
            },
        }
    }

    /// The line that sums the report up.
    pub fn summary(&self) -> (line: String)
        ensures
            line@ == summary_line(self@),
    {
        let mut line = String::from_str("kept=");
        line.append(decimal_of(self.kept.len() as u64).as_str());
        line.append(" removed=");
        line.append(decimal_of(self.removed.len() as u64).as_str());
        line.append(" would_remove=");
        line.append(decimal_of(self.would_remove.len() as u64).as_str());
        line.append(" too_young=");
        line.append(decimal_of(self.too_young.len() as u64).as_str());
        line.append(" unparseable=");
        line.append(decimal_of(self.unparseable.len() as u64).as_str());
        line.append(" errors=");
        line.append(decimal_of(self.errors.len() as u64).as_str());
        line
    }

    /// The exit code of a one-shot scan.
    pub fn exit_code(&self) -> (code: u8)
        ensures
            code == scan_exit_code(self@),
    {
        if self.errors.len() > 0 {
            2
        } else if self.removed.len() > 0 || self.would_remove.len() > 0 {
            1
        } else {
            0
        }
    }
}

pub struct Scanner<'a> {
    pub config: &'a Config,
    pub policy: &'a Policy,
}

impl<'a> Scanner<'a> {
    /// Reports what was found in the coredump directory, or why that could not
    /// be listed. Hands on the dumps to decide on, each with whether it is
    /// pinned.
    pub fn survey(&self, listing: Result<Vec<Result<Entry, String>>, String>) -> (r: (
        ScanReport,
        Vec<(CoredumpFile, bool)>,
    ))
        ensures
            match listing {
                Ok(items) => {
                    let found = findings(
                        items@,
                        encode_utf8(self.config.coredump_directory@),
                        self.config.minimum_age,
                    );
                    &&& r.0@ == with_findings(empty_report(), found)
                    &&& candidate_models(r.1@) == candidates(found)
                },
                Err(reason) => {
                    &&& r.0@ == (ReportModel {
                        errors: seq![(encode_utf8(self.config.coredump_directory@), reason@)],
                        ..empty_report()
                    })
                    &&& r.1@.len() == 0
                },
            },
    {
        let mut report = ScanReport::default();
        let directory = self.config.coredump_directory.as_str();
        match listing {
            Ok(items) => {
                let found = survey(items, directory, &self.config.minimum_age);
                let dumps = report.record_findings(found);
                (report, dumps)
            },
            Err(reason) => {
                report.record_error(directory.as_bytes_vec(), reason);
                assert(report@.errors =~= seq![(encode_utf8(directory@), reason@)]);
                (report, Vec::new())
            },
        }
    }

    /// Decides on the dumps and reports those that stay. The others are handed
    /// back to be deleted or, in a dry run, only reported.
    pub fn scan(&self, found: Vec<Candidate>, report: &mut ScanReport) -> (gone: Vec<
        (CoredumpFile, RemoveReason),
    >)
        ensures
            exists|dumps: Seq<Classified>| #[trigger]
                all_classified(dumps, *self.policy, found@) && final(report)@ == with_decisions(
                    old(report)@,
                    *self.policy,
                    dumps,
                    self.config.dry_run,
                ) && removals(gone@) == to_delete(*self.policy, dumps, self.config.dry_run),
    {
        let ghost policy = *self.policy;
        let dry_run = self.config.dry_run;
        let decided = judge(self.policy, found);
        let ghost list = decided@;
        let ghost all = choose|dumps: Seq<Classified>| #[trigger]
            all_classified(dumps, policy, found@) && all_decided(list, policy, dumps);
        let mut gone: Vec<(CoredumpFile, RemoveReason)> = Vec::new();
        assert(old(report)@.kept + with_fate(policy, all, 0, true) =~= old(report)@.kept);
        assert(old(report)@.would_remove + with_fate(policy, all, 0, false)
            =~= old(report)@.would_remove);
        assert(removals(gone@) =~= Seq::empty());
        for pair in it: decided
            invariant
                list == decided@,
                it.seq() == list,
                all_decided(list, policy, all),
                dry_run == self.config.dry_run,
                report@ == (ReportModel {
                    kept: old(report)@.kept + with_fate(policy, all, it.index(), true),
                    would_remove: if dry_run {
                        old(report)@.would_remove + with_fate(policy, all, it.index(), false)
                    } else {
                        old(report)@.would_remove
                    },
                    ..old(report)@
                }),
                removals(gone@) == if dry_run {
                    Seq::empty()
                } else {
                    with_fate(policy, all, it.index(), false)
                },
        {
            let ghost reported = report@;
            let ghost handed_on = gone@;
            let ghost i = it.index();
            let ghost entry = (all[i].dump.path@, all[i].dump@, verdict(policy, all, i));
            assert(is_decided(list[i], policy, all, i));
            match pair.1 {
                Decision::Keep(reason) => {
                    report.kept.push((pair.0, reason));
                    assert(report@ =~= ReportModel { kept: reported.kept.push(entry), ..reported });
                },
                Decision::Remove(reason) => {
                    if dry_run {
                        report.would_remove.push((pair.0, reason));
                        assert(report@ =~= ReportModel {
                            would_remove: reported.would_remove.push(entry),
                            ..reported
                        });
                    } else {
                        gone.push((pair.0, reason));
                        assert(removals(gone@) =~= removals(handed_on).push(entry));
                    }
                },
            }
            assert(old(report)@.kept + with_fate(policy, all, i, true).push(entry) =~= (old(
                report,
            )@.kept + with_fate(policy, all, i, true)).push(entry));
            assert(old(report)@.would_remove + with_fate(policy, all, i, false).push(entry) =~= (
            old(report)@.would_remove + with_fate(policy, all, i, false)).push(entry));
        }
        assert(all_classified(all, policy, found@));
        gone
    }
}

proof fn lemma_pinned_names(listing: Seq<Result<Entry, String>>, m: int)
    requires
        0 <= m < listing.len(),
        pinned_at(listing[m]) is Some,
    ensures
        pinned_names(listing).contains(pinned_at(listing[m])->0),
    decreases listing.len(),
{
    let before = pinned_names(listing.drop_last());
    let name = pinned_at(listing[m])->0;
    if m < listing.len() - 1 {
        lemma_pinned_names(listing.drop_last(), m);
        let k = choose|k: int| 0 <= k < before.len() && before[k] == name;
        assert(pinned_names(listing)[k] == name);
    } else {
        assert(pinned_names(listing)[before.len() as int] == name);
    }
}

/// Whether an item of a listing is a marker for a dump.
pub open spec fn marks(item: Result<Entry, String>, dump_path: Seq<u8>) -> bool {
    item matches Ok(entry) && is_marker_for(entry.path@, dump_path)
}

/// A marker anywhere in the listing protects the dump whose name it has before
/// the suffix: if that is decided on at all, then as a pinned one.
pub proof fn lemma_marker_protects(
    listing: Seq<Result<Entry, String>>,
    marker: int,
    dump: Entry,
    minimum_age: TimeSpan,
)
    requires
        0 <= marker < listing.len(),
        marks(listing[marker], dump.path@),
    ensures
        finding(dump, pinned_names(listing), minimum_age) matches FindingModel::Candidate(
            _,
            _,
            pinned,
        ) ==> pinned,
{
    if parsed_path(dump.path@) is Ok {
        lemma_suffixed_name_pins(file_name_of(dump.path@)->0);
        lemma_pinned_names(listing, marker);
    }
}

proof fn lemma_candidate_was_found(found: Seq<FindingModel>, k: int) -> (e: int)
    requires
        0 <= k < candidates(found).len(),
    ensures
        0 <= e < found.len(),
        found[e] matches FindingModel::Candidate(path, dump, pinned) && candidates(found)[k] == (
            path,
            dump,
            pinned,
        ),
    decreases found.len(),
{
    if k < candidates(found.drop_last()).len() {
        lemma_candidate_was_found(found.drop_last(), k)
    } else {
        found.len() - 1
    }
}

/// Whether a file is due: it is no marker, bears the name of a dump, could be
/// looked at and is not too young.
pub open spec fn is_due(entry: Entry, minimum_age: TimeSpan) -> bool {
    &&& pinned_by(entry.path@) is None
    &&& parsed_path(entry.path@) is Ok
    &&& entry.age matches Ok(age)
    &&& !is_younger(age, minimum_age)
}

/// Every dump to decide on is a file in the listing that is due.
pub proof fn lemma_candidates_are_due(
    listing: Seq<Result<Entry, String>>,
    directory: Seq<u8>,
    minimum_age: TimeSpan,
    k: int,
) -> (e: int)
    requires
        0 <= k < candidates(findings(listing, directory, minimum_age)).len(),
    ensures
        0 <= e < listing.len(),
        listing[e] matches Ok(entry) && is_due(entry, minimum_age) && candidates(
            findings(listing, directory, minimum_age),
        )[k] == (
            entry.path@,
            parsed_path(entry.path@)->Ok_0,
            is_pinned(entry.path@, pinned_names(listing)),
        ),
{
    lemma_candidate_was_found(findings(listing, directory, minimum_age), k)
}

/// How many entries a report has, all lists together.
pub open spec fn listed(report: ReportModel) -> nat {
    report.kept.len() + report.removed.len() + report.would_remove.len() + report.too_young.len()
        + report.unparseable.len() + report.errors.len()
}

proof fn lemma_findings_are_listed(report: ReportModel, found: Seq<FindingModel>)
    ensures
        listed(with_findings(report, found)) + candidates(found).len() == listed(report)
            + found.len(),
    decreases found.len(),
{
    if found.len() > 0 {
        lemma_findings_are_listed(report, found.drop_last());
    }
}

/// A report accounts for each item of the listing exactly once: what was
/// surveyed is in one list or is a dump to decide on, and what was decided on is
/// in one list or is a dump to delete. [`ScanReport::record_removal`] then lists
/// each of these once.
pub proof fn lemma_each_item_is_accounted_for(
    listing: Seq<Result<Entry, String>>,
    directory: Seq<u8>,
    minimum_age: TimeSpan,
    found: Seq<Candidate>,
    policy: Policy,
    dumps: Seq<Classified>,
    dry_run: bool,
)
    requires
        without_context(found) == candidates(findings(listing, directory, minimum_age)),
        all_classified(dumps, policy, found),
    ensures
        ({
            let surveyed = with_findings(
                empty_report(),
                findings(listing, directory, minimum_age),
            );
            let decided = with_decisions(surveyed, policy, dumps, dry_run);
            &&& listed(surveyed) + found.len() == listing.len()
            &&& listed(decided) + to_delete(policy, dumps, dry_run).len() == listing.len()
        }),
{
    lemma_findings_are_listed(empty_report(), findings(listing, directory, minimum_age));
    assert(without_context(found).len() == found.len());
    lemma_every_dump_has_a_fate(policy, dumps, dumps.len() as int);
}

/// The dumps to decide on, as a survey hands them on.
pub open spec fn without_context(found: Seq<Candidate>) -> Seq<(Seq<u8>, DumpName, bool)> {
    found.map_values(|c: Candidate| (c.dump.path@, c.dump@, c.retained))
}

/// A whole scan, from the listing to the deletions: what is deleted is a file
/// of the listing that is due and beside which no marker for it stands. `k` is a
/// position among the dumps to delete; the result is the position of that dump
/// in the listing.
pub proof fn lemma_deleted_dumps_are_unmarked(
    listing: Seq<Result<Entry, String>>,
    directory: Seq<u8>,
    minimum_age: TimeSpan,
    found: Seq<Candidate>,
    policy: Policy,
    dumps: Seq<Classified>,
    dry_run: bool,
    k: int,
) -> (e: int)
    requires
        without_context(found) == candidates(findings(listing, directory, minimum_age)),
        all_classified(dumps, policy, found),
        0 <= k < to_delete(policy, dumps, dry_run).len(),
    ensures
        !dry_run,
        0 <= e < listing.len(),
        listing[e] matches Ok(entry) && is_due(entry, minimum_age) && entry.path@ == to_delete(
            policy,
            dumps,
            dry_run,
        )[k].0,
        forall|m: int|
            0 <= m < listing.len() ==> !marks(
                #[trigger] listing[m],
                to_delete(policy, dumps, dry_run)[k].0,
            ),
{
    let i = lemma_pinned_never_go(policy, dumps, dumps.len() as int, k);
    assert(is_classified(
        dumps[i],
        policy,
        found[i].dump,
        found[i].retained,
        found[i].context,
    ));
    assert(without_context(found)[i] == (found[i].dump.path@, found[i].dump@, found[i].retained));
    let e = lemma_candidates_are_due(listing, directory, minimum_age, i);
    let entry = listing[e]->Ok_0;
    assert forall|m: int| 0 <= m < listing.len() implies !marks(
        #[trigger] listing[m],
        entry.path@,
    ) by {
        if marks(listing[m], entry.path@) {
            lemma_marker_protects(listing, m, entry, minimum_age);
        }
    }
    e
}

/// A whole scan leaves out nothing: a dump that is not pinned and that no rule
/// matches is deleted, unless it is a dry run, and then it is reported. `i` is a
/// position among the dumps to decide on; the result is that among those that
/// go.
pub proof fn lemma_unmatched_dumps_go(
    found: Seq<Candidate>,
    policy: Policy,
    dumps: Seq<Classified>,
    i: int,
) -> (k: int)
    requires
        all_classified(dumps, policy, found),
        0 <= i < found.len(),
        !found[i].retained,
        first_match_of(policy.rules@, found[i].dump@, found[i].context@) is None,
    ensures
        0 <= k < with_fate(policy, dumps, dumps.len() as int, false).len(),
        with_fate(policy, dumps, dumps.len() as int, false)[k] == (
            found[i].dump.path@,
            found[i].dump@,
            Verdict::NoRuleMatched,
        ),
{
    assert(is_classified(
        dumps[i],
        policy,
        found[i].dump,
        found[i].retained,
        found[i].context,
    ));
    lemma_fate_is_listed(policy, dumps, dumps.len() as int, i)
}

proof fn lemma_fate_is_listed(policy: Policy, dumps: Seq<Classified>, n: int, i: int) -> (k: int)
    requires
        0 <= i < n <= dumps.len(),
    ensures
        ({
            let listed = with_fate(policy, dumps, n, is_kept(verdict(policy, dumps, i)));
            &&& 0 <= k < listed.len()
            &&& listed[k] == (dumps[i].dump.path@, dumps[i].dump@, verdict(policy, dumps, i))
        }),
    decreases n,
{
    if i < n - 1 {
        lemma_fate_is_listed(policy, dumps, n - 1, i)
    } else {
        with_fate(policy, dumps, n - 1, is_kept(verdict(policy, dumps, i))).len() as int
    }
}

/// Every dump that was decided on either stays or goes.
pub proof fn lemma_every_dump_has_a_fate(policy: Policy, dumps: Seq<Classified>, n: int)
    requires
        0 <= n <= dumps.len(),
    ensures
        with_fate(policy, dumps, n, true).len() + with_fate(policy, dumps, n, false).len() == n,
    decreases n,
{
    if n > 0 {
        lemma_every_dump_has_a_fate(policy, dumps, n - 1);
    }
}

/// What goes was decided on and is not pinned; either no rule matches it or its
/// rule keeps only so many.
pub proof fn lemma_pinned_never_go(policy: Policy, dumps: Seq<Classified>, n: int, k: int) -> (i:
    int)
    requires
        0 <= n <= dumps.len(),
        0 <= k < with_fate(policy, dumps, n, false).len(),
    ensures
        0 <= i < n,
        with_fate(policy, dumps, n, false)[k] == (
            dumps[i].dump.path@,
            dumps[i].dump@,
            verdict(policy, dumps, i),
        ),
        !dumps[i].retained,
        dumps[i].rule_index is None || limit_of(policy, dumps[i]) is Some,
    decreases n,
{
    let before = with_fate(policy, dumps, n - 1, false);
    if k < before.len() {
        lemma_pinned_never_go(policy, dumps, n - 1, k)
    } else {
        lemma_removal_has_a_reason(policy, dumps, n - 1);
        n - 1
    }
}

/// The allow-list: a dump that is not pinned goes if no rule matches it, and
/// stays if the first rule that matches it has no limit.
pub proof fn lemma_allow_list(
    policy: Policy,
    dumps: Seq<Classified>,
    i: int,
    dump: CoredumpFile,
    context: JournalContext,
)
    requires
        0 <= i < dumps.len(),
        is_classified(dumps[i], policy, dump, false, context),
    ensures
        first_match_of(policy.rules@, dump@, context@) is None <==> verdict(policy, dumps, i)
            == Verdict::NoRuleMatched,
        first_match_of(policy.rules@, dump@, context@) matches Some(r) ==> (
        policy.rules@[r].keep_count is None ==> verdict(policy, dumps, i) == Verdict::KeptByRule(
            policy.rules@[r].name@,
        )),
{
}

/// What is found at a file, by what it is: a marker or a file whose name is not
/// that of a dump, a dump that could not be looked at, one that was written less
/// than the minimum age ago, or one to decide on. The path stays the same.
pub proof fn lemma_what_is_found(entry: Entry, pinned: Seq<Seq<char>>, minimum_age: TimeSpan)
    ensures
        ({
            let found = finding(entry, pinned, minimum_age);
            let is_dump = pinned_by(entry.path@) is None && parsed_path(entry.path@) is Ok;
            let young = entry.age matches Ok(Some(age)) && age.nanos < minimum_age.nanos;
            &&& !is_dump <==> found is Unparseable
            &&& is_dump && entry.age is Err <==> found is Unreadable
            &&& is_dump && young <==> found is TooYoung
            &&& is_dump && entry.age is Ok && !young <==> found is Candidate
            &&& found matches FindingModel::Unparseable(path, _) ==> path == entry.path@
            &&& found matches FindingModel::Unreadable(path, reason) ==> path == entry.path@
                && reason == entry.age->Err_0@
            &&& found matches FindingModel::TooYoung(path, dump) ==> path == entry.path@ && dump
                == parsed_path(entry.path@)->Ok_0
            &&& found matches FindingModel::Candidate(path, dump, _) ==> path == entry.path@ && dump
                == parsed_path(entry.path@)->Ok_0
        }),
{
}

proof fn lemma_pinned_name_has_a_marker(listing: Seq<Result<Entry, String>>, name: Seq<char>) -> (m:
    int)
    requires
        pinned_names(listing).contains(name),
    ensures
        0 <= m < listing.len(),
        pinned_at(listing[m]) == Some(name),
    decreases listing.len(),
{
    if listing.len() == 0 {
        0
    } else {
        let before = pinned_names(listing.drop_last());
        if before.contains(name) {
            lemma_pinned_name_has_a_marker(listing.drop_last(), name)
        } else {
            let all = pinned_names(listing);
            let k = choose|k: int| 0 <= k < all.len() && all[k] == name;
            if k < before.len() {
                assert(before[k] == name);
            }
            listing.len() - 1
        }
    }
}

/// A file is pinned if and only if a marker for it stands somewhere in the
/// listing.
pub proof fn lemma_pinned_means_marked(listing: Seq<Result<Entry, String>>, path: Seq<u8>)
    requires
        file_name_of(path) is Some,
        valid_utf8(file_name_of(path)->0),
    ensures
        is_pinned(path, pinned_names(listing)) <==> exists|m: int|
            0 <= m < listing.len() && marks(#[trigger] listing[m], path),
{
    broadcast use decode_utf8_encode_utf8;

    let name = file_name_of(path)->0;
    let text = decode_utf8(name);
    let names = pinned_names(listing);
    lemma_suffixed_name_pins(name);
    if names.contains(text) {
        let m = lemma_pinned_name_has_a_marker(listing, text);
        let entry = listing[m]->Ok_0;
        lemma_marker_names(file_name_of(entry.path@)->0, text);
        lemma_marker_names(name + RETAIN_SUFFIX.spec_bytes(), text);
        assert(marks(listing[m], path));
    }
    if exists|m: int| 0 <= m < listing.len() && marks(#[trigger] listing[m], path) {
        let m = choose|m: int| 0 <= m < listing.len() && marks(#[trigger] listing[m], path);
        lemma_pinned_names(listing, m);
    }
}

/// What was found is in the list that it belongs to, and nothing has been decided
/// yet. With the law that each item is accounted for once, it is in no other.
pub proof fn lemma_findings_are_in_their_lists(found: Seq<FindingModel>, e: int)
    requires
        0 <= e < found.len(),
    ensures
        ({
            let report = with_findings(empty_report(), found);
            &&& found[e] matches FindingModel::Unparseable(path, _) ==> report.unparseable.contains(
                path,
            )
            &&& found[e] matches FindingModel::Unreadable(path, reason) ==> report.errors.contains(
                (path, reason),
            )
            &&& found[e] matches FindingModel::TooYoung(path, dump) ==> report.too_young.contains(
                (path, dump),
            )
            &&& found[e] matches FindingModel::Candidate(path, dump, pinned) ==> candidates(
                found,
            ).contains((path, dump, pinned))
            &&& report.kept.len() == 0
            &&& report.removed.len() == 0
            &&& report.would_remove.len() == 0
        }),
    decreases found.len(),
{
    let shorter = found.drop_last();
    let before = with_findings(empty_report(), shorter);
    let report = with_findings(empty_report(), found);
    if e < found.len() - 1 {
        lemma_findings_are_in_their_lists(shorter, e);
        match found[e] {
            FindingModel::Unparseable(path, _) => {
                let k = choose|k: int|
                    0 <= k < before.unparseable.len() && before.unparseable[k] == path;
                assert(report.unparseable[k] == path);
            },
            FindingModel::Unreadable(path, reason) => {
                let k = choose|k: int|
                    0 <= k < before.errors.len() && before.errors[k] == (path, reason);
                assert(report.errors[k] == (path, reason));
            },
            FindingModel::TooYoung(path, dump) => {
                let k = choose|k: int|
                    0 <= k < before.too_young.len() && before.too_young[k] == (path, dump);
                assert(report.too_young[k] == (path, dump));
            },
            FindingModel::Candidate(path, dump, pinned) => {
                let list = candidates(shorter);
                let k = choose|k: int| 0 <= k < list.len() && list[k] == (path, dump, pinned);
                assert(candidates(found)[k] == (path, dump, pinned));
            },
        }
    } else {
        lemma_nothing_decided(shorter);
        match found[e] {
            FindingModel::Unparseable(path, _) => {
                assert(report.unparseable.last() == path);
            },
            FindingModel::Unreadable(path, reason) => {
                assert(report.errors.last() == (path, reason));
            },
            FindingModel::TooYoung(path, dump) => {
                assert(report.too_young.last() == (path, dump));
            },
            FindingModel::Candidate(path, dump, pinned) => {
                assert(candidates(found).last() == (path, dump, pinned));
            },
        }
    }
}

proof fn lemma_nothing_decided(found: Seq<FindingModel>)
    ensures
        with_findings(empty_report(), found).kept.len() == 0,
        with_findings(empty_report(), found).removed.len() == 0,
        with_findings(empty_report(), found).would_remove.len() == 0,
    decreases found.len(),
{
    if found.len() > 0 {
        lemma_nothing_decided(found.drop_last());
    }
}

/// Every dump that stays is reported as kept. Every dump that goes is handed on
/// to be deleted, or, in a dry run, reported as one that would be; in a dry run
/// nothing is deleted, and otherwise nothing is reported so. The result is the
/// position in the list.
pub proof fn lemma_decisions_are_carried_out(
    report: ReportModel,
    policy: Policy,
    dumps: Seq<Classified>,
    dry_run: bool,
    i: int,
)
    requires
        0 <= i < dumps.len(),
    ensures
        ({
            let v = verdict(policy, dumps, i);
            let item = (dumps[i].dump.path@, dumps[i].dump@, v);
            let stays = v is Retained || v is KeptByRule;
            let after = with_decisions(report, policy, dumps, dry_run);
            &&& stays ==> after.kept.contains(item)
            &&& !stays && dry_run ==> after.would_remove.contains(item)
            &&& !stays && !dry_run ==> to_delete(policy, dumps, dry_run).contains(item)
            &&& dry_run ==> to_delete(policy, dumps, dry_run).len() == 0
            &&& !dry_run ==> after.would_remove == report.would_remove
            &&& after.removed == report.removed
            &&& after.too_young == report.too_young
            &&& after.unparseable == report.unparseable
            &&& after.errors == report.errors
        }),
{
    let v = verdict(policy, dumps, i);
    let item = (dumps[i].dump.path@, dumps[i].dump@, v);
    let after = with_decisions(report, policy, dumps, dry_run);
    let n = dumps.len() as int;
    let k = lemma_fate_is_listed(policy, dumps, n, i);
    let listed = with_fate(policy, dumps, n, is_kept(v));
    assert(listed[k] == item);
    if is_kept(v) {
        assert(after.kept[report.kept.len() + k] == item);
    } else if dry_run {
        assert(after.would_remove[report.would_remove.len() + k] == item);
    } else {
        assert(to_delete(policy, dumps, dry_run)[k] == item);
    }
}

/// A dump is classified as itself: by whether it is pinned, and by the first
/// rule that matches it in the light of the journal.
pub proof fn lemma_classification(
    c: Classified,
    policy: Policy,
    dump: CoredumpFile,
    retained: bool,
    context: JournalContext,
)
    requires
        is_classified(c, policy, dump, retained, context),
    ensures
        c.dump == dump,
        c.retained == retained,
        retained ==> c.rule_index is None,
        !retained ==> c.journal_context@ == context@,
        !retained ==> (c.rule_index matches Some(r) ==> first_match_of(
            policy.rules@,
            dump@,
            context@,
        ) == Some(r as int)),
        !retained && c.rule_index is None ==> first_match_of(policy.rules@, dump@, context@)
            is None,
{
}

/// The exit code tells whether anything went wrong, and if not, whether anything
/// was removed or would have been.
pub proof fn lemma_exit_codes(report: ReportModel)
    ensures
        scan_exit_code(report) == 2 <==> report.errors.len() > 0,
        scan_exit_code(report) == 1 <==> report.errors.len() == 0 && (report.removed.len() > 0
            || report.would_remove.len() > 0),
        scan_exit_code(report) == 0 <==> report.errors.len() == 0 && report.removed.len() == 0
            && report.would_remove.len() == 0,
{
}

/// The words of a summary give the lengths of the lists, each by its name.
pub proof fn lemma_summary_gives_the_counts(report: ReportModel)
    ensures
        split(summary_line(report), ' ') == seq![
            "kept="@ + decimal(report.kept.len()),
            "removed="@ + decimal(report.removed.len()),
            "would_remove="@ + decimal(report.would_remove.len()),
            "too_young="@ + decimal(report.too_young.len()),
            "unparseable="@ + decimal(report.unparseable.len()),
            "errors="@ + decimal(report.errors.len()),
        ],
{
    reveal_strlit("kept=");
    let one = "kept="@ + decimal(report.kept.len());
    lemma_word("kept="@, report.kept.len());
    let two = one + " removed="@ + decimal(report.removed.len());
    assert(split(two, ' ') == split(one, ' ').push("removed="@ + decimal(report.removed.len())))
        by {
        reveal_strlit("removed=");
        reveal_strlit(" removed=");
        lemma_next_word(one, " removed="@, "removed="@, report.removed.len());
    }
    let three = two + " would_remove="@ + decimal(report.would_remove.len());
    assert(split(three, ' ') == split(two, ' ').push(
        "would_remove="@ + decimal(report.would_remove.len()),
    )) by {
        reveal_strlit("would_remove=");
        reveal_strlit(" would_remove=");
        lemma_next_word(two, " would_remove="@, "would_remove="@, report.would_remove.len());
    }
    let four = three + " too_young="@ + decimal(report.too_young.len());
    assert(split(four, ' ') == split(three, ' ').push(
        "too_young="@ + decimal(report.too_young.len()),
    )) by {
        reveal_strlit("too_young=");
        reveal_strlit(" too_young=");
        lemma_next_word(three, " too_young="@, "too_young="@, report.too_young.len());
    }
    let five = four + " unparseable="@ + decimal(report.unparseable.len());
    assert(split(five, ' ') == split(four, ' ').push(
        "unparseable="@ + decimal(report.unparseable.len()),
    )) by {
        reveal_strlit("unparseable=");
        reveal_strlit(" unparseable=");
        lemma_next_word(four, " unparseable="@, "unparseable="@, report.unparseable.len());
    }
    let six = five + " errors="@ + decimal(report.errors.len());
    assert(split(six, ' ') == split(five, ' ').push("errors="@ + decimal(report.errors.len())))
        by {
        reveal_strlit("errors=");
        reveal_strlit(" errors=");
        lemma_next_word(five, " errors="@, "errors="@, report.errors.len());
    }
    assert(summary_line(report) == six);
}

proof fn lemma_next_word(whole: Seq<char>, gap: Seq<char>, label: Seq<char>, n: nat)
    requires
        gap =~= seq![' '] + label,
        !label.contains(' '),
    ensures
        split(whole + gap + decimal(n), ' ') == split(whole, ' ').push(label + decimal(n)),
{
    lemma_split_label(whole, gap, label, decimal(n), ' ');
    lemma_word(label, n);
}

proof fn lemma_word(label: Seq<char>, n: nat)
    requires
        !label.contains(' '),
    ensures
        split(label + decimal(n), ' ') == seq![label + decimal(n)],
{
    lemma_decimal_reads_back(n);
    let word = label + decimal(n);
    if word.contains(' ') {
        let k = choose|k: int| 0 <= k < word.len() && word[k] == ' ';
        if k < label.len() {
            assert(label[k] == ' ');
        } else {
            assert(is_digit(decimal(n)[k - label.len()]));
        }
    }
    lemma_split_one(word, ' ');
}

/// Each item of a listing is looked at by itself, and against all markers of the
/// listing; what the listing could not give is reported at the directory.
pub proof fn lemma_items_are_looked_at_one_by_one(
    listing: Seq<Result<Entry, String>>,
    directory: Seq<u8>,
    minimum_age: TimeSpan,
    e: int,
)
    requires
        0 <= e < listing.len(),
    ensures
        findings(listing, directory, minimum_age).len() == listing.len(),
        listing[e] matches Err(reason) ==> findings(listing, directory, minimum_age)[e]
            == FindingModel::Unreadable(directory, reason@),
        listing[e] matches Ok(entry) ==> findings(listing, directory, minimum_age)[e] == finding(
            entry,
            pinned_names(listing),
            minimum_age,
        ),
{
}

/// A dump to decide on is pinned if and only if it is among what markers pin.
pub proof fn lemma_candidates_know_their_markers(
    entry: Entry,
    pinned: Seq<Seq<char>>,
    minimum_age: TimeSpan,
)
    ensures
        finding(entry, pinned, minimum_age) matches FindingModel::Candidate(_, _, retained)
            ==> retained == is_pinned(entry.path@, pinned),
{
}

} // verus!
