//! The lines that a check prints instead of acting.

use vstd::prelude::*;
use vstd::string::*;
use vstd::utf8::*;

use crate::dump::{parsed_path, CoredumpFile, NameFault, ParseError};
use crate::duration::TimeSpan;
use crate::quota::{Decision, KeepReason, RemoveReason, Verdict};
use crate::scan::{
    finding_models, findings, is_pinned, pinned_names, survey, Entry, Finding, FindingModel,
};
use crate::text::{decimal, decimal_of, lemma_split_label, lemma_split_one, split, text_of};

verus! {

/// An item of a listing as a check takes it: a file that could not be looked at
/// has no known age.
pub open spec fn without_fault(item: Result<Entry, String>) -> Result<Entry, String> {
    match item {
        Ok(entry) => Ok(
            Entry {
                age: Ok(
                    match entry.age {
                        Ok(age) => age,
                        Err(_) => None,
                    },
                ),
                ..entry
            },
        ),
        Err(reason) => Err(reason),
    }
}

/// A listing as a check takes it.
pub open spec fn without_faults(listing: Seq<Result<Entry, String>>) -> Seq<
    Result<Entry, String>,
> {
    listing.map_values(|item: Result<Entry, String>| without_fault(item))
}

/// Looks at the items of the listing of a directory for a check. A file that
/// could not be looked at is not too young.
pub fn survey_for_check(
    listing: Vec<Result<Entry, String>>,
    directory: &str,
    minimum_age: &TimeSpan,
) -> (found: Vec<Finding>)
    ensures
        finding_models(found@) == findings(
            without_faults(listing@),
            encode_utf8(directory@),
            *minimum_age,
        ),
{
    let ghost all = listing@;
    let mut taken: Vec<Result<Entry, String>> = Vec::new();
    for item in it: listing
        invariant
            all == listing@,
            it.seq() == all,
            taken@ == without_faults(all.take(it.index())),
    {
        let ghost before = taken@;
        match item {
            Ok(entry) => {
                let age = match entry.age {
                    Ok(age) => age,
                    Err(_) => None,
                };
                taken.push(Ok(Entry { path: entry.path, age: Ok(age) }));
            },
            Err(reason) => taken.push(Err(reason)),
        }
        assert(taken@ =~= without_faults(all.take(it.index() + 1)));
    }
    assert(all.take(all.len() as int) =~= all);
    survey(taken, directory, minimum_age)
}

/// The line about a file on which nothing is decided, with the path as it is
/// shown. There is none about a file that is no dump at all.
pub open spec fn finding_line(found: FindingModel, shown_path: Seq<char>) -> Option<Seq<char>> {
    match found {
        FindingModel::Unparseable(_, NameFault::BadField(field)) => Some(
            shown_path + "\tBAD\tfield="@ + field,
        ),
        FindingModel::TooYoung(_, dump) => Some(
            shown_path + "\tTOO_YOUNG\tprocess_name="@ + dump.comm,
        ),
        _ => None,
    }
}

/// The line about a file on which nothing is decided.
pub fn describe_finding(found: &Finding, shown_path: &str) -> (line: Option<String>)
    ensures
        text_of(line) == finding_line(found@, shown_path@),
{
    match found {
        Finding::Unparseable(_, ParseError::BadField(field)) => {
            let mut line = String::from_str(shown_path);
            line.append("\tBAD\tfield=");
            line.append(field);
            Some(line)
        },
        Finding::TooYoung(dump) => {
            let mut line = String::from_str(shown_path);
            line.append("\tTOO_YOUNG\tprocess_name=");
            line.append(dump.comm.as_str());
            Some(line)
        },
        _ => None,
    }
}

/// The line about what would become of a dump.
pub open spec fn verdict_line(v: Verdict, comm: Seq<char>, shown_path: Seq<char>) -> Seq<char> {
    match v {
        Verdict::Retained => shown_path + "\tKEEP\tprocess_name="@ + comm + "\treason=Retained"@,
        Verdict::KeptByRule(rule) => shown_path + "\tKEEP\tprocess_name="@ + comm + "\trule="@
            + rule,
        Verdict::NoRuleMatched => shown_path + "\tREMOVE\tprocess_name="@ + comm
            + "\treason=NoRuleMatched"@,
        Verdict::KeepCountExceeded { rule, keep_count } => shown_path + "\tREMOVE\tprocess_name="@
            + comm + "\treason=KeepCountExceeded\trule="@ + rule + "\tkeep_count="@ + decimal(
            keep_count as nat,
        ),
    }
}

/// The line about what would become of a dump.
pub fn describe_decision(dump: &CoredumpFile, decision: &Decision, shown_path: &str) -> (line:
    String)
    ensures
        line@ == verdict_line(decision@, dump.comm@, shown_path@),
{
    let mut line = String::from_str(shown_path);
    match decision {
        Decision::Keep(reason) => {
            line.append("\tKEEP\tprocess_name=");
            line.append(dump.comm.as_str());
            match reason {
                KeepReason::Retained => {
                    line.append("\treason=Retained");
                },
                KeepReason::Rule(rule) => {
                    line.append("\trule=");
                    line.append(rule.as_str());
                },
            }
        },
        Decision::Remove(reason) => {
            line.append("\tREMOVE\tprocess_name=");
            line.append(dump.comm.as_str());
            match reason {
                RemoveReason::NoRuleMatched => {
                    line.append("\treason=NoRuleMatched");
                },
                RemoveReason::KeepCountExceeded { rule, keep_count } => {
                    line.append("\treason=KeepCountExceeded\trule=");
                    line.append(rule.as_str());
                    line.append("\tkeep_count=");
                    line.append(decimal_of(*keep_count as u64).as_str());
                },
            }
        },
    }
    line
}

proof fn lemma_line_starts(
    shown_path: Seq<char>,
    middle: Seq<char>,
    word: Seq<char>,
    comm: Seq<char>,
)
    requires
        middle =~= seq!['\t'] + word + seq!['\t'] + "process_name="@,
        !word.contains('\t'),
    ensures
        split(shown_path + middle + comm, '\t') == split(shown_path, '\t').push(word) + split(
            "process_name="@ + comm,
            '\t',
        ),
{
    let first = seq!['\t'] + word;
    let second = seq!['\t'] + "process_name="@;
    let nothing = Seq::<char>::empty();
    lemma_split_label(shown_path, first, word, nothing, '\t');
    assert(word + nothing =~= word);
    lemma_split_one(word, '\t');
    lemma_split_label(shown_path + first + nothing, second, "process_name="@, comm, '\t');
    assert(shown_path + middle + comm =~= shown_path + first + nothing + second + comm);
}

proof fn lemma_line_goes_on(
    whole: Seq<char>,
    gap: Seq<char>,
    label: Seq<char>,
    value: Seq<char>,
)
    requires
        gap =~= seq!['\t'] + label,
    ensures
        split(whole + gap + value, '\t') == split(whole, '\t') + split(label + value, '\t'),
{
    lemma_split_label(whole, gap, label, value, '\t');
}

/// The fields of a line about a dump, between tabs: the path, whether it stays,
/// the name of the process, and why.
pub proof fn lemma_verdict_fields(v: Verdict, comm: Seq<char>, shown_path: Seq<char>)
    ensures
        ({
            let stays = v is Retained || v is KeptByRule;
            let start = split(shown_path, '\t').push(
                if stays {
                    "KEEP"@
                } else {
                    "REMOVE"@
                },
            ) + split("process_name="@ + comm, '\t');
            split(verdict_line(v, comm, shown_path), '\t') == match v {
                Verdict::Retained => start.push("reason=Retained"@),
                Verdict::KeptByRule(rule) => start + split("rule="@ + rule, '\t'),
                Verdict::NoRuleMatched => start.push("reason=NoRuleMatched"@),
                Verdict::KeepCountExceeded { rule, keep_count } => start.push(
                    "reason=KeepCountExceeded"@,
                ) + split("rule="@ + rule, '\t') + split(
                    "keep_count="@ + decimal(keep_count as nat),
                    '\t',
                ),
            }
        }),
{
    let nothing = Seq::<char>::empty();
    reveal_strlit("process_name=");
    if v is Retained || v is KeptByRule {
        reveal_strlit("\tKEEP\tprocess_name=");
        reveal_strlit("KEEP");
        lemma_line_starts(shown_path, "\tKEEP\tprocess_name="@, "KEEP"@, comm);
    } else {
        reveal_strlit("\tREMOVE\tprocess_name=");
        reveal_strlit("REMOVE");
        lemma_line_starts(shown_path, "\tREMOVE\tprocess_name="@, "REMOVE"@, comm);
    }
    let keep = shown_path + "\tKEEP\tprocess_name="@ + comm;
    let remove = shown_path + "\tREMOVE\tprocess_name="@ + comm;
    match v {
        Verdict::Retained => {
            reveal_strlit("\treason=Retained");
            reveal_strlit("reason=Retained");
            lemma_line_goes_on(keep, "\treason=Retained"@, "reason=Retained"@, nothing);
            assert("reason=Retained"@ + nothing =~= "reason=Retained"@);
            lemma_split_one("reason=Retained"@, '\t');
            assert(verdict_line(v, comm, shown_path) =~= keep + "\treason=Retained"@ + nothing);
        },
        Verdict::KeptByRule(rule) => {
            reveal_strlit("\trule=");
            reveal_strlit("rule=");
            lemma_line_goes_on(keep, "\trule="@, "rule="@, rule);
        },
        Verdict::NoRuleMatched => {
            reveal_strlit("\treason=NoRuleMatched");
            reveal_strlit("reason=NoRuleMatched");
            lemma_line_goes_on(remove, "\treason=NoRuleMatched"@, "reason=NoRuleMatched"@, nothing);
            assert("reason=NoRuleMatched"@ + nothing =~= "reason=NoRuleMatched"@);
            lemma_split_one("reason=NoRuleMatched"@, '\t');
            assert(verdict_line(v, comm, shown_path) =~= remove + "\treason=NoRuleMatched"@
                + nothing);
        },
        Verdict::KeepCountExceeded { rule, keep_count } => {
            reveal_strlit("\treason=KeepCountExceeded\trule=");
            reveal_strlit("reason=KeepCountExceeded");
            reveal_strlit("rule=");
            reveal_strlit("\tkeep_count=");
            reveal_strlit("keep_count=");
            let why = seq!['\t'] + "reason=KeepCountExceeded"@;
            let tab_rule = seq!['\t'] + "rule="@;
            lemma_line_goes_on(remove, why, "reason=KeepCountExceeded"@, nothing);
            assert("reason=KeepCountExceeded"@ + nothing =~= "reason=KeepCountExceeded"@);
            lemma_split_one("reason=KeepCountExceeded"@, '\t');
            let one = remove + why + nothing;
            lemma_line_goes_on(one, tab_rule, "rule="@, rule);
            let two = one + tab_rule + rule;
            let count = decimal(keep_count as nat);
            lemma_line_goes_on(two, "\tkeep_count="@, "keep_count="@, count);
            assert("\treason=KeepCountExceeded\trule="@ =~= why + tab_rule);
            assert(verdict_line(v, comm, shown_path) =~= two + "\tkeep_count="@ + count);
        },
    }
}

/// The fields of a line about a file on which nothing is decided, between tabs.
/// There is a line about a dump that is too young and about a name with a field
/// that cannot be read, and about nothing else.
pub proof fn lemma_finding_fields(found: FindingModel, shown_path: Seq<char>)
    ensures
        finding_line(found, shown_path) is Some <==> found is TooYoung || (
        found matches FindingModel::Unparseable(_, fault) && fault is BadField),
        found matches FindingModel::TooYoung(_, dump) ==> split(
            finding_line(found, shown_path)->0,
            '\t',
        ) == split(shown_path, '\t').push("TOO_YOUNG"@) + split("process_name="@ + dump.comm, '\t'),
        found matches FindingModel::Unparseable(_, NameFault::BadField(field)) ==> split(
            finding_line(found, shown_path)->0,
            '\t',
        ) == split(shown_path, '\t').push("BAD"@) + split("field="@ + field, '\t'),
{
    match found {
        FindingModel::TooYoung(_, dump) => {
            reveal_strlit("process_name=");
            reveal_strlit("\tTOO_YOUNG\tprocess_name=");
            reveal_strlit("TOO_YOUNG");
            lemma_line_starts(
                shown_path,
                "\tTOO_YOUNG\tprocess_name="@,
                "TOO_YOUNG"@,
                dump.comm,
            );
        },
        FindingModel::Unparseable(_, NameFault::BadField(field)) => {
            reveal_strlit("\tBAD\tfield=");
            reveal_strlit("BAD");
            reveal_strlit("field=");
            let nothing = Seq::<char>::empty();
            let bad = seq!['\t'] + "BAD"@;
            let tab_field = seq!['\t'] + "field="@;
            lemma_line_goes_on(shown_path, bad, "BAD"@, nothing);
            assert("BAD"@ + nothing =~= "BAD"@);
            lemma_split_one("BAD"@, '\t');
            lemma_line_goes_on(shown_path + bad + nothing, tab_field, "field="@, field);
            assert(finding_line(found, shown_path)->0 =~= shown_path + bad + nothing + tab_field
                + field);
        },
        _ => {},
    }
}

proof fn lemma_same_markers(listing: Seq<Result<Entry, String>>)
    ensures
        pinned_names(without_faults(listing)) == pinned_names(listing),
    decreases listing.len(),
{
    if listing.len() > 0 {
        lemma_same_markers(listing.drop_last());
        assert(without_faults(listing).drop_last() =~= without_faults(listing.drop_last()));
    }
}

/// A check finds what a scan finds, but for the dumps that could not be looked
/// at: those it decides on, as if they were old enough.
pub proof fn lemma_check_finds_what_a_scan_finds(
    listing: Seq<Result<Entry, String>>,
    directory: Seq<u8>,
    minimum_age: TimeSpan,
    e: int,
)
    requires
        0 <= e < listing.len(),
    ensures
        ({
            let scanned = findings(listing, directory, minimum_age);
            let checked = findings(without_faults(listing), directory, minimum_age);
            &&& checked.len() == listing.len()
            &&& listing[e] is Err ==> checked[e] == scanned[e]
            &&& listing[e] matches Ok(entry) ==> if entry.age is Ok || !(scanned[e] is Unreadable) {
                checked[e] == scanned[e]
            } else {
                &&& checked[e] is Candidate
                &&& checked[e]->Candidate_0 == entry.path@
                &&& Ok::<_, NameFault>(checked[e]->Candidate_1) == parsed_path(entry.path@)
                &&& checked[e]->Candidate_2 == is_pinned(entry.path@, pinned_names(listing))
            }
        }),
{
    lemma_same_markers(listing);
}

} // verus!
