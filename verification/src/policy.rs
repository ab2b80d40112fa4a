//! Rules in the form in which dumps are held against them.

use vstd::prelude::*;
use vstd::string::*;

use crate::config::{
    config_of, is_group_by_field, is_unconstrained, lemma_group_fields_are_known, named_rules,
    not_group_by_field, Config, Rule, RuleModel,
};
use crate::document::Node;
use crate::dump::{CoredumpFile, DumpName, COMM_MAX_LEN};
use crate::find::{first_where, is_first, lemma_first_found, lemma_first_where};
use crate::journal::{no_journal, JournalContext, JournalModel};
use crate::pattern::{
    glob_fault, glob_match, glob_min_match_bytes, glob_min_match_length, min_match_bytes,
    min_match_length, pattern_message, GlobPattern, PatternError,
};
use crate::text::{
    debug_format, debug_text, decimal, decimal_of, lemma_says, says, str_eq, text_of, texts,
};

verus! {

#[derive(Debug)]
pub struct Policy {
    pub rules: Vec<CompiledRule>,
}

#[derive(Debug)]
pub struct CompiledRule {
    pub name: String,
    pub process_name: Vec<GlobPattern>,
    pub executable_path: Vec<GlobPattern>,
    pub command_line: Vec<GlobPattern>,
    pub signal: Vec<String>,
    /// Whether only dumps of certain users match.
    pub limits_users: bool,
    /// The uids of these users, in ascending order, each once.
    pub user_ids: Vec<u32>,
    pub group_by: Vec<GroupField>,
    pub keep_count: Option<u32>,
    pub needs_journal: bool,
    pub is_unconstrained: bool,
}

/// A field by which dumps are grouped.
#[derive(Debug, Clone, Copy, PartialEq, Eq, Hash)]
pub enum GroupField {
    ProcessName,
    UserId,
    ExecutablePath,
    CommandLine,
    Signal,
    BootId,
}

/// The field that a name stands for.
pub open spec fn group_field(name: Seq<char>) -> Option<GroupField> {
    if name == "process_name"@ {
        Some(GroupField::ProcessName)
    } else if name == "user_id"@ {
        Some(GroupField::UserId)
    } else if name == "executable_path"@ {
        Some(GroupField::ExecutablePath)
    } else if name == "command_line"@ {
        Some(GroupField::CommandLine)
    } else if name == "signal"@ {
        Some(GroupField::Signal)
    } else if name == "boot_id"@ {
        Some(GroupField::BootId)
    } else {
        None
    }
}

/// Whether only the journal knows a field.
pub open spec fn is_journal_field(field: GroupField) -> bool {
    match field {
        GroupField::ExecutablePath | GroupField::CommandLine | GroupField::Signal => true,
        _ => false,
    }
}

/// What a dump has in a field.
pub open spec fn group_value(
    field: GroupField,
    dump: DumpName,
    context: JournalModel,
) -> Option<Seq<char>> {
    match field {
        GroupField::ProcessName => Some(dump.comm),
        GroupField::UserId => Some(decimal(dump.uid as nat)),
        GroupField::ExecutablePath => context.executable_path,
        GroupField::CommandLine => context.command_line,
        GroupField::Signal => context.signal,
        GroupField::BootId => Some(dump.boot_id),
    }
}

fn copy_text(s: &Option<String>) -> (copy: Option<String>)
    ensures
        text_of(copy) == text_of(*s),
{
    match s {
        Some(t) => Some(t.clone()),
        None => None,
    }
}

impl GroupField {
    /// The field with this name.
    pub fn parse(s: &str) -> (field: Option<GroupField>)
        ensures
            field == group_field(s@),
    {
        if str_eq(s, "process_name") {
            Some(GroupField::ProcessName)
        } else if str_eq(s, "user_id") {
            Some(GroupField::UserId)
        } else if str_eq(s, "executable_path") {
            Some(GroupField::ExecutablePath)
        } else if str_eq(s, "command_line") {
            Some(GroupField::CommandLine)
        } else if str_eq(s, "signal") {
            Some(GroupField::Signal)
        } else if str_eq(s, "boot_id") {
            Some(GroupField::BootId)
        } else {
            None
        }
    }

    /// Whether only the journal knows the field.
    pub fn needs_journal(&self) -> (b: bool)
        ensures
            b == is_journal_field(*self),
    {
        match self {
            GroupField::ExecutablePath | GroupField::CommandLine | GroupField::Signal => true,
            _ => false,
        }
    }

    /// What a dump has in the field.
    pub fn extract(&self, dump: &CoredumpFile, context: &JournalContext) -> (value: Option<String>)
        ensures
            text_of(value) == group_value(*self, dump@, context@),
    {
        match self {
            GroupField::ProcessName => Some(dump.comm.clone()),
            GroupField::UserId => Some(decimal_of(dump.uid as u64)),
            GroupField::ExecutablePath => copy_text(&context.executable_path),
            GroupField::CommandLine => copy_text(&context.command_line),
            GroupField::Signal => copy_text(&context.signal),
            GroupField::BootId => Some(dump.boot_id.clone()),
        }
    }
}

/// Exactly the names that a configuration may group by stand for a field.
pub proof fn lemma_group_fields_agree(name: Seq<char>)
    ensures
        group_field(name) is Some <==> is_group_by_field(name),
{
}

/// Why a configuration makes no policy.
#[derive(Debug)]
pub enum PolicyError {
    Pattern(PatternError),
    UnknownUser(String),
    UnknownGroupField(String),
    ProcessNameTooLong { rule_name: String, pattern: String, min_length: usize },
}

/// The model of a [`PolicyError`].
pub enum PolicyFault {
    Pattern((usize, Seq<char>)),
    UnknownUser(Seq<char>),
    UnknownGroupField(Seq<char>),
    ProcessNameTooLong { rule_name: Seq<char>, pattern: Seq<char>, min_length: nat },
}

impl View for PolicyError {
    type V = PolicyFault;

    open spec fn view(&self) -> PolicyFault {
        match self {
            PolicyError::Pattern(e) => PolicyFault::Pattern(e@),
            PolicyError::UnknownUser(name) => PolicyFault::UnknownUser(name@),
            PolicyError::UnknownGroupField(name) => PolicyFault::UnknownGroupField(name@),
            PolicyError::ProcessNameTooLong { rule_name, pattern, min_length } =>
                PolicyFault::ProcessNameTooLong {
                rule_name: rule_name@,
                pattern: pattern@,
                min_length: *min_length as nat,
            },
        }
    }
}

impl From<PatternError> for PolicyError {
    fn from(value: PatternError) -> (e: PolicyError) {
        PolicyError::Pattern(value)
    }
}

impl vstd::std_specs::convert::FromSpecImpl<PatternError> for PolicyError {
    open spec fn obeys_from_spec() -> bool {
        true
    }

    open spec fn from_spec(value: PatternError) -> PolicyError {
        PolicyError::Pattern(value)
    }
}

/// The users that a configuration names, each with its uid.
#[derive(Debug)]
pub struct Users {
    pub entries: Vec<(String, u32)>,
}

pub open spec fn is_user(name: Seq<char>) -> spec_fn((String, u32)) -> bool {
    |e: (String, u32)| e.0@ == name
}

/// The uid of a user, if the user is known.
pub open spec fn uid_of(users: Seq<(String, u32)>, name: Seq<char>) -> Option<u32> {
    match first_where(users, is_user(name)) {
        Some(i) => Some(users[i].1),
        None => None,
    }
}

impl Users {
    /// The uid of a user.
    pub fn resolve_user_name(&self, name: &str) -> (uid: Option<u32>)
        ensures
            uid == uid_of(self.entries@, name@),
    {
        let mut i: usize = 0;
        while i < self.entries.len()
            invariant
                i <= self.entries@.len(),
                forall|j: int| 0 <= j < i ==> !is_user(name@)(#[trigger] self.entries@[j]),
            decreases self.entries@.len() - i,
        {
            if str_eq(self.entries[i].0.as_str(), name) {
                proof {
                    assert(is_first(self.entries@, is_user(name@), i as int));
                    lemma_first_found(self.entries@, is_user(name@), i as int);
                }
                return Some(self.entries[i].1);
            }
            i = i + 1;
        }
        proof {
            lemma_first_where(self.entries@, is_user(name@));
        }
        None
    }
}

/// The texts of compiled patterns.
pub open spec fn patterns(globs: Seq<GlobPattern>) -> Seq<Seq<char>> {
    globs.map_values(|p: GlobPattern| p.pattern())
}

/// Patterns that are refused: what they must consume to match is longer, in
/// bytes, than a process name can be.
pub open spec fn over_long() -> spec_fn(Seq<char>) -> bool {
    |pattern: Seq<char>| min_match_bytes(pattern) > COMM_MAX_LEN
}

pub open spec fn is_bad_glob() -> spec_fn(Seq<char>) -> bool {
    |pattern: Seq<char>| glob_fault(pattern) is Some
}

/// What is wrong with the first invalid pattern of a list.
pub open spec fn globs_fault(list: Seq<Seq<char>>) -> Option<PolicyFault> {
    match first_where(list, is_bad_glob()) {
        Some(i) => Some(PolicyFault::Pattern(glob_fault(list[i])->0)),
        None => None,
    }
}

pub open spec fn is_unknown_user(users: Seq<(String, u32)>) -> spec_fn(Seq<char>) -> bool {
    |name: Seq<char>| uid_of(users, name) is None
}

/// What keeps a rule from being compiled: process name patterns that are too
/// long come first, then invalid patterns, unknown users and unknown group
/// fields, each in the order of the rule.
pub open spec fn rule_fault(
    name: Seq<char>,
    rule: RuleModel,
    users: Seq<(String, u32)>,
) -> Option<PolicyFault> {
    match first_where(rule.process_name, over_long()) {
        Some(i) => Some(
            PolicyFault::ProcessNameTooLong {
                rule_name: name,
                pattern: rule.process_name[i],
                min_length: min_match_length(rule.process_name[i]),
            },
        ),
        None => match globs_fault(rule.process_name) {
            Some(fault) => Some(fault),
            None => match globs_fault(rule.executable_path) {
                Some(fault) => Some(fault),
                None => match globs_fault(rule.command_line) {
                    Some(fault) => Some(fault),
                    None => match first_where(rule.user_name, is_unknown_user(users)) {
                        Some(i) => Some(PolicyFault::UnknownUser(rule.user_name[i])),
                        None => match first_where(rule.group_by, not_group_by_field()) {
                            Some(i) => Some(PolicyFault::UnknownGroupField(rule.group_by[i])),
                            None => None,
                        },
                    },
                },
            },
        },
    }
}

pub open spec fn is_ascending(ids: Seq<u32>) -> bool {
    forall|i: int, j: int| 0 <= i < j < ids.len() ==> ids[i] < ids[j]
}

/// Whether one of the names is that of a user.
pub open spec fn is_named(names: Seq<Seq<char>>, users: Seq<(String, u32)>, uid: u32) -> bool {
    exists|k: int| 0 <= k < names.len() && uid_of(users, #[trigger] names[k]) == Some(uid)
}

/// Whether a rule matches only dumps of certain users.
pub open spec fn names_users(rule: RuleModel) -> bool {
    rule.user_id.len() > 0 || rule.user_name.len() > 0
}

/// Whether a user is as a rule says that gives uids or user names: among its
/// uids, if it gives any, and among its user names, if it gives any.
pub open spec fn names_uid(rule: RuleModel, users: Seq<(String, u32)>, uid: u32) -> bool {
    &&& names_users(rule)
    &&& rule.user_id.len() == 0 || rule.user_id.contains(uid)
    &&& rule.user_name.len() == 0 || is_named(rule.user_name, users, uid)
}

/// Whether a compiled rule is what a rule of a configuration compiles to.
pub open spec fn is_compiled_from(
    compiled: CompiledRule,
    name: Seq<char>,
    rule: RuleModel,
    users: Seq<(String, u32)>,
) -> bool {
    &&& compiled.name@ == name
    &&& patterns(compiled.process_name@) == rule.process_name
    &&& patterns(compiled.executable_path@) == rule.executable_path
    &&& patterns(compiled.command_line@) == rule.command_line
    &&& texts(compiled.signal@) == rule.signal
    &&& compiled.limits_users == names_users(rule)
    &&& is_ascending(compiled.user_ids@)
    &&& forall|uid: u32|
        compiled.user_ids@.contains(uid) <==> #[trigger] names_uid(rule, users, uid)
    &&& compiled.group_by@ == rule.group_by.map_values(|n: Seq<char>| group_field(n)->0)
    &&& compiled.keep_count == rule.keep_count
    &&& compiled.needs_journal == (rule.executable_path.len() > 0 || rule.command_line.len() > 0
        || rule.signal.len() > 0 || groups_by_journal(compiled.group_by@))
    &&& compiled.is_unconstrained == is_unconstrained(rule)
}

/// Whether one of the fields is known to the journal only.
pub open spec fn groups_by_journal(fields: Seq<GroupField>) -> bool {
    exists|i: int| 0 <= i < fields.len() && is_journal_field(#[trigger] fields[i])
}

/// Whether a text matches one of the patterns.
pub open spec fn any_match(list: Seq<Seq<char>>, text: Seq<char>) -> bool {
    exists|i: int| 0 <= i < list.len() && glob_match(#[trigger] list[i], text)
}

/// Whether a text that may be missing matches one of the patterns.
pub open spec fn known_and_matches(list: Seq<Seq<char>>, text: Option<Seq<char>>) -> bool {
    text is Some && any_match(list, text->0)
}

/// Whether every field that a compiled rule constrains is as it must be.
pub open spec fn fields_match(
    rule: CompiledRule,
    dump: DumpName,
    context: JournalModel,
) -> bool {
    &&& rule.process_name@.len() == 0 || any_match(patterns(rule.process_name@), dump.comm)
    &&& !rule.limits_users || rule.user_ids@.contains(dump.uid)
    &&& rule.executable_path@.len() == 0 || known_and_matches(
        patterns(rule.executable_path@),
        context.executable_path,
    )
    &&& rule.command_line@.len() == 0 || known_and_matches(
        patterns(rule.command_line@),
        context.command_line,
    )
    &&& rule.signal@.len() == 0 || (context.signal is Some && texts(rule.signal@).contains(
        context.signal->0,
    ))
}

/// Whether a compiled rule matches a dump.
pub open spec fn rule_matches(rule: CompiledRule, dump: DumpName, context: JournalModel) -> bool {
    rule.is_unconstrained || fields_match(rule, dump, context)
}

/// Compiles a list of patterns.
fn compile_globs(list: &Vec<String>) -> (r: Result<Vec<GlobPattern>, PatternError>)
    ensures
        match r {
            Ok(globs) => globs_fault(texts(list@)) is None && patterns(globs@) == texts(list@),
            Err(e) => globs_fault(texts(list@)) == Some(PolicyFault::Pattern(e@)),
        },
{
    let ghost all = texts(list@);
    let mut globs: Vec<GlobPattern> = Vec::new();
    let mut i: usize = 0;
    while i < list.len()
        invariant
            all == texts(list@),
            i <= list@.len(),
            globs@.len() == i,
            forall|j: int|
                0 <= j < i ==> !is_bad_glob()(#[trigger] all[j]) && globs@[j].pattern() == all[j],
        decreases list@.len() - i,
    {
        assert(all[i as int] == list@[i as int]@);
        match GlobPattern::new(list[i].as_str()) {
            Ok(glob) => {
                globs.push(glob);
            },
            Err(e) => {
                proof {
                    assert(is_first(all, is_bad_glob(), i as int));
                    lemma_first_found(all, is_bad_glob(), i as int);
                }
                return Err(e);
            },
        }
        i = i + 1;
    }
    proof {
        lemma_first_where(all, is_bad_glob());
    }
    assert(patterns(globs@) =~= all);
    Ok(globs)
}

/// Puts a uid into an ascending list, unless it is there already.
fn insert_uid(ids: &mut Vec<u32>, uid: u32)
    requires
        is_ascending(old(ids)@),
    ensures
        is_ascending(final(ids)@),
        forall|u: u32| #[trigger] final(ids)@.contains(u) <==> old(ids)@.contains(u) || u == uid,
{
    let mut i: usize = 0;
    while i < ids.len() && ids[i] < uid
        invariant
            i <= ids@.len(),
            ids@ == old(ids)@,
            forall|j: int| 0 <= j < i ==> ids@[j] < uid,
        decreases ids@.len() - i,
    {
        i = i + 1;
    }
    if i < ids.len() && ids[i] == uid {
        return;
    }
    let ghost before = ids@;
    ids.insert(i, uid);
    assert forall|u: u32| #[trigger] ids@.contains(u) <==> before.contains(u) || u == uid by {
        if before.contains(u) {
            let k = choose|k: int| 0 <= k < before.len() && before[k] == u;
            if k < i {
                assert(ids@[k] == u);
            } else {
                assert(ids@[k + 1] == u);
            }
        }
        if u == uid {
            assert(ids@[i as int] == u);
        }
        if ids@.contains(u) && u != uid {
            let k = choose|k: int| 0 <= k < ids@.len() && ids@[k] == u;
            if k < i {
                assert(before[k] == u);
            } else {
                assert(before[k - 1] == u);
            }
        }
    }
}

/// Puts uids in ascending order, each once.
fn sorted(list: &Vec<u32>) -> (ids: Vec<u32>)
    ensures
        is_ascending(ids@),
        forall|uid: u32| #[trigger] ids@.contains(uid) <==> list@.contains(uid),
{
    let mut ids: Vec<u32> = Vec::new();
    let mut i: usize = 0;
    while i < list.len()
        invariant
            i <= list@.len(),
            is_ascending(ids@),
            forall|uid: u32| #[trigger] ids@.contains(uid) <==> list@.take(i as int).contains(uid),
        decreases list@.len() - i,
    {
        let ghost before = ids@;
        insert_uid(&mut ids, list[i]);
        proof {
            let taken = list@.take(i as int);
            let more = list@.take(i + 1);
            assert(more =~= taken.push(list@[i as int]));
            assert forall|uid: u32| #[trigger] ids@.contains(uid) <==> more.contains(uid) by {
                assert(before.contains(uid) <==> taken.contains(uid));
                if taken.contains(uid) {
                    let k = choose|k: int| 0 <= k < taken.len() && taken[k] == uid;
                    assert(more[k] == uid);
                }
                if uid == list@[i as int] {
                    assert(more[i as int] == uid);
                }
                if more.contains(uid) && uid != list@[i as int] {
                    let k = choose|k: int| 0 <= k < more.len() && more[k] == uid;
                    assert(taken[k] == uid);
                }
            }
        }
        i = i + 1;
    }
    assert(list@.take(i as int) =~= list@);
    ids
}

/// The uids of named users, in ascending order, each once.
fn resolve_all(names: &Vec<String>, users: &Users) -> (r: Result<Vec<u32>, PolicyError>)
    ensures
        match r {
            Ok(ids) => {
                &&& first_where(texts(names@), is_unknown_user(users.entries@)) is None
                &&& is_ascending(ids@)
                &&& forall|uid: u32| #[trigger]
                    ids@.contains(uid) <==> is_named(texts(names@), users.entries@, uid)
            },
            Err(e) => first_where(texts(names@), is_unknown_user(users.entries@)) matches Some(i)
                && e@ == PolicyFault::UnknownUser(texts(names@)[i]),
        },
{
    let ghost all = texts(names@);
    let ghost known = users.entries@;
    let mut ids: Vec<u32> = Vec::new();
    let mut n: usize = 0;
    while n < names.len()
        invariant
            all == texts(names@),
            known == users.entries@,
            n <= names@.len(),
            is_ascending(ids@),
            forall|uid: u32| #[trigger]
                ids@.contains(uid) <==> exists|k: int|
                    0 <= k < n && uid_of(known, #[trigger] all[k]) == Some(uid),
            forall|j: int| 0 <= j < n ==> !is_unknown_user(known)(#[trigger] all[j]),
        decreases names@.len() - n,
    {
        assert(all[n as int] == names@[n as int]@);
        match users.resolve_user_name(names[n].as_str()) {
            Some(uid) => {
                let ghost before = ids@;
                insert_uid(&mut ids, uid);
                assert forall|u: u32| #[trigger] ids@.contains(u) <==> exists|k: int|
                    0 <= k < n + 1 && uid_of(known, #[trigger] all[k]) == Some(u) by {
                    assert(before.contains(u) <==> exists|k: int|
                        0 <= k < n && uid_of(known, #[trigger] all[k]) == Some(u));
                    if u == uid {
                        assert(uid_of(known, all[n as int]) == Some(u));
                    }
                }
            },
            None => {
                proof {
                    assert(is_first(all, is_unknown_user(known), n as int));
                    lemma_first_found(all, is_unknown_user(known), n as int);
                }
                return Err(PolicyError::UnknownUser(names[n].clone()));
            },
        }
        n = n + 1;
    }
    proof {
        lemma_first_where(all, is_unknown_user(known));
    }
    Ok(ids)
}

/// The uids that are in both of two lists, in ascending order, each once.
fn common(a: &Vec<u32>, b: &Vec<u32>) -> (ids: Vec<u32>)
    ensures
        is_ascending(ids@),
        forall|uid: u32| #[trigger]
            ids@.contains(uid) <==> a@.contains(uid) && b@.contains(uid),
{
    let mut ids: Vec<u32> = Vec::new();
    let mut i: usize = 0;
    while i < a.len()
        invariant
            i <= a@.len(),
            is_ascending(ids@),
            forall|uid: u32| #[trigger]
                ids@.contains(uid) <==> b@.contains(uid) && exists|k: int|
                    0 <= k < i && #[trigger] a@[k] == uid,
        decreases a@.len() - i,
    {
        let ghost before = ids@;
        if contains_uid(b, a[i]) {
            insert_uid(&mut ids, a[i]);
        }
        assert forall|uid: u32| #[trigger] ids@.contains(uid) <==> b@.contains(uid) && exists|
            k: int,
        |
            0 <= k < i + 1 && #[trigger] a@[k] == uid by {
            assert(before.contains(uid) <==> b@.contains(uid) && exists|k: int|
                0 <= k < i && #[trigger] a@[k] == uid);
            if uid == a@[i as int] {
                assert(a@[i as int] == uid);
            }
        }
        i = i + 1;
    }
    ids
}

/// Collects the uids of the users whose dumps a rule matches.
fn collect_user_ids(rule: &Rule, users: &Users) -> (r: Result<Vec<u32>, PolicyError>)
    ensures
        match r {
            Ok(ids) => {
                &&& first_where(rule@.user_name, is_unknown_user(users.entries@)) is None
                &&& is_ascending(ids@)
                &&& forall|uid: u32|
                    ids@.contains(uid) <==> #[trigger] names_uid(rule@, users.entries@, uid)
            },
            Err(e) => first_where(rule@.user_name, is_unknown_user(users.entries@)) matches Some(i)
                && e@ == PolicyFault::UnknownUser(rule@.user_name[i]),
        },
{
    let named = match resolve_all(&rule.user_name, users) {
        Ok(ids) => ids,
        Err(e) => return Err(e),
    };
    let numbered = sorted(&rule.user_id);
    assert(rule@.user_name.len() == rule.user_name@.len());
    if rule.user_id.is_empty() {
        Ok(named)
    } else if rule.user_name.is_empty() {
        Ok(numbered)
    } else {
        Ok(common(&numbered, &named))
    }
}

/// Reads the fields by which a rule groups.
fn collect_group_by(group_by: &Vec<String>) -> (r: Result<Vec<GroupField>, PolicyError>)
    ensures
        match r {
            Ok(fields) => {
                &&& first_where(texts(group_by@), not_group_by_field()) is None
                &&& fields@ == texts(group_by@).map_values(|n: Seq<char>| group_field(n)->0)
            },
            Err(e) => first_where(texts(group_by@), not_group_by_field()) matches Some(i) && e@
                == PolicyFault::UnknownGroupField(texts(group_by@)[i]),
        },
{
    let ghost names = texts(group_by@);
    let mut fields: Vec<GroupField> = Vec::new();
    let mut i: usize = 0;
    while i < group_by.len()
        invariant
            names == texts(group_by@),
            i <= group_by@.len(),
            fields@.len() == i,
            forall|j: int|
                0 <= j < i ==> !not_group_by_field()(#[trigger] names[j]) && fields@[j]
                    == group_field(names[j])->0,
        decreases group_by@.len() - i,
    {
        assert(names[i as int] == group_by@[i as int]@);
        proof {
            lemma_group_fields_agree(names[i as int]);
        }
        match GroupField::parse(group_by[i].as_str()) {
            Some(field) => {
                fields.push(field);
            },
            None => {
                proof {
                    assert(is_first(names, not_group_by_field(), i as int));
                    lemma_first_found(names, not_group_by_field(), i as int);
                }
                return Err(PolicyError::UnknownGroupField(group_by[i].clone()));
            },
        }
        i = i + 1;
    }
    proof {
        lemma_first_where(names, not_group_by_field());
    }
    assert(fields@ =~= names.map_values(|n: Seq<char>| group_field(n)->0));
    Ok(fields)
}

fn any_journal_field(fields: &Vec<GroupField>) -> (b: bool)
    ensures
        b == groups_by_journal(fields@),
{
    let mut i: usize = 0;
    while i < fields.len()
        invariant
            i <= fields@.len(),
            forall|j: int| 0 <= j < i ==> !is_journal_field(#[trigger] fields@[j]),
        decreases fields@.len() - i,
    {
        if fields[i].needs_journal() {
            return true;
        }
        i = i + 1;
    }
    false
}

/// The first process name pattern that is too long to match.
fn find_over_long(list: &Vec<String>) -> (found: Option<(usize, usize)>)
    ensures
        match found {
            Some((i, min)) => first_where(texts(list@), over_long()) == Some(i as int) && i
                < list@.len() && min == min_match_length(list@[i as int]@),
            None => first_where(texts(list@), over_long()) is None,
        },
{
    let ghost all = texts(list@);
    let mut i: usize = 0;
    while i < list.len()
        invariant
            all == texts(list@),
            i <= list@.len(),
            forall|j: int| 0 <= j < i ==> !over_long()(#[trigger] all[j]),
        decreases list@.len() - i,
    {
        assert(all[i as int] == list@[i as int]@);
        if glob_min_match_bytes(list[i].as_str()) > COMM_MAX_LEN {
            let min = glob_min_match_length(list[i].as_str());
            proof {
                assert(is_first(all, over_long(), i as int));
                lemma_first_found(all, over_long(), i as int);
            }
            return Some((i, min));
        }
        i = i + 1;
    }
    proof {
        lemma_first_where(all, over_long());
    }
    None
}

fn any_glob_matches(globs: &Vec<GlobPattern>, text: &str) -> (b: bool)
    ensures
        b == any_match(patterns(globs@), text@),
{
    let ghost all = patterns(globs@);
    let mut i: usize = 0;
    while i < globs.len()
        invariant
            all == patterns(globs@),
            i <= globs@.len(),
            forall|j: int| 0 <= j < i ==> !glob_match(#[trigger] all[j], text@),
        decreases globs@.len() - i,
    {
        assert(all[i as int] == globs@[i as int].pattern());
        if globs[i].matches(text) {
            return true;
        }
        i = i + 1;
    }
    false
}

fn contains_uid(ids: &Vec<u32>, uid: u32) -> (b: bool)
    ensures
        b == ids@.contains(uid),
{
    let mut i: usize = 0;
    while i < ids.len()
        invariant
            i <= ids@.len(),
            forall|j: int| 0 <= j < i ==> ids@[j] != uid,
        decreases ids@.len() - i,
    {
        if ids[i] == uid {
            return true;
        }
        i = i + 1;
    }
    false
}

fn contains_text(list: &Vec<String>, text: &str) -> (b: bool)
    ensures
        b == texts(list@).contains(text@),
{
    let ghost all = texts(list@);
    let mut i: usize = 0;
    while i < list.len()
        invariant
            all == texts(list@),
            i <= list@.len(),
            forall|j: int| 0 <= j < i ==> all[j] != text@,
        decreases list@.len() - i,
    {
        assert(all[i as int] == list@[i as int]@);
        if str_eq(list[i].as_str(), text) {
            return true;
        }
        i = i + 1;
    }
    false
}

impl CompiledRule {
    /// Compiles a rule of a configuration.
    pub fn from_rule(name: &str, rule: &Rule, users: &Users) -> (r: Result<
        CompiledRule,
        PolicyError,
    >)
        ensures
            match r {
                Ok(compiled) => rule_fault(name@, rule@, users.entries@) is None
                    && is_compiled_from(compiled, name@, rule@, users.entries@),
                Err(e) => rule_fault(name@, rule@, users.entries@) == Some(e@),
            },
    {
        if let Some((i, min_length)) = find_over_long(&rule.process_name) {
            return Err(
                PolicyError::ProcessNameTooLong {
                    rule_name: name.to_owned(),
                    pattern: rule.process_name[i].clone(),
                    min_length,
                },
            );
        }
        let process_name = match compile_globs(&rule.process_name) {
            Ok(globs) => globs,
            Err(e) => return Err(PolicyError::from(e)),
        };
        let executable_path = match compile_globs(&rule.executable_path) {
            Ok(globs) => globs,
            Err(e) => return Err(PolicyError::from(e)),
        };
        let command_line = match compile_globs(&rule.command_line) {
            Ok(globs) => globs,
            Err(e) => return Err(PolicyError::from(e)),
        };
        let user_ids = match collect_user_ids(rule, users) {
            Ok(ids) => ids,
            Err(e) => return Err(e),
        };
        let group_by = match collect_group_by(&rule.group_by) {
            Ok(fields) => fields,
            Err(e) => return Err(e),
        };
        let needs_journal = !executable_path.is_empty() || !command_line.is_empty()
            || !rule.signal.is_empty() || any_journal_field(&group_by);
        let signal = rule.signal.clone();
        assert(signal@ =~= rule.signal@);
        proof {
            assert(patterns(executable_path@).len() == executable_path@.len());
            assert(patterns(command_line@).len() == command_line@.len());
            assert(rule@.user_name.len() == rule.user_name@.len());
        }
        Ok(
            CompiledRule {
                name: name.to_owned(),
                process_name,
                executable_path,
                command_line,
                signal,
                limits_users: !rule.user_id.is_empty() || !rule.user_name.is_empty(),
                user_ids,
                group_by,
                keep_count: rule.keep_count,
                needs_journal,
                is_unconstrained: rule.is_empty(),
            },
        )
    }

    /// Whether the rule matches a dump.
    pub fn matches(&self, dump: &CoredumpFile, context: &JournalContext) -> (b: bool)
        ensures
            b == rule_matches(*self, dump@, context@),
    {
        if self.is_unconstrained {
            return true;
        }
        if !self.process_name.is_empty() && !any_glob_matches(
            &self.process_name,
            dump.comm.as_str(),
        ) {
            return false;
        }
        if self.limits_users && !contains_uid(&self.user_ids, dump.uid) {
            return false;
        }
        if !self.executable_path.is_empty() {
            match &context.executable_path {
                Some(exe) => if !any_glob_matches(&self.executable_path, exe.as_str()) {
                    return false;
                },
                None => return false,
            }
        }
        if !self.command_line.is_empty() {
            match &context.command_line {
                Some(line) => if !any_glob_matches(&self.command_line, line.as_str()) {
                    return false;
                },
                None => return false,
            }
        }
        if !self.signal.is_empty() {
            match &context.signal {
                Some(signal) => if !contains_text(&self.signal, signal.as_str()) {
                    return false;
                },
                None => return false,
            }
        }
        true
    }
}

pub open spec fn has_fault(users: Seq<(String, u32)>) -> spec_fn((Seq<char>, RuleModel)) -> bool {
    |r: (Seq<char>, RuleModel)| rule_fault(r.0, r.1, users) is Some
}

/// What keeps a list of rules from being compiled: the fault of the first rule
/// that has one.
pub open spec fn policy_fault(
    rules: Seq<(Seq<char>, RuleModel)>,
    users: Seq<(String, u32)>,
) -> Option<PolicyFault> {
    match first_where(rules, has_fault(users)) {
        Some(i) => rule_fault(rules[i].0, rules[i].1, users),
        None => None,
    }
}

/// Whether a policy is what a list of rules compiles to, rule by rule.
pub open spec fn is_policy_of(
    policy: Policy,
    rules: Seq<(Seq<char>, RuleModel)>,
    users: Seq<(String, u32)>,
) -> bool {
    &&& policy.rules@.len() == rules.len()
    &&& forall|i: int|
        0 <= i < rules.len() ==> is_compiled_from(
            #[trigger] policy.rules@[i],
            rules[i].0,
            rules[i].1,
            users,
        )
}

pub open spec fn matching(dump: DumpName, context: JournalModel) -> spec_fn(CompiledRule) -> bool {
    |rule: CompiledRule| rule_matches(rule, dump, context)
}

/// The position of the first rule that matches a dump.
pub open spec fn first_match_of(
    rules: Seq<CompiledRule>,
    dump: DumpName,
    context: JournalModel,
) -> Option<int> {
    first_where(rules, matching(dump, context))
}

impl Policy {
    /// Compiles the rules of a configuration.
    pub fn from_config(config: &Config, users: &Users) -> (r: Result<Policy, PolicyError>)
        ensures
            match r {
                Ok(policy) => policy_fault(config@.rules, users.entries@) is None && is_policy_of(
                    policy,
                    config@.rules,
                    users.entries@,
                ),
                Err(e) => policy_fault(config@.rules, users.entries@) == Some(e@),
            },
    {
        let ghost source = config@.rules;
        let ghost known = users.entries@;
        let mut rules: Vec<CompiledRule> = Vec::new();
        let mut i: usize = 0;
        while i < config.rules.len()
            invariant
                source == named_rules(config.rules@),
                known == users.entries@,
                i <= config.rules@.len(),
                rules@.len() == i,
                forall|j: int|
                    0 <= j < i ==> !has_fault(known)(#[trigger] source[j]) && is_compiled_from(
                        rules@[j],
                        source[j].0,
                        source[j].1,
                        known,
                    ),
            decreases config.rules@.len() - i,
        {
            let named = &config.rules[i];
            assert(source[i as int] == named@);
            match CompiledRule::from_rule(named.name.as_str(), &named.rule, users) {
                Ok(rule) => {
                    rules.push(rule);
                },
                Err(e) => {
                    proof {
                        assert(is_first(source, has_fault(known), i as int));
                        lemma_first_found(source, has_fault(known), i as int);
                    }
                    return Err(e);
                },
            }
            i = i + 1;
        }
        proof {
            lemma_first_where(source, has_fault(known));
        }
        let policy = Policy { rules };
        assert forall|j: int| 0 <= j < source.len() implies is_compiled_from(
            #[trigger] policy.rules@[j],
            source[j].0,
            source[j].1,
            known,
        ) by {
            assert(!has_fault(known)(source[j]));
        }
        Ok(policy)
    }

    /// Whether some rule needs what only the journal knows.
    pub fn needs_journal(&self) -> (b: bool)
        ensures
            b == exists|i: int|
                0 <= i < self.rules@.len() && (#[trigger] self.rules@[i]).needs_journal,
    {
        let mut i: usize = 0;
        while i < self.rules.len()
            invariant
                i <= self.rules@.len(),
                forall|j: int| 0 <= j < i ==> !(#[trigger] self.rules@[j]).needs_journal,
            decreases self.rules@.len() - i,
        {
            if self.rules[i].needs_journal {
                return true;
            }
            i = i + 1;
        }
        false
    }

    /// The position of the first rule that matches a dump.
    pub fn first_match_index(&self, dump: &CoredumpFile, context: &JournalContext) -> (index:
        Option<usize>)
        ensures
            match index {
                Some(i) => first_match_of(self.rules@, dump@, context@) == Some(i as int) && i
                    < self.rules@.len(),
                None => first_match_of(self.rules@, dump@, context@) is None,
            },
    {
        let ghost property = matching(dump@, context@);
        let mut i: usize = 0;
        while i < self.rules.len()
            invariant
                property == matching(dump@, context@),
                i <= self.rules@.len(),
                forall|j: int| 0 <= j < i ==> !property(#[trigger] self.rules@[j]),
            decreases self.rules@.len() - i,
        {
            if self.rules[i].matches(dump, context) {
                proof {
                    assert(is_first(self.rules@, property, i as int));
                    lemma_first_found(self.rules@, property, i as int);
                }
                return Some(i);
            }
            i = i + 1;
        }
        proof {
            lemma_first_where(self.rules@, property);
        }
        None
    }

    /// The first rule that matches a dump.
    pub fn first_match(&self, dump: &CoredumpFile, context: &JournalContext) -> (rule: Option<
        &CompiledRule,
    >)
        ensures
            match rule {
                Some(r) => first_match_of(self.rules@, dump@, context@) matches Some(i) && 0 <= i
                    < self.rules@.len() && *r == self.rules@[i],
                None => first_match_of(self.rules@, dump@, context@) is None,
            },
    {
        match self.first_match_index(dump, context) {
            Some(i) => Some(&self.rules[i]),
            None => None,
        }
    }
}

/// The users that rules name, in order.
pub open spec fn named_users(rules: Seq<(Seq<char>, RuleModel)>) -> Seq<Seq<char>>
    decreases rules.len(),
{
    if rules.len() == 0 {
        Seq::empty()
    } else {
        named_users(rules.drop_last()) + rules.last().1.user_name
    }
}

/// The users whose uids a policy for this configuration needs.
pub fn user_names(config: &Config) -> (names: Vec<String>)
    ensures
        texts(names@) == named_users(config@.rules),
{
    let ghost source = config@.rules;
    let mut names: Vec<String> = Vec::new();
    let mut i: usize = 0;
    assert(source.take(0) =~= Seq::empty());
    assert(texts(names@) =~= Seq::empty());
    while i < config.rules.len()
        invariant
            source == named_rules(config.rules@),
            i <= config.rules@.len(),
            texts(names@) == named_users(source.take(i as int)),
        decreases config.rules@.len() - i,
    {
        let ghost before = texts(names@);
        let mut more = config.rules[i].rule.user_name.clone();
        assert(more@ =~= config.rules@[i as int].rule.user_name@);
        let ghost added = texts(more@);
        assert(source.take(i + 1).drop_last() =~= source.take(i as int));
        assert(source.take(i + 1).last() == config.rules@[i as int]@);
        names.append(&mut more);
        assert(texts(names@) =~= before + added);
        i = i + 1;
    }
    assert(source.take(source.len() as int) =~= source);
    names
}

/// A policy error as a sentence.
pub open spec fn policy_message(fault: PolicyFault) -> Seq<char> {
    match fault {
        PolicyFault::Pattern(e) => "invalid glob: "@ + pattern_message(e),
        PolicyFault::UnknownUser(name) => "unknown user: "@ + name,
        PolicyFault::UnknownGroupField(name) => "unknown group_by field: "@ + name,
        PolicyFault::ProcessNameTooLong { rule_name, pattern, min_length } => "rule "@ + rule_name
            + " process_name pattern "@ + debug_text(pattern) + " needs at least "@ + decimal(
            min_length,
        ) + " chars to match, but the kernel truncates `comm` to "@ + decimal(COMM_MAX_LEN as nat)
            + " bytes — this pattern can never match"@,
    }
}

impl PolicyError {
    /// The error as a sentence.
    pub fn message(&self) -> (text: String)
        ensures
            text@ == policy_message(self@),
    {
        match self {
            PolicyError::Pattern(e) => {
                let mut text = String::from_str("invalid glob: ");
                let detail = e.message();
                text.append(detail.as_str());
                text
            },
            PolicyError::UnknownUser(name) => {
                let mut text = String::from_str("unknown user: ");
                text.append(name.as_str());
                text
            },
            PolicyError::UnknownGroupField(name) => {
                let mut text = String::from_str("unknown group_by field: ");
                text.append(name.as_str());
                text
            },
            PolicyError::ProcessNameTooLong { rule_name, pattern, min_length } => {
                let mut text = String::from_str("rule ");
                let shown = debug_format(pattern.as_str());
                let needed = decimal_of(*min_length as u64);
                let limit = decimal_of(COMM_MAX_LEN as u64);
                text.append(rule_name.as_str());
                text.append(" process_name pattern ");
                text.append(shown.as_str());
                text.append(" needs at least ");
                text.append(needed.as_str());
                text.append(" chars to match, but the kernel truncates `comm` to ");
                text.append(limit.as_str());
                text.append(" bytes — this pattern can never match");
                text
            },
        }
    }
}

/// Whether a rule of a configuration matches a dump: every field that it gives
/// must fit, and a field fits if one of its items does.
pub open spec fn rule_applies(
    rule: RuleModel,
    users: Seq<(String, u32)>,
    dump: DumpName,
    context: JournalModel,
) -> bool {
    &&& rule.process_name.len() == 0 || any_match(rule.process_name, dump.comm)
    &&& rule.user_id.len() == 0 || rule.user_id.contains(dump.uid)
    &&& rule.user_name.len() == 0 || is_named(rule.user_name, users, dump.uid)
    &&& rule.executable_path.len() == 0 || known_and_matches(
        rule.executable_path,
        context.executable_path,
    )
    &&& rule.command_line.len() == 0 || known_and_matches(rule.command_line, context.command_line)
    &&& rule.signal.len() == 0 || (context.signal is Some && rule.signal.contains(
        context.signal->0,
    ))
}

/// Within a field, items are alternatives; fields must all fit. A compiled rule
/// says so of the rule that it comes from.
pub proof fn lemma_fields_and_items(
    compiled: CompiledRule,
    name: Seq<char>,
    rule: RuleModel,
    users: Seq<(String, u32)>,
    dump: DumpName,
    context: JournalModel,
)
    requires
        rule_fault(name, rule, users) is None,
        is_compiled_from(compiled, name, rule, users),
    ensures
        rule_matches(compiled, dump, context) <==> rule_applies(rule, users, dump, context),
{
    assert(patterns(compiled.process_name@).len() == compiled.process_name@.len());
    assert(patterns(compiled.executable_path@).len() == compiled.executable_path@.len());
    assert(patterns(compiled.command_line@).len() == compiled.command_line@.len());
    assert(texts(compiled.signal@).len() == compiled.signal@.len());
    assert(compiled.user_ids@.contains(dump.uid) <==> names_uid(rule, users, dump.uid));
}

/// A rule that gives no constraint matches every dump.
pub proof fn lemma_unconstrained_matches_everything(
    compiled: CompiledRule,
    name: Seq<char>,
    rule: RuleModel,
    users: Seq<(String, u32)>,
    dump: DumpName,
    context: JournalModel,
)
    requires
        is_compiled_from(compiled, name, rule, users),
        is_unconstrained(rule),
    ensures
        rule_matches(compiled, dump, context),
{
}

/// With a rule that gives no constraint among the rules of a policy, every
/// dump is matched by a rule, and by that one at the latest.
pub proof fn lemma_catch_all(
    policy: Policy,
    rules: Seq<(Seq<char>, RuleModel)>,
    users: Seq<(String, u32)>,
    catch_all: int,
    dump: DumpName,
    context: JournalModel,
)
    requires
        is_policy_of(policy, rules, users),
        0 <= catch_all < rules.len(),
        is_unconstrained(rules[catch_all].1),
    ensures
        first_match_of(policy.rules@, dump, context) matches Some(i) && 0 <= i <= catch_all,
{
    let property = matching(dump, context);
    lemma_first_where(policy.rules@, property);
    assert(property(policy.rules@[catch_all]));
}

/// The first match wins: a rule behind it changes nothing.
pub proof fn lemma_later_rules_do_not_matter(
    rules: Seq<CompiledRule>,
    more: Seq<CompiledRule>,
    dump: DumpName,
    context: JournalModel,
)
    requires
        first_match_of(rules, dump, context) is Some,
    ensures
        first_match_of(rules + more, dump, context) == first_match_of(rules, dump, context),
{
    let property = matching(dump, context);
    lemma_first_where(rules, property);
    let i = first_match_of(rules, dump, context)->0;
    assert forall|j: int| 0 <= j < i implies !property(#[trigger] (rules + more)[j]) by {
        assert(!property(rules[j]));
    }
    assert(is_first(rules + more, property, i));
    lemma_first_found(rules + more, property, i);
}

/// Where no rule needs the journal, what the journal says changes neither the
/// rule that a dump falls under nor the group that it belongs to.
pub proof fn lemma_journal_is_not_needed(
    policy: Policy,
    rules: Seq<(Seq<char>, RuleModel)>,
    users: Seq<(String, u32)>,
    dump: DumpName,
    one: JournalModel,
    other: JournalModel,
)
    requires
        is_policy_of(policy, rules, users),
        forall|i: int|
            0 <= i < policy.rules@.len() ==> !(#[trigger] policy.rules@[i]).needs_journal,
    ensures
        first_match_of(policy.rules@, dump, one) == first_match_of(policy.rules@, dump, other),
        forall|i: int, k: int|
            #![trigger policy.rules@[i].group_by@[k]]
            0 <= i < policy.rules@.len() && 0 <= k < policy.rules@[i].group_by@.len()
                ==> group_value(policy.rules@[i].group_by@[k], dump, one) == group_value(
                policy.rules@[i].group_by@[k],
                dump,
                other,
            ),
{
    let with_one = matching(dump, one);
    let with_other = matching(dump, other);
    assert forall|i: int| 0 <= i < policy.rules@.len() implies with_one(
        #[trigger] policy.rules@[i],
    ) == with_other(policy.rules@[i]) by {
        let rule = policy.rules@[i];
        assert(is_compiled_from(rule, rules[i].0, rules[i].1, users));
        assert(patterns(rule.executable_path@).len() == rule.executable_path@.len());
        assert(patterns(rule.command_line@).len() == rule.command_line@.len());
        assert(texts(rule.signal@).len() == rule.signal@.len());
    }
    lemma_first_where(policy.rules@, with_one);
    lemma_first_where(policy.rules@, with_other);
    match first_match_of(policy.rules@, dump, one) {
        Some(i) => {
            assert(is_first(policy.rules@, with_other, i)) by {
                assert(with_one(policy.rules@[i]));
            }
            lemma_first_found(policy.rules@, with_other, i);
        },
        None => {},
    }
    assert forall|i: int, k: int|
        #![trigger policy.rules@[i].group_by@[k]]
        0 <= i < policy.rules@.len() && 0 <= k
            < policy.rules@[i].group_by@.len() implies group_value(
        policy.rules@[i].group_by@[k],
        dump,
        one,
    ) == group_value(policy.rules@[i].group_by@[k], dump, other) by {
        let rule = policy.rules@[i];
        assert(is_compiled_from(rule, rules[i].0, rules[i].1, users));
        assert(!groups_by_journal(rule.group_by@));
        assert(!is_journal_field(rule.group_by@[k]));
    }
}

/// A configuration that was read never fails for a group field: what it lets
/// through, the policy knows.
pub proof fn lemma_read_group_fields_compile(
    document: Node,
    k: int,
    users: Seq<(String, u32)>,
)
    requires
        config_of(document) is Ok,
        0 <= k < config_of(document)->Ok_0.rules.len(),
    ensures
        ({
            let rule = config_of(document)->Ok_0.rules[k];
            !(rule_fault(rule.0, rule.1, users) matches Some(PolicyFault::UnknownGroupField(_)))
        }),
{
    lemma_group_fields_are_known(document, k);
}

/// The uid of a name is that of a user with this name, and a name without a uid
/// is that of no user.
pub proof fn lemma_users(users: Seq<(String, u32)>, name: Seq<char>)
    ensures
        match uid_of(users, name) {
            Some(uid) => exists|i: int|
                0 <= i < users.len() && (#[trigger] users[i]).0@ == name && users[i].1 == uid,
            None => forall|i: int| 0 <= i < users.len() ==> (#[trigger] users[i]).0@ != name,
        },
{
    lemma_first_where(users, is_user(name));
    match first_where(users, is_user(name)) {
        Some(i) => {
            assert(users[i].0@ == name);
        },
        None => {
            assert forall|i: int| 0 <= i < users.len() implies (#[trigger] users[i]).0@ != name by {
                assert(!is_user(name)(users[i]));
            }
        },
    }
}

/// Whether every field that a rule of a configuration gives has an item that
/// fits a dump.
pub open spec fn fits(
    rule: RuleModel,
    users: Seq<(String, u32)>,
    dump: DumpName,
    context: JournalModel,
) -> bool {
    &&& rule.process_name.len() == 0 || exists|k: int|
        0 <= k < rule.process_name.len() && glob_match(#[trigger] rule.process_name[k], dump.comm)
    &&& rule.user_id.len() == 0 || exists|k: int|
        0 <= k < rule.user_id.len() && #[trigger] rule.user_id[k] == dump.uid
    &&& rule.user_name.len() == 0 || exists|k: int|
        0 <= k < rule.user_name.len() && uid_of(users, #[trigger] rule.user_name[k]) == Some(
            dump.uid,
        )
    &&& rule.executable_path.len() == 0 || (context.executable_path matches Some(path) && exists|
        k: int,
    |
        0 <= k < rule.executable_path.len() && glob_match(
            #[trigger] rule.executable_path[k],
            path,
        ))
    &&& rule.command_line.len() == 0 || (context.command_line matches Some(line) && exists|k: int|
        0 <= k < rule.command_line.len() && glob_match(#[trigger] rule.command_line[k], line))
    &&& rule.signal.len() == 0 || (context.signal matches Some(signal) && exists|k: int|
        0 <= k < rule.signal.len() && #[trigger] rule.signal[k] == signal)
}

/// A rule matches a dump if and only if every field that it gives has an item
/// that fits.
pub proof fn lemma_what_matches(
    compiled: CompiledRule,
    name: Seq<char>,
    rule: RuleModel,
    users: Seq<(String, u32)>,
    dump: DumpName,
    context: JournalModel,
)
    requires
        is_compiled_from(compiled, name, rule, users),
    ensures
        rule_matches(compiled, dump, context) <==> fits(rule, users, dump, context),
        rule_applies(rule, users, dump, context) <==> fits(rule, users, dump, context),
{
    assert(patterns(compiled.process_name@).len() == compiled.process_name@.len());
    assert(patterns(compiled.executable_path@).len() == compiled.executable_path@.len());
    assert(patterns(compiled.command_line@).len() == compiled.command_line@.len());
    assert(texts(compiled.signal@).len() == compiled.signal@.len());
    assert(compiled.user_ids@.contains(dump.uid) <==> names_uid(rule, users, dump.uid));
    assert(rule.user_id.contains(dump.uid) <==> exists|k: int|
        0 <= k < rule.user_id.len() && #[trigger] rule.user_id[k] == dump.uid);
    if let Some(signal) = context.signal {
        assert(rule.signal.contains(signal) <==> exists|k: int|
            0 <= k < rule.signal.len() && #[trigger] rule.signal[k] == signal);
    }
}

/// One item of a field is enough, wherever it stands: if each field that a rule
/// gives fits at the position that is named for it, the rule matches.
pub proof fn lemma_one_item_is_enough(
    compiled: CompiledRule,
    name: Seq<char>,
    rule: RuleModel,
    users: Seq<(String, u32)>,
    dump: DumpName,
    context: JournalModel,
    process_name: int,
    user_id: int,
    user_name: int,
    executable_path: int,
    command_line: int,
    signal: int,
)
    requires
        is_compiled_from(compiled, name, rule, users),
        rule.process_name.len() == 0 || (0 <= process_name < rule.process_name.len() && glob_match(
            rule.process_name[process_name],
            dump.comm,
        )),
        rule.user_id.len() == 0 || (0 <= user_id < rule.user_id.len() && rule.user_id[user_id]
            == dump.uid),
        rule.user_name.len() == 0 || (0 <= user_name < rule.user_name.len() && uid_of(
            users,
            rule.user_name[user_name],
        ) == Some(dump.uid)),
        rule.executable_path.len() == 0 || (0 <= executable_path < rule.executable_path.len()
            && context.executable_path is Some && glob_match(
            rule.executable_path[executable_path],
            context.executable_path->0,
        )),
        rule.command_line.len() == 0 || (0 <= command_line < rule.command_line.len()
            && context.command_line is Some && glob_match(
            rule.command_line[command_line],
            context.command_line->0,
        )),
        rule.signal.len() == 0 || (0 <= signal < rule.signal.len() && context.signal == Some(
            rule.signal[signal],
        )),
    ensures
        rule_matches(compiled, dump, context),
{
    lemma_what_matches(compiled, name, rule, users, dump, context);
}

/// Every field must fit: if no item of some field of a rule fits, the rule does
/// not match, whatever its other fields are.
pub proof fn lemma_every_field_must_fit(
    compiled: CompiledRule,
    name: Seq<char>,
    rule: RuleModel,
    users: Seq<(String, u32)>,
    dump: DumpName,
    context: JournalModel,
)
    requires
        is_compiled_from(compiled, name, rule, users),
        ({
            ||| rule.process_name.len() > 0 && forall|k: int|
                0 <= k < rule.process_name.len() ==> !glob_match(
                    #[trigger] rule.process_name[k],
                    dump.comm,
                )
            ||| rule.user_id.len() > 0 && forall|k: int|
                0 <= k < rule.user_id.len() ==> #[trigger] rule.user_id[k] != dump.uid
            ||| rule.user_name.len() > 0 && forall|k: int|
                0 <= k < rule.user_name.len() ==> uid_of(users, #[trigger] rule.user_name[k])
                    != Some(dump.uid)
            ||| rule.executable_path.len() > 0 && (context.executable_path is None || forall|k: int|
                0 <= k < rule.executable_path.len() ==> !glob_match(
                    #[trigger] rule.executable_path[k],
                    context.executable_path->0,
                ))
            ||| rule.command_line.len() > 0 && (context.command_line is None || forall|k: int|
                0 <= k < rule.command_line.len() ==> !glob_match(
                    #[trigger] rule.command_line[k],
                    context.command_line->0,
                ))
            ||| rule.signal.len() > 0 && (context.signal is None || forall|k: int|
                0 <= k < rule.signal.len() ==> #[trigger] rule.signal[k] != context.signal->0)
        }),
    ensures
        !rule_matches(compiled, dump, context),
{
    lemma_what_matches(compiled, name, rule, users, dump, context);
}

/// Whether two lists have the same items, in whatever order and however often.
pub open spec fn same_items<A>(one: Seq<A>, other: Seq<A>) -> bool {
    forall|item: A| #[trigger] one.contains(item) <==> other.contains(item)
}

/// The order of the items within a field does not matter.
pub proof fn lemma_order_does_not_matter(
    one: RuleModel,
    other: RuleModel,
    users: Seq<(String, u32)>,
    dump: DumpName,
    context: JournalModel,
)
    requires
        same_items(one.process_name, other.process_name),
        same_items(one.executable_path, other.executable_path),
        same_items(one.command_line, other.command_line),
        same_items(one.signal, other.signal),
        same_items(one.user_id, other.user_id),
        same_items(one.user_name, other.user_name),
    ensures
        fits(one, users, dump, context) <==> fits(other, users, dump, context),
{
    if fits(one, users, dump, context) {
        lemma_fits_by_items(one, other, users, dump, context);
    }
    if fits(other, users, dump, context) {
        lemma_fits_by_items(other, one, users, dump, context);
    }
}

proof fn lemma_contained<A>(one: Seq<A>, other: Seq<A>)
    requires
        same_items(one, other),
    ensures
        one.len() == 0 <==> other.len() == 0,
        forall|k: int| 0 <= k < one.len() ==> other.contains(#[trigger] one[k]),
{
    assert forall|k: int| 0 <= k < one.len() implies other.contains(#[trigger] one[k]) by {
        assert(one.contains(one[k]));
    }
    if other.len() > 0 {
        assert(other.contains(other[0]));
        assert(one.contains(other[0]));
    }
    if one.len() > 0 {
        assert(one.contains(one[0]));
    }
}

proof fn lemma_fits_by_items(
    one: RuleModel,
    other: RuleModel,
    users: Seq<(String, u32)>,
    dump: DumpName,
    context: JournalModel,
)
    requires
        same_items(one.process_name, other.process_name),
        same_items(one.executable_path, other.executable_path),
        same_items(one.command_line, other.command_line),
        same_items(one.signal, other.signal),
        same_items(one.user_id, other.user_id),
        same_items(one.user_name, other.user_name),
        fits(one, users, dump, context),
    ensures
        fits(other, users, dump, context),
{
    lemma_contained(one.process_name, other.process_name);
    lemma_contained(one.executable_path, other.executable_path);
    lemma_contained(one.command_line, other.command_line);
    lemma_contained(one.signal, other.signal);
    lemma_contained(one.user_id, other.user_id);
    lemma_contained(one.user_name, other.user_name);
}

/// The first rule of a configuration that fits a dump is the one that it falls
/// under.
pub proof fn lemma_first_rule_that_fits_wins(
    policy: Policy,
    rules: Seq<(Seq<char>, RuleModel)>,
    users: Seq<(String, u32)>,
    dump: DumpName,
    context: JournalModel,
    i: int,
)
    requires
        is_policy_of(policy, rules, users),
    ensures
        first_match_of(policy.rules@, dump, context) == Some(i) <==> {
            &&& 0 <= i < rules.len()
            &&& fits(rules[i].1, users, dump, context)
            &&& forall|j: int| 0 <= j < i ==> !fits((#[trigger] rules[j]).1, users, dump, context)
        },
        first_match_of(policy.rules@, dump, context) is None <==> forall|j: int|
            0 <= j < rules.len() ==> !fits((#[trigger] rules[j]).1, users, dump, context),
        policy.rules@.len() == rules.len(),
{
    let property = matching(dump, context);
    assert forall|j: int| 0 <= j < rules.len() implies (property(policy.rules@[j]) <==> fits(
        (#[trigger] rules[j]).1,
        users,
        dump,
        context,
    )) by {
        assert(is_compiled_from(policy.rules@[j], rules[j].0, rules[j].1, users));
        lemma_what_matches(policy.rules@[j], rules[j].0, rules[j].1, users, dump, context);
    }
    lemma_first_where(policy.rules@, property);
    match first_match_of(policy.rules@, dump, context) {
        Some(k) => {
            assert(property(policy.rules@[k]));
            assert(fits(rules[k].1, users, dump, context));
            assert forall|j: int| 0 <= j < k implies !fits(
                (#[trigger] rules[j]).1,
                users,
                dump,
                context,
            ) by {
                assert(!property(policy.rules@[j]));
            }
        },
        None => {
            assert forall|j: int| 0 <= j < rules.len() implies !fits(
                (#[trigger] rules[j]).1,
                users,
                dump,
                context,
            ) by {
                assert(!property(policy.rules@[j]));
            }
        },
    }
}

/// Dumps are grouped by what the name of a field says.
pub proof fn lemma_group_fields_are_what_they_are_called(
    name: Seq<char>,
    dump: DumpName,
    context: JournalModel,
)
    ensures
        name == "process_name"@ ==> group_field(name) is Some && group_value(
            group_field(name)->0,
            dump,
            context,
        ) == Some(dump.comm),
        name == "user_id"@ ==> group_field(name) is Some && group_value(
            group_field(name)->0,
            dump,
            context,
        ) == Some(decimal(dump.uid as nat)),
        name == "boot_id"@ ==> group_field(name) is Some && group_value(
            group_field(name)->0,
            dump,
            context,
        ) == Some(dump.boot_id),
        name == "executable_path"@ ==> group_field(name) is Some && group_value(
            group_field(name)->0,
            dump,
            context,
        ) == context.executable_path,
        name == "command_line"@ ==> group_field(name) is Some && group_value(
            group_field(name)->0,
            dump,
            context,
        ) == context.command_line,
        name == "signal"@ ==> group_field(name) is Some && group_value(
            group_field(name)->0,
            dump,
            context,
        ) == context.signal,
        group_field(name) is Some ==> name == "process_name"@ || name == "user_id"@ || name
            == "boot_id"@ || name == "executable_path"@ || name == "command_line"@ || name
            == "signal"@,
{
    reveal_strlit("process_name");
    reveal_strlit("user_id");
    reveal_strlit("boot_id");
    reveal_strlit("executable_path");
    reveal_strlit("command_line");
    reveal_strlit("signal");
    assert("process_name"@.len() == 12 && "user_id"@.len() == 7 && "boot_id"@.len() == 7
        && "executable_path"@.len() == 15 && "command_line"@.len() == 12 && "signal"@.len() == 6);
    assert("process_name"@[0] == 'p' && "command_line"@[0] == 'c');
    assert("user_id"@[0] == 'u' && "boot_id"@[0] == 'b');
}

/// A compiled rule has the name and the limit of the rule that it comes from,
/// and groups by the same fields in the same order.
pub proof fn lemma_compiled_rule_counts_alike(
    compiled: CompiledRule,
    name: Seq<char>,
    rule: RuleModel,
    users: Seq<(String, u32)>,
)
    requires
        is_compiled_from(compiled, name, rule, users),
        rule_fault(name, rule, users) is None,
    ensures
        compiled.name@ == name,
        compiled.keep_count == rule.keep_count,
        compiled.group_by@.len() == rule.group_by.len(),
        forall|k: int|
            0 <= k < rule.group_by.len() ==> group_field(#[trigger] rule.group_by[k]) == Some(
                compiled.group_by@[k],
            ),
{
    lemma_first_where(rule.group_by, not_group_by_field());
    assert forall|k: int| 0 <= k < rule.group_by.len() implies group_field(
        #[trigger] rule.group_by[k],
    ) == Some(compiled.group_by@[k]) by {
        assert(!not_group_by_field()(rule.group_by[k]));
        lemma_group_fields_agree(rule.group_by[k]);
    }
}

/// Whether all patterns of a list are valid.
pub open spec fn all_valid(list: Seq<Seq<char>>) -> bool {
    forall|k: int| 0 <= k < list.len() ==> glob_fault(#[trigger] list[k]) is None
}

proof fn lemma_globs_fault(list: Seq<Seq<char>>)
    ensures
        globs_fault(list) is None <==> all_valid(list),
        globs_fault(list) matches Some(fault) ==> fault is Pattern && exists|k: int|
            0 <= k < list.len() && glob_fault(#[trigger] list[k]) == Some(fault->Pattern_0),
{
    lemma_first_where(list, is_bad_glob());
    match first_where(list, is_bad_glob()) {
        Some(k) => {
            assert(is_bad_glob()(list[k]));
        },
        None => {
            assert forall|k: int| 0 <= k < list.len() implies glob_fault(
                #[trigger] list[k],
            ) is None by {
                assert(!is_bad_glob()(list[k]));
            }
        },
    }
}

/// A rule is compiled if and only if its process names are short enough, its
/// patterns are valid, its users are known and its fields to group by are such;
/// and what a fault complains of is in the rule.
pub proof fn lemma_what_is_refused(name: Seq<char>, rule: RuleModel, users: Seq<(String, u32)>)
    ensures
        rule_fault(name, rule, users) is None <==> {
            &&& forall|k: int|
                0 <= k < rule.process_name.len() ==> min_match_bytes(
                    #[trigger] rule.process_name[k],
                ) <= 15
            &&& all_valid(rule.process_name)
            &&& all_valid(rule.executable_path)
            &&& all_valid(rule.command_line)
            &&& forall|k: int|
                0 <= k < rule.user_name.len() ==> uid_of(users, #[trigger] rule.user_name[k])
                    is Some
            &&& forall|k: int|
                0 <= k < rule.group_by.len() ==> group_field(#[trigger] rule.group_by[k]) is Some
        },
        (exists|k: int|
            0 <= k < rule.process_name.len() && min_match_bytes(#[trigger] rule.process_name[k])
                > 15) <==> rule_fault(name, rule, users) matches Some(
            PolicyFault::ProcessNameTooLong { .. },
        ),
        rule_fault(name, rule, users) matches Some(
            PolicyFault::ProcessNameTooLong { rule_name, pattern, min_length },
        ) ==> rule_name == name && rule.process_name.contains(pattern) && min_match_bytes(pattern)
            > 15 && min_length == min_match_length(pattern),
        rule_fault(name, rule, users) matches Some(PolicyFault::Pattern(fault)) ==> exists|k: int|
            (0 <= k < rule.process_name.len() && glob_fault(#[trigger] rule.process_name[k])
                == Some(fault)) || (0 <= k < rule.executable_path.len() && glob_fault(
                rule.executable_path[k],
            ) == Some(fault)) || (0 <= k < rule.command_line.len() && glob_fault(
                rule.command_line[k],
            ) == Some(fault)),
        rule_fault(name, rule, users) matches Some(PolicyFault::UnknownUser(user))
            ==> rule.user_name.contains(user) && uid_of(users, user) is None,
        rule_fault(name, rule, users) matches Some(PolicyFault::UnknownGroupField(field))
            ==> rule.group_by.contains(field) && group_field(field) is None,
{
    lemma_first_where(rule.process_name, over_long());
    lemma_globs_fault(rule.process_name);
    lemma_globs_fault(rule.executable_path);
    lemma_globs_fault(rule.command_line);
    lemma_first_where(rule.user_name, is_unknown_user(users));
    lemma_first_where(rule.group_by, not_group_by_field());
    assert forall|k: int| 0 <= k < rule.process_name.len() implies (over_long()(
        #[trigger] rule.process_name[k],
    ) <==> min_match_bytes(rule.process_name[k]) > 15) by {}
    assert forall|k: int| 0 <= k < rule.user_name.len() implies (is_unknown_user(users)(
        #[trigger] rule.user_name[k],
    ) <==> uid_of(users, rule.user_name[k]) is None) by {}
    assert forall|k: int| 0 <= k < rule.group_by.len() implies (not_group_by_field()(
        #[trigger] rule.group_by[k],
    ) <==> group_field(rule.group_by[k]) is None) by {
        lemma_group_fields_agree(rule.group_by[k]);
    }
    if let Some(PolicyFault::Pattern(fault)) = rule_fault(name, rule, users) {
        if globs_fault(rule.process_name) is None {
            let list = if globs_fault(rule.executable_path) is Some {
                rule.executable_path
            } else {
                rule.command_line
            };
            let k = choose|k: int|
                0 <= k < list.len() && glob_fault(#[trigger] list[k]) == Some(fault);
            let at = rule.process_name[k];
        }
    }
}

/// A configuration makes a policy if and only if all of its rules are compiled;
/// otherwise the fault is that of the first rule that is not.
pub proof fn lemma_what_makes_no_policy(
    rules: Seq<(Seq<char>, RuleModel)>,
    users: Seq<(String, u32)>,
)
    ensures
        policy_fault(rules, users) is None <==> forall|i: int|
            0 <= i < rules.len() ==> rule_fault((#[trigger] rules[i]).0, rules[i].1, users) is None,
        policy_fault(rules, users) is Some ==> exists|i: int|
            0 <= i < rules.len() && rule_fault((#[trigger] rules[i]).0, rules[i].1, users)
                == policy_fault(rules, users) && forall|j: int|
                0 <= j < i ==> rule_fault((#[trigger] rules[j]).0, rules[j].1, users) is None,
{
    lemma_first_where(rules, has_fault(users));
    assert forall|i: int| 0 <= i < rules.len() implies (has_fault(users)(#[trigger] rules[i])
        <==> rule_fault(rules[i].0, rules[i].1, users) is Some) by {}
    if let Some(i) = first_where(rules, has_fault(users)) {
        assert(has_fault(users)(rules[i]));
        assert(rule_fault(rules[i].0, rules[i].1, users) == policy_fault(rules, users));
        assert forall|j: int| 0 <= j < i implies rule_fault(
            (#[trigger] rules[j]).0,
            rules[j].1,
            users,
        ) is None by {
            assert(!has_fault(users)(rules[j]));
        }
    }
}

/// Only the journal knows a field if and only if what a dump has there can
/// differ with what the journal says.
pub proof fn lemma_fields_of_the_journal(field: GroupField, dump: DumpName)
    ensures
        is_journal_field(field) <==> exists|one: JournalModel, other: JournalModel| #[trigger]
            group_value(field, dump, one) != #[trigger] group_value(field, dump, other),
{
    let none = no_journal();
    let some = JournalModel {
        executable_path: Some(Seq::empty()),
        command_line: Some(Seq::empty()),
        signal: Some(Seq::empty()),
    };
    if is_journal_field(field) {
        assert(group_value(field, dump, none) != group_value(field, dump, some));
    }
}

/// A compiled rule needs the journal if and only if the rule constrains or
/// groups by something that only the journal knows.
pub proof fn lemma_what_needs_the_journal(
    compiled: CompiledRule,
    name: Seq<char>,
    rule: RuleModel,
    users: Seq<(String, u32)>,
)
    requires
        is_compiled_from(compiled, name, rule, users),
        rule_fault(name, rule, users) is None,
    ensures
        compiled.needs_journal <==> {
            ||| rule.executable_path.len() > 0
            ||| rule.command_line.len() > 0
            ||| rule.signal.len() > 0
            ||| rule.group_by.contains("executable_path"@)
            ||| rule.group_by.contains("command_line"@)
            ||| rule.group_by.contains("signal"@)
        },
{
    reveal_strlit("process_name");
    reveal_strlit("user_id");
    reveal_strlit("boot_id");
    reveal_strlit("executable_path");
    reveal_strlit("command_line");
    reveal_strlit("signal");
    assert("process_name"@[0] == 'p' && "command_line"@[0] == 'c');
    assert("user_id"@[0] == 'u' && "boot_id"@[0] == 'b');
    let fields = compiled.group_by@;
    lemma_what_is_refused(name, rule, users);
    assert forall|k: int| 0 <= k < fields.len() implies (is_journal_field(#[trigger] fields[k])
        <==> rule.group_by[k] == "executable_path"@ || rule.group_by[k] == "command_line"@
        || rule.group_by[k] == "signal"@) by {
        let known = rule.group_by[k];
        assert(group_field(known) is Some);
    }
    if groups_by_journal(fields) {
        let k = choose|k: int| 0 <= k < fields.len() && is_journal_field(#[trigger] fields[k]);
        assert(rule.group_by.contains(rule.group_by[k]));
    }
    if rule.group_by.contains("executable_path"@) {
        let k = choose|k: int|
            0 <= k < rule.group_by.len() && rule.group_by[k] == "executable_path"@;
        assert(is_journal_field(fields[k]));
    }
    if rule.group_by.contains("command_line"@) {
        let k = choose|k: int| 0 <= k < rule.group_by.len() && rule.group_by[k] == "command_line"@;
        assert(is_journal_field(fields[k]));
    }
    if rule.group_by.contains("signal"@) {
        let k = choose|k: int| 0 <= k < rule.group_by.len() && rule.group_by[k] == "signal"@;
        assert(is_journal_field(fields[k]));
    }
}

/// The users whose uids are needed are those that a rule names, and no others.
pub proof fn lemma_users_that_are_needed(rules: Seq<(Seq<char>, RuleModel)>, name: Seq<char>)
    ensures
        named_users(rules).contains(name) <==> exists|i: int|
            0 <= i < rules.len() && (#[trigger] rules[i]).1.user_name.contains(name),
    decreases rules.len(),
{
    if rules.len() > 0 {
        let before = named_users(rules.drop_last());
        let more = rules.last().1.user_name;
        let all = before + more;
        lemma_users_that_are_needed(rules.drop_last(), name);
        if all.contains(name) {
            let k = choose|k: int| 0 <= k < all.len() && all[k] == name;
            if k < before.len() {
                assert(before[k] == name);
                let shorter = rules.drop_last();
                let i = choose|i: int|
                    0 <= i < shorter.len() && (#[trigger] shorter[i]).1.user_name.contains(name);
                assert(rules[i].1.user_name.contains(name));
            } else {
                assert(more[k - before.len()] == name);
                assert(rules[rules.len() - 1].1.user_name.contains(name));
            }
        }
        if exists|i: int| 0 <= i < rules.len() && (#[trigger] rules[i]).1.user_name.contains(name) {
            let i = choose|i: int|
                0 <= i < rules.len() && (#[trigger] rules[i]).1.user_name.contains(name);
            if i < rules.len() - 1 {
                assert(rules.drop_last()[i].1.user_name.contains(name));
                let k = choose|k: int| 0 <= k < before.len() && before[k] == name;
                assert(all[k] == name);
            } else {
                let k = choose|k: int| 0 <= k < more.len() && more[k] == name;
                assert(all[before.len() + k] == name);
            }
        }
    }
}

/// The sentence about a fault tells what it is about.
pub proof fn lemma_policy_message(fault: PolicyFault)
    ensures
        match fault {
            PolicyFault::Pattern(e) => says(policy_message(fault), pattern_message(e)),
            PolicyFault::UnknownUser(name) => says(policy_message(fault), name),
            PolicyFault::UnknownGroupField(name) => says(policy_message(fault), name),
            PolicyFault::ProcessNameTooLong { rule_name, pattern, min_length } => {
                &&& says(policy_message(fault), rule_name)
                &&& says(policy_message(fault), debug_text(pattern))
                &&& says(policy_message(fault), decimal(min_length))
            },
        },
{
    let nothing = Seq::<char>::empty();
    match fault {
        PolicyFault::Pattern(e) => {
            lemma_says("invalid glob: "@, pattern_message(e), nothing);
        },
        PolicyFault::UnknownUser(name) => {
            lemma_says("unknown user: "@, name, nothing);
        },
        PolicyFault::UnknownGroupField(name) => {
            lemma_says("unknown group_by field: "@, name, nothing);
        },
        PolicyFault::ProcessNameTooLong { rule_name, pattern, min_length } => {
            let end = " chars to match, but the kernel truncates `comm` to "@ + decimal(
                COMM_MAX_LEN as nat,
            ) + " bytes — this pattern can never match"@;
            let number = " needs at least "@ + decimal(min_length) + end;
            let shown = " process_name pattern "@ + debug_text(pattern) + number;
            lemma_says("rule "@, rule_name, shown);
            assert("rule "@ + rule_name + shown =~= policy_message(fault));
            let one = "rule "@ + rule_name + " process_name pattern "@;
            lemma_says(one, debug_text(pattern), number);
            assert(one + debug_text(pattern) + number =~= policy_message(fault));
            let two = one + debug_text(pattern) + " needs at least "@;
            lemma_says(two, decimal(min_length), end);
            assert(two + decimal(min_length) + end =~= policy_message(fault));
        },
    }
}

/// Where a rule has several faults, a process name that is too long comes first,
/// then an invalid pattern, of the process name, the executable path and the
/// command line in this order, then an unknown user, then an unknown field to
/// group by; and of several of one kind the first in the rule.
pub proof fn lemma_which_fault_comes_first(
    name: Seq<char>,
    rule: RuleModel,
    users: Seq<(String, u32)>,
)
    ensures
        ({
            let fault = rule_fault(name, rule, users);
            let short = forall|k: int|
                0 <= k < rule.process_name.len() ==> min_match_bytes(
                    #[trigger] rule.process_name[k],
                ) <= 15;
            let valid = all_valid(rule.process_name) && all_valid(rule.executable_path)
                && all_valid(rule.command_line);
            let known = forall|k: int|
                0 <= k < rule.user_name.len() ==> uid_of(users, #[trigger] rule.user_name[k])
                    is Some;
            let grouped = forall|k: int|
                0 <= k < rule.group_by.len() ==> group_field(#[trigger] rule.group_by[k]) is Some;
            &&& (fault is Some && fault->0 is Pattern) <==> short && !valid
            &&& (fault is Some && fault->0 is UnknownUser) <==> short && valid && !known
            &&& (fault is Some && fault->0 is UnknownGroupField) <==> short && valid && known
                && !grouped
        }),
        rule_fault(name, rule, users) matches Some(PolicyFault::UnknownUser(user))
            ==> exists|k: int|
            0 <= k < rule.user_name.len() && #[trigger] rule.user_name[k] == user && forall|j: int|
                0 <= j < k ==> uid_of(users, #[trigger] rule.user_name[j]) is Some,
        rule_fault(name, rule, users) matches Some(PolicyFault::UnknownGroupField(field))
            ==> exists|k: int|
            0 <= k < rule.group_by.len() && #[trigger] rule.group_by[k] == field && forall|j: int|
                0 <= j < k ==> group_field(#[trigger] rule.group_by[j]) is Some,
        rule_fault(name, rule, users) matches Some(
            PolicyFault::ProcessNameTooLong { pattern, .. },
        ) ==> exists|k: int|
            0 <= k < rule.process_name.len() && #[trigger] rule.process_name[k] == pattern
                && forall|j: int|
                0 <= j < k ==> min_match_bytes(#[trigger] rule.process_name[j]) <= 15,
        rule_fault(name, rule, users) matches Some(PolicyFault::Pattern(fault)) ==> if !all_valid(
            rule.process_name,
        ) {
            is_first_fault(rule.process_name, fault)
        } else if !all_valid(rule.executable_path) {
            is_first_fault(rule.executable_path, fault)
        } else {
            is_first_fault(rule.command_line, fault)
        },
{
    lemma_what_is_refused(name, rule, users);
    lemma_globs_fault(rule.process_name);
    lemma_globs_fault(rule.executable_path);
    lemma_globs_fault(rule.command_line);
    lemma_first_globs_fault(rule.process_name);
    lemma_first_globs_fault(rule.executable_path);
    lemma_first_globs_fault(rule.command_line);
    let long = over_long();
    lemma_first_where(rule.process_name, long);
    assert forall|k: int| 0 <= k < rule.process_name.len() implies (long(
        #[trigger] rule.process_name[k],
    ) <==> min_match_bytes(rule.process_name[k]) > 15) by {}
    let unknown = is_unknown_user(users);
    lemma_first_where(rule.user_name, unknown);
    assert forall|k: int| 0 <= k < rule.user_name.len() implies (unknown(
        #[trigger] rule.user_name[k],
    ) <==> uid_of(users, rule.user_name[k]) is None) by {}
    let other = not_group_by_field();
    lemma_first_where(rule.group_by, other);
    assert forall|k: int| 0 <= k < rule.group_by.len() implies (other(#[trigger] rule.group_by[k])
        <==> group_field(rule.group_by[k]) is None) by {
        lemma_group_fields_agree(rule.group_by[k]);
    }
    match rule_fault(name, rule, users) {
        Some(PolicyFault::UnknownUser(user)) => {
            let k = first_where(rule.user_name, unknown)->0;
            assert(rule.user_name[k] == user);
        },
        Some(PolicyFault::UnknownGroupField(field)) => {
            let k = first_where(rule.group_by, other)->0;
            assert(rule.group_by[k] == field);
        },
        Some(PolicyFault::ProcessNameTooLong { pattern, .. }) => {
            let k = first_where(rule.process_name, long)->0;
            assert(rule.process_name[k] == pattern);
        },
        _ => {},
    }
}

/// Whether the first invalid pattern of a list has this fault.
pub open spec fn is_first_fault(list: Seq<Seq<char>>, fault: (usize, Seq<char>)) -> bool {
    exists|k: int|
        0 <= k < list.len() && glob_fault(#[trigger] list[k]) == Some(fault) && forall|j: int|
            0 <= j < k ==> glob_fault(#[trigger] list[j]) is None
}

proof fn lemma_first_globs_fault(list: Seq<Seq<char>>)
    ensures
        globs_fault(list) matches Some(fault) ==> is_first_fault(list, fault->Pattern_0),
{
    let bad = is_bad_glob();
    lemma_first_where(list, bad);
    if let Some(k) = first_where(list, bad) {
        assert(bad(list[k]));
        assert forall|j: int| 0 <= j < k implies glob_fault(#[trigger] list[j]) is None by {
            assert(!bad(list[j]));
        }
    }
}

} // verus!
