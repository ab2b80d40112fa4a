//! The configuration: what it holds and how it is read.

use vstd::prelude::*;
use vstd::string::*;

use crate::document::{
    are_distinct, has_distinct_keys, parse_document, toml_document, Node,
};
use crate::duration::{human_duration, is_readable_span, parse_human, readable_span, TimeSpan};
use crate::find::{first_where, is_first, lemma_first_found, lemma_first_where};
use crate::text::{
    debug_format, debug_text, decimal_int, decimal_of_int, lemma_says, lemma_says_both, says,
    str_eq, texts,
};

verus! {

#[derive(Debug, Clone)]
pub struct Config {
    pub coredump_directory: String,
    pub idle_interval: TimeSpan,
    pub minimum_age: TimeSpan,
    pub dry_run: bool,
    pub rules: Vec<NamedRule>,
}

#[derive(Debug, Clone)]
pub struct NamedRule {
    pub name: String,
    pub rule: Rule,
}

#[derive(Debug, Clone)]
pub struct Rule {
    pub process_name: Vec<String>,
    pub executable_path: Vec<String>,
    pub command_line: Vec<String>,
    pub signal: Vec<String>,
    pub user_id: Vec<u32>,
    pub user_name: Vec<String>,
    pub group_by: Vec<String>,
    pub keep_count: Option<u32>,
}

/// The model of a [`Rule`].
#[verifier::ext_equal]
pub struct RuleModel {
    pub process_name: Seq<Seq<char>>,
    pub executable_path: Seq<Seq<char>>,
    pub command_line: Seq<Seq<char>>,
    pub signal: Seq<Seq<char>>,
    pub user_id: Seq<u32>,
    pub user_name: Seq<Seq<char>>,
    pub group_by: Seq<Seq<char>>,
    pub keep_count: Option<u32>,
}

/// The model of a [`Config`].
#[verifier::ext_equal]
pub struct ConfigModel {
    pub coredump_directory: Seq<char>,
    pub idle_interval: TimeSpan,
    pub minimum_age: TimeSpan,
    pub dry_run: bool,
    pub rules: Seq<(Seq<char>, RuleModel)>,
}

impl View for Rule {
    type V = RuleModel;

    open spec fn view(&self) -> RuleModel {
        RuleModel {
            process_name: texts(self.process_name@),
            executable_path: texts(self.executable_path@),
            command_line: texts(self.command_line@),
            signal: texts(self.signal@),
            user_id: self.user_id@,
            user_name: texts(self.user_name@),
            group_by: texts(self.group_by@),
            keep_count: self.keep_count,
        }
    }
}

impl View for NamedRule {
    type V = (Seq<char>, RuleModel);

    open spec fn view(&self) -> (Seq<char>, RuleModel) {
        (self.name@, self.rule@)
    }
}

impl View for Config {
    type V = ConfigModel;

    open spec fn view(&self) -> ConfigModel {
        ConfigModel {
            coredump_directory: self.coredump_directory@,
            idle_interval: self.idle_interval,
            minimum_age: self.minimum_age,
            dry_run: self.dry_run,
            rules: named_rules(self.rules@),
        }
    }
}

pub open spec fn named_rules(rules: Seq<NamedRule>) -> Seq<(Seq<char>, RuleModel)> {
    rules.map_values(|r: NamedRule| r@)
}

/// The rule without any field.
pub open spec fn empty_rule() -> RuleModel {
    RuleModel {
        process_name: Seq::empty(),
        executable_path: Seq::empty(),
        command_line: Seq::empty(),
        signal: Seq::empty(),
        user_id: Seq::empty(),
        user_name: Seq::empty(),
        group_by: Seq::empty(),
        keep_count: None,
    }
}

pub open spec fn picked<A>(own: Seq<A>, default: Seq<A>) -> Seq<A> {
    if own.len() == 0 {
        default
    } else {
        own
    }
}

/// A rule with the fields that it leaves out taken from another one.
pub open spec fn merged(own: RuleModel, default: RuleModel) -> RuleModel {
    RuleModel {
        process_name: picked(own.process_name, default.process_name),
        executable_path: picked(own.executable_path, default.executable_path),
        command_line: picked(own.command_line, default.command_line),
        signal: picked(own.signal, default.signal),
        user_id: picked(own.user_id, default.user_id),
        user_name: picked(own.user_name, default.user_name),
        group_by: picked(own.group_by, default.group_by),
        keep_count: if own.keep_count is Some {
            own.keep_count
        } else {
            default.keep_count
        },
    }
}

/// Whether a rule constrains nothing.
pub open spec fn is_unconstrained(rule: RuleModel) -> bool {
    &&& rule.process_name.len() == 0
    &&& rule.executable_path.len() == 0
    &&& rule.command_line.len() == 0
    &&& rule.signal.len() == 0
    &&& rule.user_id.len() == 0
    &&& rule.user_name.len() == 0
}

fn pick(own: Vec<String>, default: &Vec<String>) -> (r: Vec<String>)
    ensures
        texts(r@) == picked(texts(own@), texts(default@)),
{
    if own.is_empty() {
        let copy = default.clone();
        assert(copy@ =~= default@);
        copy
    } else {
        own
    }
}

fn pick_u32(own: Vec<u32>, default: &Vec<u32>) -> (r: Vec<u32>)
    ensures
        r@ == picked(own@, default@),
{
    if own.is_empty() {
        let copy = default.clone();
        assert(copy@ =~= default@);
        copy
    } else {
        own
    }
}

impl Default for Rule {
    fn default() -> (rule: Rule)
        ensures
            rule@ == empty_rule(),
    {
        let rule = Rule {
            process_name: Vec::new(),
            executable_path: Vec::new(),
            command_line: Vec::new(),
            signal: Vec::new(),
            user_id: Vec::new(),
            user_name: Vec::new(),
            group_by: Vec::new(),
            keep_count: None,
        };
        assert(rule@ =~= empty_rule());
        rule
    }
}

impl Rule {
    /// Takes the fields that this rule leaves out from `default`.
    pub fn merge_default(self, default: &Rule) -> (r: Rule)
        ensures
            r@ == merged(self@, default@),
    {
        Rule {
            process_name: pick(self.process_name, &default.process_name),
            executable_path: pick(self.executable_path, &default.executable_path),
            command_line: pick(self.command_line, &default.command_line),
            signal: pick(self.signal, &default.signal),
            user_id: pick_u32(self.user_id, &default.user_id),
            user_name: pick(self.user_name, &default.user_name),
            group_by: pick(self.group_by, &default.group_by),
            keep_count: if self.keep_count.is_some() {
                self.keep_count
            } else {
                default.keep_count
            },
        }
    }

    /// Whether the rule constrains nothing, and so matches every dump.
    pub fn is_empty(&self) -> (b: bool)
        ensures
            b == is_unconstrained(self@),
    {
        self.process_name.is_empty() && self.executable_path.is_empty()
            && self.command_line.is_empty() && self.signal.is_empty() && self.user_id.is_empty()
            && self.user_name.is_empty()
    }

    /// Whether the constraints of the rule are on what only the journal knows.
    pub fn needs_journal(&self) -> (b: bool)
        ensures
            b == (self@.executable_path.len() > 0 || self@.command_line.len() > 0
                || self@.signal.len() > 0),
    {
        !self.executable_path.is_empty() || !self.command_line.is_empty()
            || !self.signal.is_empty()
    }
}

/// The name of the section whose fields are defaults for every rule.
pub const DEFAULT_RULE_NAME: &'static str = "DEFAULT";

/// The keys that a document may have.
pub open spec fn top_level_keys() -> Seq<Seq<char>> {
    seq!["coredump_directory"@, "idle_interval"@, "minimum_age"@, "dry_run"@, "rules"@]
}

/// The keys that the table of a rule may have.
pub open spec fn rule_keys() -> Seq<Seq<char>> {
    seq![
        "process_name"@,
        "executable_path"@,
        "command_line"@,
        "signal"@,
        "user_id"@,
        "user_name"@,
        "group_by"@,
        "keep_count"@,
    ]
}

/// The fields by which dumps can be grouped.
pub open spec fn is_group_by_field(name: Seq<char>) -> bool {
    ||| name == "process_name"@
    ||| name == "executable_path"@
    ||| name == "command_line"@
    ||| name == "signal"@
    ||| name == "user_id"@
    ||| name == "boot_id"@
}

/// The entries of a table.
pub type Entries = Vec<(String, Node)>;

pub open spec fn has_key(key: Seq<char>) -> spec_fn((String, Node)) -> bool {
    |e: (String, Node)| e.0@ == key
}

/// The value under a key of a table.
pub open spec fn entry(table: Seq<(String, Node)>, key: Seq<char>) -> Option<Node> {
    match first_where(table, has_key(key)) {
        Some(i) => Some(table[i].1),
        None => None,
    }
}

pub open spec fn has_other_key(known: Seq<Seq<char>>) -> spec_fn((String, Node)) -> bool {
    |e: (String, Node)| !known.contains(e.0@)
}

/// The complaint about the first key that is not a known one.
pub open spec fn unknown_field(
    table: Seq<(String, Node)>,
    known: Seq<Seq<char>>,
    context: Seq<char>,
) -> Option<Seq<char>> {
    match first_where(table, has_other_key(known)) {
        Some(i) => Some("unknown "@ + context + " field: "@ + table[i].0@),
        None => None,
    }
}

/// The text under a key.
pub open spec fn text_at(table: Seq<(String, Node)>, key: Seq<char>) -> Result<
    Option<Seq<char>>,
    Seq<char>,
> {
    match entry(table, key) {
        None => Ok(None),
        Some(Node::Text(s)) => Ok(Some(s@)),
        Some(_) => Err(key + " must be a string"@),
    }
}

/// The truth value under a key.
pub open spec fn bool_at(table: Seq<(String, Node)>, key: Seq<char>) -> Result<
    Option<bool>,
    Seq<char>,
> {
    match entry(table, key) {
        None => Ok(None),
        Some(Node::Boolean(b)) => Ok(Some(b)),
        Some(_) => Err(key + " must be a boolean"@),
    }
}

/// The duration under a key.
pub open spec fn duration_at(table: Seq<(String, Node)>, key: Seq<char>) -> Result<
    Option<TimeSpan>,
    Seq<char>,
> {
    match text_at(table, key) {
        Err(message) => Err(message),
        Ok(None) => Ok(None),
        Ok(Some(text)) => match human_duration(text) {
            Ok(nanos) => Ok(Some(TimeSpan { nanos })),
            Err(message) => Err(key + ": "@ + message),
        },
    }
}

/// The 32-bit number under a key.
pub open spec fn u32_at(table: Seq<(String, Node)>, key: Seq<char>) -> Result<
    Option<u32>,
    Seq<char>,
> {
    match entry(table, key) {
        None => Ok(None),
        Some(Node::Integer(n)) => if 0 <= n <= u32::MAX {
            Ok(Some(n as u32))
        } else {
            Err(key + " out of range"@)
        },
        Some(_) => Err(key + " must be an integer"@),
    }
}

/// The list of texts under a key; an absent key is an empty list.
pub open spec fn texts_at(table: Seq<(String, Node)>, key: Seq<char>) -> Result<
    Seq<Seq<char>>,
    Seq<char>,
> {
    match entry(table, key) {
        None => Ok(Seq::empty()),
        Some(Node::Array(items)) => if forall|i: int|
            0 <= i < items@.len() ==> #[trigger] items@[i] is Text {
            Ok(items@.map_values(|item: Node| item->Text_0@))
        } else {
            Err(key + ": items must be strings"@)
        },
        Some(_) => Err(key + " must be an array"@),
    }
}

pub open spec fn is_u32(item: Node) -> bool {
    item matches Node::Integer(n) && 0 <= n <= u32::MAX
}

pub open spec fn not_u32() -> spec_fn(Node) -> bool {
    |item: Node| !is_u32(item)
}

/// The list of 32-bit numbers under a key; an absent key is an empty list. The
/// first item that is none decides on the complaint.
pub open spec fn u32s_at(table: Seq<(String, Node)>, key: Seq<char>) -> Result<
    Seq<u32>,
    Seq<char>,
> {
    match entry(table, key) {
        None => Ok(Seq::empty()),
        Some(Node::Array(items)) => match first_where(items@, not_u32()) {
            None => Ok(items@.map_values(|item: Node| item->Integer_0 as u32)),
            Some(i) => match items@[i] {
                Node::Integer(n) => Err(key + ": "@ + decimal_int(n as int) + " out of range"@),
                _ => Err(key + ": items must be integers"@),
            },
        },
        Some(_) => Err(key + " must be an array"@),
    }
}

pub open spec fn not_group_by_field() -> spec_fn(Seq<char>) -> bool {
    |name: Seq<char>| !is_group_by_field(name)
}

/// The complaint about a field by which dumps cannot be grouped.
pub open spec fn bad_group_by(name: Seq<char>) -> Seq<char> {
    "group_by: unknown field "@ + debug_text(name)
        + " (allowed: process_name, executable_path, command_line, signal, user_id, boot_id)"@
}

/// The rule that a table stands for, or the first complaint about it.
pub open spec fn rule_of(table: Seq<(String, Node)>) -> Result<RuleModel, Seq<char>> {
    match unknown_field(table, rule_keys(), "rule"@) {
        Some(message) => Err(message),
        None => match texts_at(table, "group_by"@) {
            Err(message) => Err(message),
            Ok(group_by) => match first_where(group_by, not_group_by_field()) {
                Some(i) => Err(bad_group_by(group_by[i])),
                None => rule_with(table, group_by),
            },
        },
    }
}

/// The rule that a table stands for, given the fields it groups by.
pub open spec fn rule_with(table: Seq<(String, Node)>, group_by: Seq<Seq<char>>) -> Result<
    RuleModel,
    Seq<char>,
> {
    match texts_at(table, "process_name"@) {
        Err(message) => Err(message),
        Ok(process_name) => match texts_at(table, "executable_path"@) {
            Err(message) => Err(message),
            Ok(executable_path) => match texts_at(table, "command_line"@) {
                Err(message) => Err(message),
                Ok(command_line) => match texts_at(table, "signal"@) {
                    Err(message) => Err(message),
                    Ok(signal) => match u32s_at(table, "user_id"@) {
                        Err(message) => Err(message),
                        Ok(user_id) => match texts_at(table, "user_name"@) {
                            Err(message) => Err(message),
                            Ok(user_name) => match u32_at(table, "keep_count"@) {
                                Err(message) => Err(message),
                                Ok(keep_count) => Ok(
                                    RuleModel {
                                        process_name,
                                        executable_path,
                                        command_line,
                                        signal,
                                        user_id,
                                        user_name,
                                        group_by,
                                        keep_count,
                                    },
                                ),
                            },
                        },
                    },
                },
            },
        },
    }
}

/// The rule of the default section, if there is one.
pub open spec fn default_of(rules: Seq<(String, Node)>) -> Result<Option<RuleModel>, Seq<char>> {
    match entry(rules, DEFAULT_RULE_NAME@) {
        None => Ok(None),
        Some(Node::Table(table)) => match rule_of(table@) {
            Ok(rule) => Ok(Some(rule)),
            Err(message) => Err("rules.DEFAULT: "@ + message),
        },
        Some(_) => Err("rules.DEFAULT must be a table"@),
    }
}

/// The rule under a name.
pub open spec fn named_rule(name: Seq<char>, node: Node) -> Result<RuleModel, Seq<char>> {
    match node {
        Node::Table(table) => match rule_of(table@) {
            Ok(rule) => Ok(rule),
            Err(message) => Err("rules."@ + name + ": "@ + message),
        },
        _ => Err("rules."@ + name + " must be a table"@),
    }
}

/// The rules besides the default section, in order, each with the defaults
/// merged into it; or the first complaint.
pub open spec fn other_rules(rules: Seq<(String, Node)>, default: RuleModel) -> Result<
    Seq<(Seq<char>, RuleModel)>,
    Seq<char>,
>
    decreases rules.len(),
{
    if rules.len() == 0 {
        Ok(Seq::empty())
    } else {
        match other_rules(rules.drop_last(), default) {
            Err(message) => Err(message),
            Ok(before) => {
                let name = rules.last().0@;
                if name == DEFAULT_RULE_NAME@ {
                    Ok(before)
                } else {
                    match named_rule(name, rules.last().1) {
                        Err(message) => Err(message),
                        Ok(rule) => Ok(before.push((name, merged(rule, default)))),
                    }
                }
            },
        }
    }
}

/// All rules: the named ones in the order of the document, then the default
/// section, if there is one.
pub open spec fn rule_list(rules: Seq<(String, Node)>) -> Result<
    Seq<(Seq<char>, RuleModel)>,
    Seq<char>,
> {
    match default_of(rules) {
        Err(message) => Err(message),
        Ok(None) => other_rules(rules, empty_rule()),
        Ok(Some(default)) => match other_rules(rules, default) {
            Err(message) => Err(message),
            Ok(named) => Ok(named.push((DEFAULT_RULE_NAME@, default))),
        },
    }
}

pub open spec fn rules_at(table: Seq<(String, Node)>) -> Result<
    Seq<(Seq<char>, RuleModel)>,
    Seq<char>,
> {
    match entry(table, "rules"@) {
        None => Ok(Seq::empty()),
        Some(Node::Table(rules)) => rule_list(rules@),
        Some(_) => Err("rules must be a table"@),
    }
}

/// The configuration that a document stands for, or the first complaint about
/// it.
pub open spec fn config_of(document: Node) -> Result<ConfigModel, Seq<char>> {
    match document {
        Node::Table(table) => config_of_table(table@),
        _ => Err("top level must be a table"@),
    }
}

pub open spec fn config_of_table(table: Seq<(String, Node)>) -> Result<ConfigModel, Seq<char>> {
    match unknown_field(table, top_level_keys(), "top-level"@) {
        Some(message) => Err(message),
        None => match text_at(table, "coredump_directory"@) {
            Err(message) => Err(message),
            Ok(directory) => match duration_at(table, "idle_interval"@) {
                Err(message) => Err(message),
                Ok(idle) => match duration_at(table, "minimum_age"@) {
                    Err(message) => Err(message),
                    Ok(age) => match bool_at(table, "dry_run"@) {
                        Err(message) => Err(message),
                        Ok(dry_run) => match rules_at(table) {
                            Err(message) => Err(message),
                            Ok(rules) => Ok(
                                ConfigModel {
                                    coredump_directory: match directory {
                                        Some(d) => d,
                                        None => "/var/lib/systemd/coredump"@,
                                    },
                                    idle_interval: match idle {
                                        Some(span) => span,
                                        None => TimeSpan { nanos: 300_000_000_000 },
                                    },
                                    minimum_age: match age {
                                        Some(span) => span,
                                        None => TimeSpan { nanos: 30_000_000_000 },
                                    },
                                    dry_run: match dry_run {
                                        Some(b) => b,
                                        None => false,
                                    },
                                    rules,
                                },
                            ),
                        },
                    },
                },
            },
        },
    }
}

fn group_by_field(name: &str) -> (b: bool)
    ensures
        b == is_group_by_field(name@),
{
    str_eq(name, "process_name") || str_eq(name, "executable_path") || str_eq(name, "command_line")
        || str_eq(name, "signal") || str_eq(name, "user_id") || str_eq(name, "boot_id")
}

/// Looks a key up in a table.
fn get<'a>(table: &'a Entries, key: &str) -> (node: Option<&'a Node>)
    ensures
        match node {
            Some(n) => entry(table@, key@) == Some(*n),
            None => entry(table@, key@) is None,
        },
{
    let mut i: usize = 0;
    while i < table.len()
        invariant
            i <= table@.len(),
            forall|j: int| 0 <= j < i ==> !has_key(key@)(#[trigger] table@[j]),
        decreases table@.len() - i,
    {
        if str_eq(table[i].0.as_str(), key) {
            proof {
                assert(is_first(table@, has_key(key@), i as int));
                lemma_first_found(table@, has_key(key@), i as int);
            }
            return Some(&table[i].1);
        }
        i = i + 1;
    }
    proof {
        lemma_first_where(table@, has_key(key@));
    }
    None
}

fn unknown_field_message(context: &str, key: &str) -> (message: String)
    ensures
        message@ == "unknown "@ + context@ + " field: "@ + key@,
{
    let mut message = String::from_str("unknown ");
    message.append(context);
    message.append(" field: ");
    message.append(key);
    message
}

pub open spec fn strs(list: Seq<&str>) -> Seq<Seq<char>> {
    list.map_values(|s: &str| s@)
}

/// Checks that a table has known keys only.
fn check_known(table: &Entries, known: &[&str], context: &str) -> (r: Result<(), String>)
    ensures
        match r {
            Ok(_) => unknown_field(table@, strs(known@), context@) is None,
            Err(message) => unknown_field(table@, strs(known@), context@) == Some(message@),
        },
{
    let ghost keys = strs(known@);
    let mut i: usize = 0;
    while i < table.len()
        invariant
            keys == strs(known@),
            i <= table@.len(),
            forall|j: int| 0 <= j < i ==> !has_other_key(keys)(#[trigger] table@[j]),
        decreases table@.len() - i,
    {
        let key = table[i].0.as_str();
        let mut found = false;
        let mut k: usize = 0;
        while k < known.len()
            invariant
                keys == strs(known@),
                k <= known@.len(),
                found == exists|j: int| 0 <= j < k && #[trigger] keys[j] == key@,
            decreases known@.len() - k,
        {
            assert(keys[k as int] == known@[k as int]@);
            if str_eq(known[k], key) {
                found = true;
            }
            k = k + 1;
        }
        assert(found == keys.contains(key@));
        if !found {
            proof {
                assert(is_first(table@, has_other_key(keys), i as int));
                lemma_first_found(table@, has_other_key(keys), i as int);
            }
            return Err(unknown_field_message(context, key));
        }
        i = i + 1;
    }
    proof {
        lemma_first_where(table@, has_other_key(keys));
    }
    Ok(())
}

/// `<key><complaint>`, the message about a value that is not what it must be.
fn complain(key: &str, complaint: &str) -> (message: String)
    ensures
        message@ == key@ + complaint@,
{
    let mut message = String::from_str(key);
    message.append(complaint);
    message
}

fn parse_string(table: &Entries, key: &str) -> (r: Result<Option<String>, String>)
    ensures
        match r {
            Ok(None) => text_at(table@, key@) == Ok::<Option<Seq<char>>, Seq<char>>(None),
            Ok(Some(s)) => text_at(table@, key@) == Ok::<Option<Seq<char>>, Seq<char>>(Some(s@)),
            Err(message) => text_at(table@, key@) == Err::<Option<Seq<char>>, Seq<char>>(message@),
        },
{
    match get(table, key) {
        None => Ok(None),
        Some(Node::Text(s)) => Ok(Some(s.clone())),
        Some(_) => Err(complain(key, " must be a string")),
    }
}

fn parse_bool(table: &Entries, key: &str) -> (r: Result<Option<bool>, String>)
    ensures
        match r {
            Ok(b) => bool_at(table@, key@) == Ok::<Option<bool>, Seq<char>>(b),
            Err(message) => bool_at(table@, key@) == Err::<Option<bool>, Seq<char>>(message@),
        },
{
    match get(table, key) {
        None => Ok(None),
        Some(Node::Boolean(b)) => Ok(Some(*b)),
        Some(_) => Err(complain(key, " must be a boolean")),
    }
}

/// Whether the text under a key, if there is one, can be read as a duration or
/// refused as one.
pub open spec fn readable_at(table: Seq<(String, Node)>, key: Seq<char>) -> bool {
    text_at(table, key) matches Ok(Some(text)) ==> is_readable_span(text)
}

fn parse_duration(table: &Entries, key: &str) -> (r: Result<Option<TimeSpan>, String>)
    requires
        readable_at(table@, key@),
    ensures
        match r {
            Ok(span) => duration_at(table@, key@) == Ok::<Option<TimeSpan>, Seq<char>>(span),
            Err(message) => duration_at(table@, key@) == Err::<Option<TimeSpan>, Seq<char>>(
                message@,
            ),
        },
{
    match parse_string(table, key) {
        Err(message) => Err(message),
        Ok(None) => Ok(None),
        Ok(Some(text)) => match parse_human(text.as_str()) {
            Ok(nanos) => Ok(Some(TimeSpan { nanos })),
            Err(problem) => {
                let mut message = complain(key, ": ");
                message.append(problem.as_str());
                Err(message)
            },
        },
    }
}

fn parse_u32(table: &Entries, key: &str) -> (r: Result<Option<u32>, String>)
    ensures
        match r {
            Ok(n) => u32_at(table@, key@) == Ok::<Option<u32>, Seq<char>>(n),
            Err(message) => u32_at(table@, key@) == Err::<Option<u32>, Seq<char>>(message@),
        },
{
    match get(table, key) {
        None => Ok(None),
        Some(Node::Integer(n)) => if 0 <= *n && *n <= 4294967295 {
            Ok(Some(*n as u32))
        } else {
            Err(complain(key, " out of range"))
        },
        Some(_) => Err(complain(key, " must be an integer")),
    }
}

fn parse_string_vec(table: &Entries, key: &str) -> (r: Result<Vec<String>, String>)
    ensures
        match r {
            Ok(list) => texts_at(table@, key@) == Ok::<Seq<Seq<char>>, Seq<char>>(texts(list@)),
            Err(message) => texts_at(table@, key@) == Err::<Seq<Seq<char>>, Seq<char>>(message@),
        },
{
    let items = match get(table, key) {
        None => {
            let list: Vec<String> = Vec::new();
            assert(texts(list@) =~= Seq::empty());
            return Ok(list);
        },
        Some(Node::Array(items)) => items,
        Some(_) => return Err(complain(key, " must be an array")),
    };
    let mut list: Vec<String> = Vec::new();
    let mut i: usize = 0;
    while i < items.len()
        invariant
            entry(table@, key@) == Some(Node::Array(*items)),
            i <= items@.len(),
            list@.len() == i,
            forall|j: int|
                0 <= j < i ==> #[trigger] items@[j] is Text && list@[j]@ == items@[j]->Text_0@,
        decreases items@.len() - i,
    {
        match &items[i] {
            Node::Text(s) => {
                list.push(s.clone());
            },
            _ => {
                assert(!(items@[i as int] is Text));
                return Err(complain(key, ": items must be strings"));
            },
        }
        i = i + 1;
    }
    assert(texts(list@) =~= items@.map_values(|item: Node| item->Text_0@));
    Ok(list)
}

fn parse_u32_vec(table: &Entries, key: &str) -> (r: Result<Vec<u32>, String>)
    ensures
        match r {
            Ok(list) => u32s_at(table@, key@) == Ok::<Seq<u32>, Seq<char>>(list@),
            Err(message) => u32s_at(table@, key@) == Err::<Seq<u32>, Seq<char>>(message@),
        },
{
    let items = match get(table, key) {
        None => {
            let list: Vec<u32> = Vec::new();
            return Ok(list);
        },
        Some(Node::Array(items)) => items,
        Some(_) => return Err(complain(key, " must be an array")),
    };
    let mut list: Vec<u32> = Vec::new();
    let mut i: usize = 0;
    while i < items.len()
        invariant
            entry(table@, key@) == Some(Node::Array(*items)),
            i <= items@.len(),
            list@.len() == i,
            forall|j: int|
                0 <= j < i ==> !not_u32()(#[trigger] items@[j]) && list@[j]
                    == items@[j]->Integer_0 as u32,
        decreases items@.len() - i,
    {
        let bad = match &items[i] {
            Node::Integer(n) => if 0 <= *n && *n <= 4294967295 {
                list.push(*n as u32);
                None
            } else {
                let mut message = complain(key, ": ");
                let number = decimal_of_int(*n);
                message.append(number.as_str());
                message.append(" out of range");
                Some(message)
            },
            _ => Some(complain(key, ": items must be integers")),
        };
        if let Some(message) = bad {
            proof {
                assert(is_first(items@, not_u32(), i as int));
                lemma_first_found(items@, not_u32(), i as int);
            }
            return Err(message);
        }
        i = i + 1;
    }
    proof {
        lemma_first_where(items@, not_u32());
    }
    assert(list@ =~= items@.map_values(|item: Node| item->Integer_0 as u32));
    Ok(list)
}

/// Checks that dumps can be grouped by each of these fields.
fn check_group_by(group_by: &Vec<String>) -> (r: Result<(), String>)
    ensures
        match r {
            Ok(_) => first_where(texts(group_by@), not_group_by_field()) is None,
            Err(message) => first_where(texts(group_by@), not_group_by_field()) matches Some(i)
                && message@ == bad_group_by(texts(group_by@)[i]),
        },
{
    let ghost names = texts(group_by@);
    let mut i: usize = 0;
    while i < group_by.len()
        invariant
            names == texts(group_by@),
            i <= group_by@.len(),
            forall|j: int| 0 <= j < i ==> !not_group_by_field()(#[trigger] names[j]),
        decreases group_by@.len() - i,
    {
        assert(names[i as int] == group_by@[i as int]@);
        if !group_by_field(group_by[i].as_str()) {
            proof {
                assert(is_first(names, not_group_by_field(), i as int));
                lemma_first_found(names, not_group_by_field(), i as int);
            }
            let mut message = String::from_str("group_by: unknown field ");
            let shown = debug_format(group_by[i].as_str());
            message.append(shown.as_str());
            message.append(
                " (allowed: process_name, executable_path, command_line, signal, user_id, boot_id)",
            );
            return Err(message);
        }
        i = i + 1;
    }
    proof {
        lemma_first_where(names, not_group_by_field());
    }
    Ok(())
}

/// Reads the table of a rule.
pub fn parse_rule(table: &Entries) -> (r: Result<Rule, String>)
    ensures
        match r {
            Ok(rule) => rule_of(table@) == Ok::<RuleModel, Seq<char>>(rule@),
            Err(message) => rule_of(table@) == Err::<RuleModel, Seq<char>>(message@),
        },
{
    let known = [
        "process_name",
        "executable_path",
        "command_line",
        "signal",
        "user_id",
        "user_name",
        "group_by",
        "keep_count",
    ];
    assert(strs(known@) =~= rule_keys());
    if let Err(message) = check_known(table, &known, "rule") {
        return Err(message);
    }
    let group_by = match parse_string_vec(table, "group_by") {
        Ok(list) => list,
        Err(message) => return Err(message),
    };
    if let Err(message) = check_group_by(&group_by) {
        return Err(message);
    }
    let process_name = match parse_string_vec(table, "process_name") {
        Ok(list) => list,
        Err(message) => return Err(message),
    };
    let executable_path = match parse_string_vec(table, "executable_path") {
        Ok(list) => list,
        Err(message) => return Err(message),
    };
    let command_line = match parse_string_vec(table, "command_line") {
        Ok(list) => list,
        Err(message) => return Err(message),
    };
    let signal = match parse_string_vec(table, "signal") {
        Ok(list) => list,
        Err(message) => return Err(message),
    };
    let user_id = match parse_u32_vec(table, "user_id") {
        Ok(list) => list,
        Err(message) => return Err(message),
    };
    let user_name = match parse_string_vec(table, "user_name") {
        Ok(list) => list,
        Err(message) => return Err(message),
    };
    let keep_count = match parse_u32(table, "keep_count") {
        Ok(n) => n,
        Err(message) => return Err(message),
    };
    Ok(
        Rule {
            process_name,
            executable_path,
            command_line,
            signal,
            user_id,
            user_name,
            group_by,
            keep_count,
        },
    )
}

proof fn lemma_complaint_stays(rules: Seq<(String, Node)>, default: RuleModel, n: int)
    requires
        0 <= n <= rules.len(),
        other_rules(rules.take(n), default) is Err,
    ensures
        other_rules(rules, default) == other_rules(rules.take(n), default),
    decreases rules.len(),
{
    if n < rules.len() {
        assert(rules.drop_last().take(n) =~= rules.take(n));
        lemma_complaint_stays(rules.drop_last(), default, n);
    } else {
        assert(rules.take(n) =~= rules);
    }
}

/// Reads the rules besides the default section.
fn parse_other_rules(rules: &Entries, default: &Rule) -> (r: Result<Vec<NamedRule>, String>)
    ensures
        match r {
            Ok(list) => other_rules(rules@, default@) == Ok::<
                Seq<(Seq<char>, RuleModel)>,
                Seq<char>,
            >(named_rules(list@)),
            Err(message) => other_rules(rules@, default@) == Err::<
                Seq<(Seq<char>, RuleModel)>,
                Seq<char>,
            >(message@),
        },
{
    let mut list: Vec<NamedRule> = Vec::new();
    let mut i: usize = 0;
    assert(rules@.take(0) =~= Seq::<(String, Node)>::empty());
    assert(named_rules(list@) =~= Seq::empty());
    while i < rules.len()
        invariant
            i <= rules@.len(),
            other_rules(rules@.take(i as int), default@) == Ok::<
                Seq<(Seq<char>, RuleModel)>,
                Seq<char>,
            >(named_rules(list@)),
        decreases rules@.len() - i,
    {
        let ghost upto = rules@.take(i + 1);
        assert(upto.drop_last() =~= rules@.take(i as int));
        assert(upto.last() == rules@[i as int]);
        let name = &rules[i].0;
        if !str_eq(name.as_str(), DEFAULT_RULE_NAME) {
            let table = match &rules[i].1 {
                Node::Table(table) => table,
                _ => {
                    let mut message = String::from_str("rules.");
                    message.append(name.as_str());
                    message.append(" must be a table");
                    proof {
                        lemma_complaint_stays(rules@, default@, i + 1);
                    }
                    return Err(message);
                },
            };
            let rule = match parse_rule(table) {
                Ok(rule) => rule,
                Err(problem) => {
                    let mut message = String::from_str("rules.");
                    message.append(name.as_str());
                    message.append(": ");
                    message.append(problem.as_str());
                    proof {
                        lemma_complaint_stays(rules@, default@, i + 1);
                    }
                    return Err(message);
                },
            };
            let ghost before = named_rules(list@);
            let named = NamedRule { name: name.clone(), rule: rule.merge_default(default) };
            list.push(named);
            assert(named_rules(list@) =~= before.push(named@));
        }
        i = i + 1;
    }
    assert(rules@.take(rules@.len() as int) =~= rules@);
    Ok(list)
}

/// Reads all rules.
fn parse_rules(rules: &Entries) -> (r: Result<Vec<NamedRule>, String>)
    ensures
        match r {
            Ok(list) => rule_list(rules@) == Ok::<Seq<(Seq<char>, RuleModel)>, Seq<char>>(
                named_rules(list@),
            ),
            Err(message) => rule_list(rules@) == Err::<Seq<(Seq<char>, RuleModel)>, Seq<char>>(
                message@,
            ),
        },
{
    match get(rules, DEFAULT_RULE_NAME) {
        None => {
            let default = Rule::default();
            parse_other_rules(rules, &default)
        },
        Some(Node::Table(table)) => {
            let default = match parse_rule(table) {
                Ok(rule) => rule,
                Err(problem) => {
                    let mut message = String::from_str("rules.DEFAULT: ");
                    message.append(problem.as_str());
                    return Err(message);
                },
            };
            match parse_other_rules(rules, &default) {
                Err(message) => Err(message),
                Ok(mut list) => {
                    let ghost before = named_rules(list@);
                    let named = NamedRule {
                        name: String::from_str(DEFAULT_RULE_NAME),
                        rule: default,
                    };
                    list.push(named);
                    assert(named_rules(list@) =~= before.push(named@));
                    Ok(list)
                },
            }
        },
        Some(_) => Err(String::from_str("rules.DEFAULT must be a table")),
    }
}

/// Whether both durations of a document can be read or refused.
pub open spec fn durations_readable(document: Node) -> bool {
    document matches Node::Table(table) ==> readable_at(table@, "idle_interval"@) && readable_at(
        table@,
        "minimum_age"@,
    )
}

fn readable_under(table: &Entries, key: &str) -> (b: bool)
    ensures
        b == readable_at(table@, key@),
{
    match get(table, key) {
        Some(Node::Text(s)) => readable_span(s.as_str()),
        _ => true,
    }
}

impl Config {
    /// Reads a document.
    pub fn from_document(document: &Node) -> (r: Result<Config, String>)
        requires
            durations_readable(*document),
        ensures
            match r {
                Ok(config) => config_of(*document) == Ok::<ConfigModel, Seq<char>>(config@),
                Err(message) => config_of(*document) == Err::<ConfigModel, Seq<char>>(message@),
            },
    {
        let table = match document {
            Node::Table(table) => table,
            _ => return Err(String::from_str("top level must be a table")),
        };
        let known = ["coredump_directory", "idle_interval", "minimum_age", "dry_run", "rules"];
        assert(strs(known@) =~= top_level_keys());
        if let Err(message) = check_known(table, &known, "top-level") {
            return Err(message);
        }
        let coredump_directory = match parse_string(table, "coredump_directory") {
            Ok(Some(directory)) => directory,
            Ok(None) => String::from_str("/var/lib/systemd/coredump"),
            Err(message) => return Err(message),
        };
        let idle_interval = match parse_duration(table, "idle_interval") {
            Ok(Some(span)) => span,
            Ok(None) => TimeSpan::from_secs(300),
            Err(message) => return Err(message),
        };
        let minimum_age = match parse_duration(table, "minimum_age") {
            Ok(Some(span)) => span,
            Ok(None) => TimeSpan::from_secs(30),
            Err(message) => return Err(message),
        };
        let dry_run = match parse_bool(table, "dry_run") {
            Ok(Some(b)) => b,
            Ok(None) => false,
            Err(message) => return Err(message),
        };
        let rules = match get(table, "rules") {
            None => Vec::new(),
            Some(Node::Table(rules)) => match parse_rules(rules) {
                Ok(list) => list,
                Err(message) => return Err(message),
            },
            Some(_) => return Err(String::from_str("rules must be a table")),
        };
        let config = Config { coredump_directory, idle_interval, minimum_age, dry_run, rules };
        assert(entry(table@, "rules"@) is None ==> config@.rules =~= Seq::empty());
        Ok(config)
    }

    /// Whether the durations of a document can be read or refused.
    pub fn is_readable(document: &Node) -> (b: bool)
        ensures
            b == durations_readable(*document),
    {
        match document {
            Node::Table(table) => readable_under(table, "idle_interval") && readable_under(
                table,
                "minimum_age",
            ),
            _ => true,
        }
    }

    /// Reads a configuration.
    pub fn parse(s: &str) -> (r: Result<Config, String>)
        requires
            toml_document(s@) matches Ok(document) ==> durations_readable(document),
        ensures
            match r {
                Ok(config) => config_of_text(s@) == Ok::<ConfigModel, Seq<char>>(config@),
                Err(message) => config_of_text(s@) == Err::<ConfigModel, Seq<char>>(message@),
            },
            r matches Ok(config) ==> have_distinct_names(config@.rules),
    {
        match parse_document(s) {
            Ok(document) => {
                let r = Config::from_document(&document);
                proof {
                    if r is Ok {
                        lemma_rule_names_are_distinct(document);
                    }
                }
                r
            },
            Err(message) => Err(message),
        }
    }

    /// Reads a configuration whose durations can be read or refused; `None` if
    /// one of them can not.
    pub fn parse_readable(s: &str) -> (r: Option<Result<Config, String>>)
        ensures
            match r {
                None => toml_document(s@) matches Ok(document) && !durations_readable(document),
                Some(Ok(config)) => {
                    &&& toml_document(s@) matches Ok(document) && durations_readable(document)
                    &&& config_of_text(s@) == Ok::<ConfigModel, Seq<char>>(config@)
                    &&& have_distinct_names(config@.rules)
                },
                Some(Err(message)) => {
                    &&& toml_document(s@) matches Ok(document) ==> durations_readable(document)
                    &&& config_of_text(s@) == Err::<ConfigModel, Seq<char>>(message@)
                },
            },
    {
        if let Ok(document) = parse_document(s) {
            if !Config::is_readable(&document) {
                return None;
            }
        }
        Some(Config::parse(s))
    }
}

/// The configuration that a text stands for, or the first complaint about it.
pub open spec fn config_of_text(text: Seq<char>) -> Result<ConfigModel, Seq<char>> {
    match toml_document(text) {
        Ok(document) => config_of(document),
        Err(message) => Err(message),
    }
}

/// Why a configuration could not be loaded. The path is given as it is shown,
/// the reading error as its message.
#[derive(Debug)]
pub enum ConfigError {
    Io(String, String),
    Parse(String, String),
}

/// The model of a [`ConfigError`].
pub enum LoadFault {
    Io(Seq<char>, Seq<char>),
    Parse(Seq<char>, Seq<char>),
}

impl View for ConfigError {
    type V = LoadFault;

    open spec fn view(&self) -> LoadFault {
        match self {
            ConfigError::Io(path, problem) => LoadFault::Io(path@, problem@),
            ConfigError::Parse(path, problem) => LoadFault::Parse(path@, problem@),
        }
    }
}

/// A fault as a sentence.
pub open spec fn config_message(fault: LoadFault) -> Seq<char> {
    match fault {
        LoadFault::Io(path, problem) => "read "@ + path + ": "@ + problem,
        LoadFault::Parse(path, problem) => "parse "@ + path + ": "@ + problem,
    }
}

impl ConfigError {
    /// The error as a sentence.
    pub fn message(&self) -> (text: String)
        ensures
            text@ == config_message(self@),
    {
        let (mut text, path, problem) = match self {
            ConfigError::Io(path, problem) => (String::from_str("read "), path, problem),
            ConfigError::Parse(path, problem) => (String::from_str("parse "), path, problem),
        };
        text.append(path.as_str());
        text.append(": ");
        text.append(problem.as_str());
        text
    }
}

impl Config {
    /// Makes a configuration of what was read from a file, or of the message
    /// that says why nothing could be read. `None` if one of the durations can
    /// be neither read nor refused.
    pub fn load(path: &str, contents: Result<String, String>) -> (r: Option<
        Result<Config, ConfigError>,
    >)
        ensures
            match contents {
                Err(problem) => r matches Some(Err(e)) && e@ == LoadFault::Io(path@, problem@),
                Ok(text) => match r {
                    None => toml_document(text@) matches Ok(document) && !durations_readable(
                        document,
                    ),
                    Some(Ok(config)) => {
                        &&& toml_document(text@) matches Ok(document)
                        &&& durations_readable(document)
                        &&& config_of_text(text@) == Ok::<ConfigModel, Seq<char>>(config@)
                        &&& have_distinct_names(config@.rules)
                    },
                    Some(Err(e)) => {
                        &&& toml_document(text@) matches Ok(document) ==> durations_readable(
                            document,
                        )
                        &&& config_of_text(text@) matches Err(message) && e@ == LoadFault::Parse(
                            path@,
                            message,
                        )
                    },
                },
            },
    {
        match contents {
            Err(problem) => Some(Err(ConfigError::Io(path.to_owned(), problem))),
            Ok(text) => match Config::parse_readable(text.as_str()) {
                None => None,
                Some(Ok(config)) => Some(Ok(config)),
                Some(Err(message)) => Some(Err(ConfigError::Parse(path.to_owned(), message))),
            },
        }
    }
}

pub open spec fn is_not_default() -> spec_fn((String, Node)) -> bool {
    |e: (String, Node)| e.0@ != DEFAULT_RULE_NAME@
}

/// Rules keep the order of the document, and the defaults are merged into each
/// of them.
pub proof fn lemma_rules_in_source_order(rules: Seq<(String, Node)>, default: RuleModel)
    requires
        other_rules(rules, default) is Ok,
    ensures
        ({
            let list = other_rules(rules, default)->Ok_0;
            let named = rules.filter(is_not_default());
            &&& list.len() == named.len()
            &&& forall|k: int|
                #![trigger list[k]]
                0 <= k < list.len() ==> {
                    &&& list[k].0 == named[k].0@
                    &&& list[k].0 != DEFAULT_RULE_NAME@
                    &&& named_rule(named[k].0@, named[k].1) matches Ok(own) && list[k].1 == merged(
                        own,
                        default,
                    )
                }
        }),
    decreases rules.len(),
{
    reveal(Seq::filter);
    if rules.len() > 0 {
        lemma_rules_in_source_order(rules.drop_last(), default);
        assert(is_not_default()(rules.last()) == (rules.last().0@ != DEFAULT_RULE_NAME@));
    }
}

/// The default section is evaluated as the last rule, under its own name and
/// with its own fields; no other rule has that name. Without the section there
/// is no such rule.
pub proof fn lemma_default_comes_last(rules: Seq<(String, Node)>)
    requires
        rule_list(rules) is Ok,
    ensures
        ({
            let list = rule_list(rules)->Ok_0;
            let named = rules.filter(is_not_default());
            &&& default_of(rules) matches Ok(Some(default)) ==> {
                &&& list.len() == named.len() + 1
                &&& list.last() == (DEFAULT_RULE_NAME@, default)
            }
            &&& default_of(rules) matches Ok(None) ==> list.len() == named.len()
            &&& forall|k: int|
                0 <= k < named.len() ==> (#[trigger] list[k]).0 == named[k].0@ && list[k].0
                    != DEFAULT_RULE_NAME@
        }),
{
    match default_of(rules) {
        Ok(Some(default)) => {
            lemma_rules_in_source_order(rules, default);
            let before = other_rules(rules, default)->Ok_0;
            let list = rule_list(rules)->Ok_0;
            assert forall|k: int| 0 <= k < before.len() implies #[trigger] list[k]
                == before[k] by {}
        },
        Ok(None) => lemma_rules_in_source_order(rules, empty_rule()),
        Err(_) => {},
    }
}

/// Whether no two rules have the same name.
pub open spec fn have_distinct_names(rules: Seq<(Seq<char>, RuleModel)>) -> bool {
    forall|i: int, j: int|
        0 <= i < j < rules.len() ==> (#[trigger] rules[i]).0 != (#[trigger] rules[j]).0
}

/// Whether a table has an entry under a key.
spec fn has_entry(table: Seq<(String, Node)>, key: Seq<char>) -> bool {
    exists|i: int| 0 <= i < table.len() && has_key(key)(#[trigger] table[i])
}

proof fn lemma_other_names(rules: Seq<(String, Node)>, default: RuleModel)
    requires
        are_distinct(rules),
        other_rules(rules, default) is Ok,
    ensures
        have_distinct_names(other_rules(rules, default)->Ok_0),
        forall|k: int|
            0 <= k < other_rules(rules, default)->Ok_0.len() ==> {
                let name = (#[trigger] other_rules(rules, default)->Ok_0[k]).0;
                name != DEFAULT_RULE_NAME@ && has_entry(rules, name)
            },
        other_rules(rules, default)->Ok_0.len() + (if has_entry(rules, DEFAULT_RULE_NAME@) {
            1int
        } else {
            0int
        }) == rules.len(),
    decreases rules.len(),
{
    if rules.len() > 0 {
        let shorter = rules.drop_last();
        let before = other_rules(shorter, default)->Ok_0;
        let list = other_rules(rules, default)->Ok_0;
        let last = rules.len() - 1;
        lemma_other_names(shorter, default);
        assert forall|key: Seq<char>| #[trigger] has_entry(rules, key) <==> has_entry(shorter, key)
            || rules[last].0@ == key by {
            if has_entry(shorter, key) {
                let i = choose|i: int|
                    0 <= i < shorter.len() && has_key(key)(#[trigger] shorter[i]);
                assert(has_key(key)(rules[i]));
            }
            if rules[last].0@ == key {
                assert(has_key(key)(rules[last]));
            }
            if has_entry(rules, key) {
                let i = choose|i: int| 0 <= i < rules.len() && has_key(key)(#[trigger] rules[i]);
                if i < last {
                    assert(has_key(key)(shorter[i]));
                }
            }
        }
        assert(!has_entry(shorter, rules[last].0@)) by {
            if has_entry(shorter, rules[last].0@) {
                let i = choose|i: int|
                    0 <= i < shorter.len() && has_key(rules[last].0@)(#[trigger] shorter[i]);
                assert(rules[i].0@ != rules[last].0@);
            }
        }
        assert forall|k: int| 0 <= k < before.len() implies {
            &&& #[trigger] list[k] == before[k]
            &&& before[k].0 != rules[last].0@
            &&& has_entry(rules, before[k].0)
            &&& before[k].0 != DEFAULT_RULE_NAME@
        } by {
            assert(has_entry(shorter, before[k].0));
        }
        assert(has_entry(rules, rules[last].0@));
    }
}

/// Every section under `rules` is one rule, the default section among them, and
/// no two rules have the same name.
pub proof fn lemma_rule_names_are_distinct(document: Node)
    requires
        has_distinct_keys(document),
        config_of(document) is Ok,
    ensures
        have_distinct_names(config_of(document)->Ok_0.rules),
        entry(document->Table_0@, "rules"@) matches Some(Node::Table(rules)) ==> config_of(
            document,
        )->Ok_0.rules.len() == rules@.len(),
        entry(document->Table_0@, "rules"@) is None ==> config_of(document)->Ok_0.rules.len() == 0,
{
    let table = document->Table_0@;
    if let Some(Node::Table(sections)) = entry(table, "rules"@) {
        let rules = sections@;
        lemma_first_where(table, has_key("rules"@));
        lemma_first_where(rules, has_key(DEFAULT_RULE_NAME@));
        let at = first_where(table, has_key("rules"@))->0;
        assert(has_distinct_keys(table[at].1));
        match default_of(rules) {
            Ok(Some(default)) => {
                lemma_other_names(rules, default);
                let i = first_where(rules, has_key(DEFAULT_RULE_NAME@))->0;
                assert(has_key(DEFAULT_RULE_NAME@)(rules[i]));
                assert(has_entry(rules, DEFAULT_RULE_NAME@));
            },
            Ok(None) => lemma_other_names(rules, empty_rule()),
            Err(_) => {},
        }
    }
}

/// A rule without any field of its own is the default; a default without any
/// field changes nothing; and a field of the rule itself always stays.
pub proof fn lemma_merge(own: RuleModel, default: RuleModel)
    ensures
        merged(empty_rule(), default) == default,
        merged(own, empty_rule()) == own,
        merged(merged(own, default), default) == merged(own, default),
        own.process_name.len() > 0 ==> merged(own, default).process_name == own.process_name,
        own.executable_path.len() > 0 ==> merged(own, default).executable_path
            == own.executable_path,
        own.command_line.len() > 0 ==> merged(own, default).command_line == own.command_line,
        own.signal.len() > 0 ==> merged(own, default).signal == own.signal,
        own.user_id.len() > 0 ==> merged(own, default).user_id == own.user_id,
        own.user_name.len() > 0 ==> merged(own, default).user_name == own.user_name,
        own.group_by.len() > 0 ==> merged(own, default).group_by == own.group_by,
        own.keep_count is Some ==> merged(own, default).keep_count == own.keep_count,
{
    assert(merged(empty_rule(), default) =~= default);
    assert(merged(own, empty_rule()) =~= own);
    assert(merged(merged(own, default), default) =~= merged(own, default));
}

/// Whether a rule groups only by fields by which dumps can be grouped.
pub open spec fn groups_by_known_fields(rule: RuleModel) -> bool {
    first_where(rule.group_by, not_group_by_field()) is None
}

/// Every rule of a configuration that was read groups only by fields by which
/// dumps can be grouped.
pub proof fn lemma_group_fields_are_known(document: Node, k: int)
    requires
        config_of(document) is Ok,
        0 <= k < config_of(document)->Ok_0.rules.len(),
    ensures
        groups_by_known_fields(config_of(document)->Ok_0.rules[k].1),
{
    let table = document->Table_0@;
    let list = config_of(document)->Ok_0.rules;
    let rules = entry(table, "rules"@)->0->Table_0@;
    assert(list == rule_list(rules)->Ok_0);
    match default_of(rules) {
        Ok(Some(default)) => {
            lemma_rules_in_source_order(rules, default);
            let before = other_rules(rules, default)->Ok_0;
            if k < before.len() {
                assert(list[k] == before[k]);
                let named = rules.filter(is_not_default());
                let own = named_rule(named[k].0@, named[k].1)->Ok_0;
                assert(before[k].1 == merged(own, default));
            }
        },
        Ok(None) => {
            lemma_rules_in_source_order(rules, empty_rule());
            let before = other_rules(rules, empty_rule())->Ok_0;
            assert(list[k] == before[k]);
            let named = rules.filter(is_not_default());
            let own = named_rule(named[k].0@, named[k].1)->Ok_0;
            lemma_merge(own, empty_rule());
            assert(before[k].1 == merged(own, empty_rule()));
        },
        Err(_) => {},
    }
}

/// Field by field, and whatever the other fields are: what a rule gives stays,
/// and what it leaves out is taken from the default.
pub proof fn lemma_merge_goes_field_by_field(own: RuleModel, default: RuleModel)
    ensures
        merged(own, default).process_name == if own.process_name.len() > 0 {
            own.process_name
        } else {
            default.process_name
        },
        merged(own, default).executable_path == if own.executable_path.len() > 0 {
            own.executable_path
        } else {
            default.executable_path
        },
        merged(own, default).command_line == if own.command_line.len() > 0 {
            own.command_line
        } else {
            default.command_line
        },
        merged(own, default).signal == if own.signal.len() > 0 {
            own.signal
        } else {
            default.signal
        },
        merged(own, default).user_id == if own.user_id.len() > 0 {
            own.user_id
        } else {
            default.user_id
        },
        merged(own, default).user_name == if own.user_name.len() > 0 {
            own.user_name
        } else {
            default.user_name
        },
        merged(own, default).group_by == if own.group_by.len() > 0 {
            own.group_by
        } else {
            default.group_by
        },
        merged(own, default).keep_count == if own.keep_count is Some {
            own.keep_count
        } else {
            default.keep_count
        },
{
}

/// Whether a table does not have a key.
pub open spec fn lacks(table: Seq<(String, Node)>, key: Seq<char>) -> bool {
    forall|i: int| 0 <= i < table.len() ==> (#[trigger] table[i]).0@ != key
}

/// Whether a table gives a value under a key.
pub open spec fn gives(table: Seq<(String, Node)>, key: Seq<char>, node: Node) -> bool {
    exists|i: int|
        0 <= i < table.len() && (#[trigger] table[i]).0@ == key && table[i].1 == node
}

/// In a table, a key gives the one value that stands beside it.
pub proof fn lemma_entry(table: Seq<(String, Node)>, key: Seq<char>, node: Node)
    requires
        are_distinct(table),
    ensures
        entry(table, key) == Some(node) <==> gives(table, key, node),
        entry(table, key) is None <==> lacks(table, key),
{
    lemma_first_where(table, has_key(key));
    if gives(table, key, node) {
        let i = choose|i: int|
            0 <= i < table.len() && (#[trigger] table[i]).0@ == key && table[i].1 == node;
        assert(has_key(key)(table[i]));
        let k = first_where(table, has_key(key))->0;
        if k < i {
            assert(table[k].0@ != table[i].0@);
        } else if i < k {
            assert(table[i].0@ != table[k].0@);
        }
    }
    match first_where(table, has_key(key)) {
        Some(k) => {
            assert(has_key(key)(table[k]));
            assert(table[k].0@ == key);
            if entry(table, key) == Some(node) {
                assert(gives(table, key, node));
            }
        },
        None => {
            assert forall|i: int| 0 <= i < table.len() implies (#[trigger] table[i]).0@ != key by {
                assert(!has_key(key)(table[i]));
            }
        },
    }
}

/// Whether the items of an array are these texts, one by one.
pub open spec fn are_texts(items: Seq<Node>, list: Seq<Seq<char>>) -> bool {
    &&& items.len() == list.len()
    &&& forall|k: int|
        0 <= k < items.len() ==> (#[trigger] items[k] matches Node::Text(s) && s@ == list[k])
}

/// Whether the items of an array are these numbers, one by one.
pub open spec fn are_numbers(items: Seq<Node>, list: Seq<u32>) -> bool {
    &&& items.len() == list.len()
    &&& forall|k: int|
        0 <= k < items.len() ==> (#[trigger] items[k] matches Node::Integer(n) && n == list[k])
}

/// Whether a table gives these texts under a key: as an array, item by item, or
/// none, if it does not have the key.
pub open spec fn gives_texts(
    table: Seq<(String, Node)>,
    key: Seq<char>,
    list: Seq<Seq<char>>,
) -> bool {
    ||| lacks(table, key) && list.len() == 0
    ||| exists|i: int|
        0 <= i < table.len() && (#[trigger] table[i]).0@ == key && (table[i].1 matches Node::Array(
            items,
        ) && are_texts(items@, list))
}

/// Whether a table gives these numbers under a key: as an array, item by item,
/// or none, if it does not have the key.
pub open spec fn gives_numbers(
    table: Seq<(String, Node)>,
    key: Seq<char>,
    list: Seq<u32>,
) -> bool {
    ||| lacks(table, key) && list.len() == 0
    ||| exists|i: int|
        0 <= i < table.len() && (#[trigger] table[i]).0@ == key && (table[i].1 matches Node::Array(
            items,
        ) && are_numbers(items@, list))
}

/// Whether a table gives this number under a key, or does not have the key.
pub open spec fn gives_number(
    table: Seq<(String, Node)>,
    key: Seq<char>,
    number: Option<u32>,
) -> bool {
    match number {
        None => lacks(table, key),
        Some(value) => exists|i: int|
            0 <= i < table.len() && (#[trigger] table[i]).0@ == key && (
            table[i].1 matches Node::Integer(n) && n == value),
    }
}

/// Texts are read from the array under their key, and from nowhere else.
pub proof fn lemma_texts_are_read(
    table: Seq<(String, Node)>,
    key: Seq<char>,
    list: Seq<Seq<char>>,
)
    requires
        are_distinct(table),
    ensures
        texts_at(table, key) == Ok::<Seq<Seq<char>>, Seq<char>>(list) <==> gives_texts(
            table,
            key,
            list,
        ),
{
    let ok = Ok::<Seq<Seq<char>>, Seq<char>>(list);
    lemma_first_where(table, has_key(key));
    lemma_entry(table, key, Node::Float);
    if texts_at(table, key) == ok {
        if let Some(node) = entry(table, key) {
            lemma_entry(table, key, node);
            let i = choose|i: int|
                0 <= i < table.len() && (#[trigger] table[i]).0@ == key && table[i].1 == node;
            let items = node->Array_0@;
            assert(are_texts(items, list));
            assert(table[i].0@ == key);
        }
    }
    if gives_texts(table, key, list) {
        if lacks(table, key) && list.len() == 0 {
            assert(list =~= Seq::empty());
        } else {
            let i = choose|i: int|
                0 <= i < table.len() && (#[trigger] table[i]).0@ == key && (
                table[i].1 matches Node::Array(items) && are_texts(items@, list));
            lemma_entry(table, key, table[i].1);
            assert(gives(table, key, table[i].1));
            let items = table[i].1->Array_0@;
            assert(items.map_values(|item: Node| item->Text_0@) =~= list);
        }
    }
}

/// Numbers are read from the array under their key, and from nowhere else.
pub proof fn lemma_numbers_are_read(table: Seq<(String, Node)>, key: Seq<char>, list: Seq<u32>)
    requires
        are_distinct(table),
    ensures
        u32s_at(table, key) == Ok::<Seq<u32>, Seq<char>>(list) <==> gives_numbers(
            table,
            key,
            list,
        ),
{
    let ok = Ok::<Seq<u32>, Seq<char>>(list);
    lemma_entry(table, key, Node::Float);
    if u32s_at(table, key) == ok {
        if let Some(node) = entry(table, key) {
            lemma_entry(table, key, node);
            let i = choose|i: int|
                0 <= i < table.len() && (#[trigger] table[i]).0@ == key && table[i].1 == node;
            let items = node->Array_0@;
            lemma_first_where(items, not_u32());
            assert forall|k: int| 0 <= k < items.len() implies (
            #[trigger] items[k] matches Node::Integer(n) && n == list[k]) by {
                assert(!not_u32()(items[k]));
            }
            assert(are_numbers(items, list));
            assert(table[i].0@ == key);
        }
    }
    if gives_numbers(table, key, list) {
        if lacks(table, key) && list.len() == 0 {
            assert(list =~= Seq::empty());
        } else {
            let i = choose|i: int|
                0 <= i < table.len() && (#[trigger] table[i]).0@ == key && (
                table[i].1 matches Node::Array(items) && are_numbers(items@, list));
            lemma_entry(table, key, table[i].1);
            assert(gives(table, key, table[i].1));
            let items = table[i].1->Array_0@;
            lemma_first_where(items, not_u32());
            if let Some(k) = first_where(items, not_u32()) {
                assert(items[k] is Integer);
            }
            assert(items.map_values(|item: Node| item->Integer_0 as u32) =~= list);
        }
    }
}

/// A number is read from under its key, and from nowhere else.
pub proof fn lemma_number_is_read(
    table: Seq<(String, Node)>,
    key: Seq<char>,
    number: Option<u32>,
)
    requires
        are_distinct(table),
    ensures
        u32_at(table, key) == Ok::<Option<u32>, Seq<char>>(number) <==> gives_number(
            table,
            key,
            number,
        ),
{
    lemma_entry(table, key, Node::Float);
    if let Some(node) = entry(table, key) {
        lemma_entry(table, key, node);
        let i = choose|i: int|
            0 <= i < table.len() && (#[trigger] table[i]).0@ == key && table[i].1 == node;
        assert(table[i].0@ == key);
    }
    if let Some(value) = number {
        if gives_number(table, key, number) {
            let i = choose|i: int|
                0 <= i < table.len() && (#[trigger] table[i]).0@ == key && (
                table[i].1 matches Node::Integer(n) && n == value);
            lemma_entry(table, key, table[i].1);
            assert(gives(table, key, table[i].1));
        }
    }
}

/// A rule is what its table says, each field by the key of its own name: the
/// table has no other keys, each list is the one under its key, empty where the
/// key is absent, and the fields to group by are known ones. Every such table is
/// a rule, and no other is.
pub proof fn lemma_rule_is_what_its_table_says(table: Seq<(String, Node)>, rule: RuleModel)
    requires
        are_distinct(table),
    ensures
        rule_of(table) == Ok::<RuleModel, Seq<char>>(rule) <==> {
            &&& forall|i: int|
                0 <= i < table.len() ==> {
                    let key = (#[trigger] table[i]).0@;
                    ||| key == "process_name"@
                    ||| key == "executable_path"@
                    ||| key == "command_line"@
                    ||| key == "signal"@
                    ||| key == "user_id"@
                    ||| key == "user_name"@
                    ||| key == "group_by"@
                    ||| key == "keep_count"@
                }
            &&& gives_texts(table, "process_name"@, rule.process_name)
            &&& gives_texts(table, "executable_path"@, rule.executable_path)
            &&& gives_texts(table, "command_line"@, rule.command_line)
            &&& gives_texts(table, "signal"@, rule.signal)
            &&& gives_numbers(table, "user_id"@, rule.user_id)
            &&& gives_texts(table, "user_name"@, rule.user_name)
            &&& gives_texts(table, "group_by"@, rule.group_by)
            &&& gives_number(table, "keep_count"@, rule.keep_count)
            &&& forall|k: int|
                0 <= k < rule.group_by.len() ==> {
                    let field = #[trigger] rule.group_by[k];
                    ||| field == "process_name"@
                    ||| field == "executable_path"@
                    ||| field == "command_line"@
                    ||| field == "signal"@
                    ||| field == "user_id"@
                    ||| field == "boot_id"@
                }
        },
{
    lemma_texts_are_read(table, "process_name"@, rule.process_name);
    lemma_texts_are_read(table, "executable_path"@, rule.executable_path);
    lemma_texts_are_read(table, "command_line"@, rule.command_line);
    lemma_texts_are_read(table, "signal"@, rule.signal);
    lemma_numbers_are_read(table, "user_id"@, rule.user_id);
    lemma_texts_are_read(table, "user_name"@, rule.user_name);
    lemma_texts_are_read(table, "group_by"@, rule.group_by);
    lemma_number_is_read(table, "keep_count"@, rule.keep_count);
    lemma_first_where(table, has_other_key(rule_keys()));
    lemma_first_where(rule.group_by, not_group_by_field());
    let keys = rule_keys();
    assert forall|key: Seq<char>| #[trigger] keys.contains(key) <==> {
        ||| key == "process_name"@
        ||| key == "executable_path"@
        ||| key == "command_line"@
        ||| key == "signal"@
        ||| key == "user_id"@
        ||| key == "user_name"@
        ||| key == "group_by"@
        ||| key == "keep_count"@
    } by {
        assert(keys[0] == "process_name"@ && keys[1] == "executable_path"@ && keys[2]
            == "command_line"@ && keys[3] == "signal"@ && keys[4] == "user_id"@ && keys[5]
            == "user_name"@ && keys[6] == "group_by"@ && keys[7] == "keep_count"@);
    }
    assert forall|i: int| 0 <= i < table.len() implies (has_other_key(keys)(#[trigger] table[i])
        <==> !keys.contains(table[i].0@)) by {}
    match first_where(rule.group_by, not_group_by_field()) {
        Some(k) => {
            assert(not_group_by_field()(rule.group_by[k]));
        },
        None => {
            assert forall|k: int| 0 <= k < rule.group_by.len() implies is_group_by_field(
                #[trigger] rule.group_by[k],
            ) by {
                assert(!not_group_by_field()(rule.group_by[k]));
            }
        },
    }
    match first_where(table, has_other_key(keys)) {
        Some(i) => {
            assert(has_other_key(keys)(table[i]));
        },
        None => {},
    }
}

/// The sections under `rules` but the default one, in the order of the document.
pub open spec fn other_sections(rules: Seq<(String, Node)>) -> Seq<(String, Node)> {
    rules.filter(|e: (String, Node)| e.0@ != "DEFAULT"@)
}

/// Whether a section is one of a rule.
pub open spec fn is_rule_section(section: (String, Node)) -> bool {
    section.1 matches Node::Table(table) && rule_of(table@) is Ok
}

/// The rule in a section.
pub open spec fn rule_in(section: (String, Node)) -> RuleModel {
    rule_of(section.1->Table_0@)->Ok_0
}

/// The sections under `rules` become rules in the order of the document: each
/// section but the default one gives a rule of its own name, and what it leaves
/// out is taken from the default section, if there is one. That comes last, as
/// it is.
pub proof fn lemma_sections_become_rules(rules: Seq<(String, Node)>)
    requires
        are_distinct(rules),
        rule_list(rules) is Ok,
    ensures
        forall|k: int|
            0 <= k < other_sections(rules).len() ==> is_rule_section(
                #[trigger] other_sections(rules)[k],
            ) && rule_list(rules)->Ok_0[k].0 == other_sections(rules)[k].0@,
        lacks(rules, "DEFAULT"@) ==> rule_list(rules)->Ok_0.len() == other_sections(rules).len(),
        forall|k: int|
            0 <= k < other_sections(rules).len() && lacks(rules, "DEFAULT"@) ==> rule_list(
                rules,
            )->Ok_0[k].1 == rule_in(#[trigger] other_sections(rules)[k]),
        forall|d: int|
            0 <= d < rules.len() && (#[trigger] rules[d]).0@ == "DEFAULT"@ ==> {
                &&& is_rule_section(rules[d])
                &&& rule_list(rules)->Ok_0.len() == other_sections(rules).len() + 1
                &&& rule_list(rules)->Ok_0.last() == ("DEFAULT"@, rule_in(rules[d]))
            },
        forall|d: int, k: int|
            0 <= d < rules.len() && (#[trigger] rules[d]).0@ == "DEFAULT"@ && 0 <= k
                < other_sections(rules).len() ==> rule_list(rules)->Ok_0[k].1 == merged(
                rule_in(#[trigger] other_sections(rules)[k]),
                rule_in(rules[d]),
            ),
{
    let list = rule_list(rules)->Ok_0;
    let key = "DEFAULT"@;
    let named = other_sections(rules);
    assert(is_not_default() =~= (|e: (String, Node)| e.0@ != "DEFAULT"@));
    assert(named == rules.filter(is_not_default()));
    lemma_default_comes_last(rules);
    lemma_entry(rules, key, Node::Float);
    assert forall|d: int| 0 <= d < rules.len() && (#[trigger] rules[d]).0@ == key implies entry(
        rules,
        key,
    ) == Some(rules[d].1) by {
        lemma_entry(rules, key, rules[d].1);
        assert(gives(rules, key, rules[d].1));
    }
    match default_of(rules) {
        Ok(Some(default)) => {
            lemma_rules_in_source_order(rules, default);
            let before = other_rules(rules, default)->Ok_0;
            assert(!lacks(rules, key));
            assert forall|k: int| 0 <= k < named.len() implies {
                &&& is_rule_section(#[trigger] named[k])
                &&& list[k].1 == merged(rule_in(named[k]), default)
                &&& list[k].0 == named[k].0@
            } by {
                assert(list[k] == before[k]);
                let own = named_rule(named[k].0@, named[k].1)->Ok_0;
                assert(before[k].1 == merged(own, default));
            }
        },
        Ok(None) => {
            lemma_rules_in_source_order(rules, empty_rule());
            let before = other_rules(rules, empty_rule())->Ok_0;
            assert(lacks(rules, key));
            assert forall|k: int| 0 <= k < named.len() implies {
                &&& is_rule_section(#[trigger] named[k])
                &&& list[k].1 == rule_in(named[k])
                &&& list[k].0 == named[k].0@
            } by {
                assert(list[k] == before[k]);
                let own = named_rule(named[k].0@, named[k].1)->Ok_0;
                assert(before[k].1 == merged(own, empty_rule()));
                lemma_merge(own, empty_rule());
            }
        },
        Err(_) => {},
    }
}

/// Whether a table gives this span of time under a key, as the text of a
/// duration, or does not have the key and the span is the usual one.
pub open spec fn gives_span(
    table: Seq<(String, Node)>,
    key: Seq<char>,
    span: TimeSpan,
    usual_seconds: nat,
) -> bool {
    ||| lacks(table, key) && span.nanos == usual_seconds * 1_000_000_000
    ||| exists|i: int|
        0 <= i < table.len() && (#[trigger] table[i]).0@ == key && (table[i].1 matches Node::Text(
            text,
        ) && human_duration(text@) == Ok::<u128, Seq<char>>(span.nanos))
}

proof fn lemma_span_is_read(table: Seq<(String, Node)>, key: Seq<char>, span: TimeSpan)
    requires
        are_distinct(table),
    ensures
        duration_at(table, key) == Ok::<Option<TimeSpan>, Seq<char>>(None) <==> lacks(table, key),
        duration_at(table, key) == Ok::<Option<TimeSpan>, Seq<char>>(Some(span)) <==> exists|
            i: int,
        |
            0 <= i < table.len() && (#[trigger] table[i]).0@ == key && (
            table[i].1 matches Node::Text(text) && human_duration(text@) == Ok::<u128, Seq<char>>(
                span.nanos,
            )),
{
    lemma_entry(table, key, Node::Float);
    if let Some(node) = entry(table, key) {
        lemma_entry(table, key, node);
        let i = choose|i: int|
            0 <= i < table.len() && (#[trigger] table[i]).0@ == key && table[i].1 == node;
        assert(table[i].0@ == key);
    }
    assert forall|i: int| 0 <= i < table.len() && (#[trigger] table[i]).0@ == key implies entry(
        table,
        key,
    ) == Some(table[i].1) by {
        lemma_entry(table, key, table[i].1);
        assert(gives(table, key, table[i].1));
    }
}

/// A configuration is what its document says, each setting by the key of its own
/// name, and the usual one where the key is absent. Every document with these
/// keys alone whose settings can be read is a configuration, and no other is.
pub proof fn lemma_config_is_what_its_document_says(
    document: Node,
    table: Seq<(String, Node)>,
    config: ConfigModel,
)
    requires
        document matches Node::Table(entries) && entries@ == table,
        are_distinct(table),
    ensures
        config_of(document) == Ok::<ConfigModel, Seq<char>>(config) <==> {
            &&& forall|i: int|
                0 <= i < table.len() ==> {
                    let key = (#[trigger] table[i]).0@;
                    ||| key == "coredump_directory"@
                    ||| key == "idle_interval"@
                    ||| key == "minimum_age"@
                    ||| key == "dry_run"@
                    ||| key == "rules"@
                }
            &&& (lacks(table, "coredump_directory"@) && config.coredump_directory
                == "/var/lib/systemd/coredump"@) || exists|i: int|
                0 <= i < table.len() && (#[trigger] table[i]).0@ == "coredump_directory"@ && (
                table[i].1 matches Node::Text(text) && text@ == config.coredump_directory)
            &&& gives_span(table, "idle_interval"@, config.idle_interval, 300)
            &&& gives_span(table, "minimum_age"@, config.minimum_age, 30)
            &&& (lacks(table, "dry_run"@) && !config.dry_run) || gives(
                table,
                "dry_run"@,
                Node::Boolean(config.dry_run),
            )
            &&& (lacks(table, "rules"@) && config.rules.len() == 0) || exists|i: int|
                0 <= i < table.len() && (#[trigger] table[i]).0@ == "rules"@ && (
                table[i].1 matches Node::Table(rules) && rule_list(rules@) == Ok::<
                    Seq<(Seq<char>, RuleModel)>,
                    Seq<char>,
                >(config.rules))
        },
{
    lemma_span_is_read(table, "idle_interval"@, config.idle_interval);
    lemma_span_is_read(table, "minimum_age"@, config.minimum_age);
    lemma_first_where(table, has_other_key(top_level_keys()));
    let keys = top_level_keys();
    assert forall|key: Seq<char>| #[trigger] keys.contains(key) <==> {
        ||| key == "coredump_directory"@
        ||| key == "idle_interval"@
        ||| key == "minimum_age"@
        ||| key == "dry_run"@
        ||| key == "rules"@
    } by {
        assert(keys[0] == "coredump_directory"@ && keys[1] == "idle_interval"@ && keys[2]
            == "minimum_age"@ && keys[3] == "dry_run"@ && keys[4] == "rules"@);
    }
    assert forall|i: int| 0 <= i < table.len() implies (has_other_key(keys)(#[trigger] table[i])
        <==> !keys.contains(table[i].0@)) by {}
    match first_where(table, has_other_key(keys)) {
        Some(i) => {
            assert(has_other_key(keys)(table[i]));
        },
        None => {},
    }
    assert forall|i: int| 0 <= i < table.len() implies entry(table, (#[trigger] table[i]).0@)
        == Some(table[i].1) by {
        lemma_entry(table, table[i].0@, table[i].1);
        assert(gives(table, table[i].0@, table[i].1));
    }
    lemma_present(table, "coredump_directory"@);
    lemma_present(table, "dry_run"@);
    lemma_present(table, "rules"@);
    assert(config.rules.len() == 0 ==> config.rules =~= Seq::empty());
    assert(config.idle_interval.nanos == 300_000_000_000 ==> config.idle_interval == TimeSpan {
        nanos: 300_000_000_000,
    });
    if config_of(document) == Ok::<ConfigModel, Seq<char>>(config) {
        lemma_entry(table, "dry_run"@, Node::Boolean(config.dry_run));
    }
    lemma_entry(table, "dry_run"@, Node::Boolean(config.dry_run));
}

/// A key that a table does not lack has its value in it.
proof fn lemma_present(table: Seq<(String, Node)>, key: Seq<char>)
    requires
        are_distinct(table),
    ensures
        entry(table, key) is None <==> lacks(table, key),
        entry(table, key) matches Some(node) ==> exists|i: int|
            0 <= i < table.len() && (#[trigger] table[i]).0@ == key && table[i].1 == node,
{
    lemma_entry(table, key, Node::Float);
    if let Some(node) = entry(table, key) {
        lemma_entry(table, key, node);
    }
}

/// A rule constrains nothing if and only if every constraint of the rule that it
/// is merged with is left as it is.
pub proof fn lemma_what_constrains_nothing(rule: RuleModel)
    ensures
        is_unconstrained(rule) <==> forall|default: RuleModel|
            {
                let both = #[trigger] merged(rule, default);
                &&& both.process_name == default.process_name
                &&& both.executable_path == default.executable_path
                &&& both.command_line == default.command_line
                &&& both.signal == default.signal
                &&& both.user_id == default.user_id
                &&& both.user_name == default.user_name
            },
{
    let both = merged(rule, empty_rule());
    if !is_unconstrained(rule) {
        assert(both.process_name != empty_rule().process_name || both.executable_path
            != empty_rule().executable_path || both.command_line != empty_rule().command_line
            || both.signal != empty_rule().signal || both.user_id != empty_rule().user_id
            || both.user_name != empty_rule().user_name);
    }
}

/// The sentence about a configuration that could not be loaded says whether it
/// could not be read or not be parsed, where, and why.
pub proof fn lemma_load_faults(path: Seq<char>, problem: Seq<char>)
    ensures
        says(config_message(LoadFault::Io(path, problem)), path),
        says(config_message(LoadFault::Io(path, problem)), problem),
        says(config_message(LoadFault::Parse(path, problem)), path),
        says(config_message(LoadFault::Parse(path, problem)), problem),
        config_message(LoadFault::Io(path, problem)).take(5) == "read "@,
        config_message(LoadFault::Parse(path, problem)).take(6) == "parse "@,
{
    reveal_strlit("read ");
    reveal_strlit("parse ");
    lemma_says_both("read "@, path, ": "@, problem);
    lemma_says_both("parse "@, path, ": "@, problem);
    assert(config_message(LoadFault::Io(path, problem)).take(5) =~= "read "@);
    assert(config_message(LoadFault::Parse(path, problem)).take(6) =~= "parse "@);
}

/// A value that is not of the kind that its key asks for is complained about
/// under that key.
pub proof fn lemma_complaints_name_the_key(table: Seq<(String, Node)>, key: Seq<char>)
    ensures
        text_at(table, key) matches Err(message) ==> says(message, key),
        bool_at(table, key) matches Err(message) ==> says(message, key),
        u32_at(table, key) matches Err(message) ==> says(message, key),
        texts_at(table, key) matches Err(message) ==> says(message, key),
        u32s_at(table, key) matches Err(message) ==> says(message, key),
        duration_at(table, key) matches Err(message) ==> says(message, key),
        text_at(table, key) is Err <==> entry(table, key) is Some && !(entry(table, key)->0
            is Text),
        bool_at(table, key) is Err <==> entry(table, key) is Some && !(entry(table, key)->0
            is Boolean),
        text_at(table, key) matches Ok(Some(text)) && human_duration(text) is Err ==> says(
            duration_at(table, key)->Err_0,
            human_duration(text_at(table, key)->Ok_0->0)->Err_0,
        ),
{
    let nothing = Seq::<char>::empty();
    lemma_says(nothing, key, " must be a string"@);
    lemma_says(nothing, key, " must be a boolean"@);
    lemma_says(nothing, key, " out of range"@);
    lemma_says(nothing, key, " must be an integer"@);
    lemma_says(nothing, key, ": items must be strings"@);
    lemma_says(nothing, key, ": items must be integers"@);
    lemma_says(nothing, key, " must be an array"@);
    if let Some(Node::Array(items)) = entry(table, key) {
        if let Some(i) = first_where(items@, not_u32()) {
            if let Node::Integer(n) = items@[i] {
                lemma_starts_with(key, ": "@, decimal_int(n as int), " out of range"@);
            }
        }
    }
    if let Some(Node::Text(s)) = entry(table, key) {
        if let Err(problem) = human_duration(s@) {
            lemma_starts_with(key, ": "@, problem, nothing);
            assert(key + ": "@ + problem + nothing =~= key + ": "@ + problem);
        }
    }
}

proof fn lemma_starts_with(first: Seq<char>, a: Seq<char>, b: Seq<char>, c: Seq<char>)
    ensures
        says(first + a + b + c, first),
        says(first + a + b + c, b),
{
    lemma_says(Seq::empty(), first, a + b + c);
    assert(first + (a + b + c) =~= first + a + b + c);
    lemma_says(first + a, b, c);
}

/// A key that is not among the known ones is complained about by its name; where
/// there are several, the first of them is.
pub proof fn lemma_unknown_keys(
    table: Seq<(String, Node)>,
    known: Seq<Seq<char>>,
    context: Seq<char>,
    i: int,
)
    requires
        0 <= i < table.len(),
        !known.contains(table[i].0@),
        forall|j: int| 0 <= j < i ==> known.contains((#[trigger] table[j]).0@),
    ensures
        unknown_field(table, known, context) is Some,
        says(unknown_field(table, known, context)->0, table[i].0@),
        says(unknown_field(table, known, context)->0, context),
{
    let other = has_other_key(known);
    assert forall|j: int| 0 <= j < i implies !other(#[trigger] table[j]) by {
        assert(known.contains(table[j].0@));
    }
    assert(is_first(table, other, i));
    lemma_first_found(table, other, i);
    lemma_says_both("unknown "@, context, " field: "@, table[i].0@);
}

/// A rule that cannot be read is complained about under its name, with what is
/// wrong with it.
pub proof fn lemma_rule_complaints(name: Seq<char>, table: Vec<(String, Node)>)
    requires
        rule_of(table@) is Err,
    ensures
        named_rule(name, Node::Table(table)) is Err,
        says(named_rule(name, Node::Table(table))->Err_0, name),
        says(named_rule(name, Node::Table(table))->Err_0, rule_of(table@)->Err_0),
{
    lemma_says_both("rules."@, name, ": "@, rule_of(table@)->Err_0);
}

/// A text is read as the document that it stands for, so two texts of one document
/// are one configuration. A text that is no document is refused, with what is
/// wrong with it.
pub proof fn lemma_texts_are_read_as_documents(one: Seq<char>, other: Seq<char>)
    ensures
        toml_document(one) == toml_document(other) ==> config_of_text(one) == config_of_text(other),
        toml_document(one) matches Err(message) ==> config_of_text(one) == Err::<
            ConfigModel,
            Seq<char>,
        >(message),
        toml_document(one) matches Ok(document) ==> config_of_text(one) == config_of(document),
{
}

} // verus!
