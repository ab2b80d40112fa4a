//! Which dumps stay and which go.

use vstd::prelude::*;
use vstd::string::*;

use crate::dump::CoredumpFile;
use crate::journal::JournalContext;
use crate::policy::{group_value, GroupField, Policy};
use crate::text::{lemma_decimal_reads_back, str_eq, text_of};

verus! {

/// Why a dump is kept.
#[derive(Debug, PartialEq, Eq)]
pub enum KeepReason {
    /// A marker file pins it.
    Retained,
    /// This rule matches it.
    Rule(String),
}

/// Why a dump is removed.
#[derive(Debug, PartialEq, Eq)]
pub enum RemoveReason {
    NoRuleMatched,
    KeepCountExceeded { rule: String, keep_count: u32 },
}

/// What becomes of a dump.
#[derive(Debug, PartialEq, Eq)]
pub enum Decision {
    Keep(KeepReason),
    Remove(RemoveReason),
}

/// The model of a [`Decision`].
pub enum Verdict {
    Retained,
    KeptByRule(Seq<char>),
    NoRuleMatched,
    KeepCountExceeded { rule: Seq<char>, keep_count: u32 },
}

impl View for KeepReason {
    type V = Verdict;

    open spec fn view(&self) -> Verdict {
        match self {
            KeepReason::Retained => Verdict::Retained,
            KeepReason::Rule(name) => Verdict::KeptByRule(name@),
        }
    }
}

impl View for RemoveReason {
    type V = Verdict;

    open spec fn view(&self) -> Verdict {
        match self {
            RemoveReason::NoRuleMatched => Verdict::NoRuleMatched,
            RemoveReason::KeepCountExceeded { rule, keep_count } => Verdict::KeepCountExceeded {
                rule: rule@,
                keep_count: *keep_count,
            },
        }
    }
}

impl View for Decision {
    type V = Verdict;

    open spec fn view(&self) -> Verdict {
        match self {
            Decision::Keep(reason) => reason@,
            Decision::Remove(reason) => reason@,
        }
    }
}

/// A dump with what decides on it.
#[derive(Debug)]
pub struct Classified {
    pub dump: CoredumpFile,
    /// The first rule that matches the dump.
    pub rule_index: Option<usize>,
    pub journal_context: JournalContext,
    /// Whether a marker file pins the dump.
    pub retained: bool,
}

/// Whether the rules that dumps are assigned to are rules of the policy.
pub open spec fn rules_exist(policy: Policy, dumps: Seq<Classified>) -> bool {
    forall|i: int|
        0 <= i < dumps.len() ==> ((#[trigger] dumps[i]).rule_index matches Some(r) ==> r
            < policy.rules@.len())
}

/// How many dumps of its group may be kept, for a dump that is counted: one
/// that is not pinned and whose rule has a limit.
pub open spec fn limit_of(policy: Policy, dump: Classified) -> Option<u32> {
    if dump.retained || dump.rule_index is None {
        None
    } else {
        policy.rules@[dump.rule_index->0 as int].keep_count
    }
}

/// What a dump has in each of the fields by which a rule groups.
pub open spec fn group_key(fields: Seq<GroupField>, dump: Classified) -> Seq<Option<Seq<char>>> {
    fields.map_values(|f: GroupField| group_value(f, dump.dump@, dump.journal_context@))
}

/// Whether two dumps are counted together: the same rule limits both, and they
/// agree in every field by which it groups.
pub open spec fn same_group(policy: Policy, a: Classified, b: Classified) -> bool {
    &&& limit_of(policy, a) is Some
    &&& limit_of(policy, b) is Some
    &&& a.rule_index == b.rule_index
    &&& group_key(policy.rules@[a.rule_index->0 as int].group_by@, a) == group_key(
        policy.rules@[a.rule_index->0 as int].group_by@,
        b,
    )
}

/// Whether the dump at position `a` counts as newer than that at `b`: it has
/// the later timestamp, or the same one and an earlier position.
pub open spec fn is_newer(dumps: Seq<Classified>, a: int, b: int) -> bool {
    let at_a = dumps[a].dump.timestamp_micros;
    let at_b = dumps[b].dump.timestamp_micros;
    at_a > at_b || (at_a == at_b && a < b)
}

/// The positions of the dumps that are counted together with a dump.
pub open spec fn group_of(policy: Policy, dumps: Seq<Classified>, i: int) -> Set<int> {
    vstd::set_lib::set_int_range(0, dumps.len() as int).filter(
        |j: int| same_group(policy, dumps[j], dumps[i]),
    )
}

/// Those of a set of positions whose dumps are newer than a dump.
pub open spec fn newer_among(dumps: Seq<Classified>, group: Set<int>, i: int) -> Set<int> {
    group.filter(|j: int| is_newer(dumps, j, i))
}

/// Whether a dump is one too many: as many dumps of its group as may be kept
/// are newer.
pub open spec fn is_excess(policy: Policy, dumps: Seq<Classified>, i: int) -> bool {
    limit_of(policy, dumps[i]) matches Some(limit) && newer_among(
        dumps,
        group_of(policy, dumps, i),
        i,
    ).len() >= limit
}

/// What becomes of a dump: a pinned one stays; one that no rule matches goes;
/// one that is one too many goes; every other one stays.
pub open spec fn verdict(policy: Policy, dumps: Seq<Classified>, i: int) -> Verdict {
    let dump = dumps[i];
    if dump.retained {
        Verdict::Retained
    } else {
        match dump.rule_index {
            None => Verdict::NoRuleMatched,
            Some(r) => {
                let rule = policy.rules@[r as int];
                if is_excess(policy, dumps, i) {
                    Verdict::KeepCountExceeded { rule: rule.name@, keep_count: rule.keep_count->0 }
                } else {
                    Verdict::KeptByRule(rule.name@)
                }
            },
        }
    }
}

/// Whether a dump stays.
pub open spec fn is_kept(verdict: Verdict) -> bool {
    verdict is Retained || verdict is KeptByRule
}

/// Whether a decision is the right one for a dump.
pub open spec fn is_decided(
    decided: (CoredumpFile, Decision),
    policy: Policy,
    dumps: Seq<Classified>,
    i: int,
) -> bool {
    &&& decided.0 == dumps[i].dump
    &&& decided.1@ == verdict(policy, dumps, i)
    &&& decided.1 is Keep <==> is_kept(verdict(policy, dumps, i))
}

/// The characters of the texts in a key.
pub open spec fn key_texts(key: Seq<Option<String>>) -> Seq<Option<Seq<char>>> {
    key.map_values(|v: Option<String>| text_of(v))
}

/// What a dump has in each of the fields.
fn extract_key(fields: &Vec<GroupField>, dump: &Classified) -> (key: Vec<Option<String>>)
    ensures
        key_texts(key@) == group_key(fields@, *dump),
{
    let mut key: Vec<Option<String>> = Vec::new();
    let mut i: usize = 0;
    while i < fields.len()
        invariant
            i <= fields@.len(),
            key@.len() == i,
            forall|j: int|
                0 <= j < i ==> text_of(#[trigger] key@[j]) == group_value(
                    fields@[j],
                    dump.dump@,
                    dump.journal_context@,
                ),
        decreases fields@.len() - i,
    {
        key.push(fields[i].extract(&dump.dump, &dump.journal_context));
        i = i + 1;
    }
    assert(key_texts(key@) =~= group_key(fields@, *dump));
    key
}

fn same_text(a: &Option<String>, b: &Option<String>) -> (same: bool)
    ensures
        same == (text_of(*a) == text_of(*b)),
{
    match (a, b) {
        (Some(x), Some(y)) => str_eq(x.as_str(), y.as_str()),
        (None, None) => true,
        _ => false,
    }
}

fn same_key(a: &Vec<Option<String>>, b: &Vec<Option<String>>) -> (same: bool)
    ensures
        same == (key_texts(a@) == key_texts(b@)),
{
    let ghost left = key_texts(a@);
    let ghost right = key_texts(b@);
    if a.len() != b.len() {
        assert(left.len() != right.len());
        return false;
    }
    let mut i: usize = 0;
    while i < a.len()
        invariant
            a@.len() == b@.len(),
            left == key_texts(a@),
            right == key_texts(b@),
            i <= a@.len(),
            forall|j: int| 0 <= j < i ==> left[j] == right[j],
        decreases a@.len() - i,
    {
        assert(left[i as int] == text_of(a@[i as int]));
        assert(right[i as int] == text_of(b@[i as int]));
        if !same_text(&a[i], &b[i]) {
            return false;
        }
        i = i + 1;
    }
    assert(left =~= right);
    true
}

/// Whether keys are the group keys of the first dumps, as far as these are
/// counted.
spec fn are_keys_of(
    keys: Seq<Vec<Option<String>>>,
    policy: Policy,
    dumps: Seq<Classified>,
) -> bool {
    forall|i: int|
        0 <= i < keys.len() && limit_of(policy, #[trigger] dumps[i]) is Some ==> key_texts(keys[i]@)
            == group_key(policy.rules@[dumps[i].rule_index->0 as int].group_by@, dumps[i])
}

/// The group keys of all dumps; empty for dumps that no rule matches.
fn extract_keys(policy: &Policy, dumps: &Vec<Classified>) -> (keys: Vec<Vec<Option<String>>>)
    requires
        rules_exist(*policy, dumps@),
    ensures
        keys@.len() == dumps@.len(),
        are_keys_of(keys@, *policy, dumps@),
{
    let mut keys: Vec<Vec<Option<String>>> = Vec::new();
    let mut i: usize = 0;
    while i < dumps.len()
        invariant
            rules_exist(*policy, dumps@),
            i <= dumps@.len(),
            keys@.len() == i,
            are_keys_of(keys@, *policy, dumps@),
        decreases dumps@.len() - i,
    {
        let key = match dumps[i].rule_index {
            Some(r) => extract_key(&policy.rules[r].group_by, &dumps[i]),
            None => Vec::new(),
        };
        keys.push(key);
        i = i + 1;
    }
    keys
}

fn limit(policy: &Policy, dump: &Classified) -> (l: Option<u32>)
    requires
        dump.rule_index matches Some(r) ==> r < policy.rules@.len(),
    ensures
        l == limit_of(*policy, *dump),
{
    if dump.retained {
        return None;
    }
    match dump.rule_index {
        Some(r) => policy.rules[r].keep_count,
        None => None,
    }
}

proof fn lemma_count_step(n: int, property: spec_fn(int) -> bool)
    requires
        n >= 0,
    ensures
        vstd::set_lib::set_int_range(0, n + 1).filter(property).len()
            == vstd::set_lib::set_int_range(0, n).filter(property).len() + (if property(n) {
            1int
        } else {
            0int
        }),
        vstd::set_lib::set_int_range(0, n).filter(property).finite(),
{
    let smaller = vstd::set_lib::set_int_range(0, n).filter(property);
    let larger = vstd::set_lib::set_int_range(0, n + 1).filter(property);
    vstd::set_lib::lemma_int_range(0, n);
    vstd::set_lib::set_int_range(0, n).lemma_len_filter(property);
    if property(n) {
        assert(larger =~= smaller.insert(n));
    } else {
        assert(larger =~= smaller);
    }
}

/// Whether a dump is one too many.
fn one_too_many(
    policy: &Policy,
    dumps: &Vec<Classified>,
    keys: &Vec<Vec<Option<String>>>,
    i: usize,
) -> (b: bool)
    requires
        rules_exist(*policy, dumps@),
        i < dumps@.len(),
        keys@.len() == dumps@.len(),
        are_keys_of(keys@, *policy, dumps@),
    ensures
        b == is_excess(*policy, dumps@, i as int),
{
    let limit_here = match limit(policy, &dumps[i]) {
        Some(l) => l,
        None => return false,
    };
    let ghost property = |j: int|
        same_group(*policy, dumps@[j], dumps@[i as int]) && is_newer(dumps@, j, i as int);
    let mut newer: usize = 0;
    let mut j: usize = 0;
    proof {
        assert(vstd::set_lib::set_int_range(0, 0).filter(property) =~= Set::empty());
    }
    while j < dumps.len()
        invariant
            rules_exist(*policy, dumps@),
            i < dumps@.len(),
            j <= dumps@.len(),
            limit_of(*policy, dumps@[i as int]) == Some(limit_here),
            keys@.len() == dumps@.len(),
            are_keys_of(keys@, *policy, dumps@),
            property == (|j: int|
                same_group(*policy, dumps@[j], dumps@[i as int]) && is_newer(
                    dumps@,
                    j,
                    i as int,
                )),
            newer <= j,
            newer == vstd::set_lib::set_int_range(0, j as int).filter(property).len(),
        decreases dumps@.len() - j,
    {
        proof {
            lemma_count_step(j as int, property);
        }
        let counted = limit(policy, &dumps[j]).is_some();
        let same_rule = dumps[j].rule_index == dumps[i].rule_index;
        if counted && same_rule && same_key(&keys[j], &keys[i]) {
            assert(same_group(*policy, dumps@[j as int], dumps@[i as int]));
            let at_j = dumps[j].dump.timestamp_micros;
            let at_i = dumps[i].dump.timestamp_micros;
            if at_j > at_i || (at_j == at_i && j < i) {
                assert(property(j as int));
                newer = newer + 1;
            }
        }
        j = j + 1;
    }
    assert(vstd::set_lib::set_int_range(0, dumps@.len() as int).filter(property) =~= newer_among(
        dumps@,
        group_of(*policy, dumps@, i as int),
        i as int,
    ));
    newer as u64 >= limit_here as u64
}

/// The positions of the dumps that are one too many, in ascending order.
pub fn compute_keep_count_excess(policy: &Policy, dumps: &Vec<Classified>) -> (excess: Vec<usize>)
    requires
        rules_exist(*policy, dumps@),
    ensures
        forall|a: int, b: int| 0 <= a < b < excess@.len() ==> excess@[a] < excess@[b],
        forall|i: usize|
            #[trigger] excess@.contains(i) <==> i < dumps@.len() && is_excess(
                *policy,
                dumps@,
                i as int,
            ),
{
    let keys = extract_keys(policy, dumps);
    let mut excess: Vec<usize> = Vec::new();
    let mut i: usize = 0;
    while i < dumps.len()
        invariant
            rules_exist(*policy, dumps@),
            i <= dumps@.len(),
            keys@.len() == dumps@.len(),
            are_keys_of(keys@, *policy, dumps@),
            forall|a: int, b: int| 0 <= a < b < excess@.len() ==> excess@[a] < excess@[b],
            forall|a: int| 0 <= a < excess@.len() ==> #[trigger] excess@[a] < i,
            forall|k: usize|
                #[trigger] excess@.contains(k) <==> k < i && is_excess(
                    *policy,
                    dumps@,
                    k as int,
                ),
        decreases dumps@.len() - i,
    {
        let ghost before = excess@;
        if one_too_many(policy, dumps, &keys, i) {
            excess.push(i);
        }
        proof {
            assert forall|k: usize|
                #[trigger] excess@.contains(k) <==> k < i + 1 && is_excess(
                    *policy,
                    dumps@,
                    k as int,
                ) by {
                assert(before.contains(k) <==> k < i && is_excess(*policy, dumps@, k as int));
                if before.contains(k) {
                    let a = choose|a: int| 0 <= a < before.len() && before[a] == k;
                    assert(excess@[a] == k);
                }
                if k == i && is_excess(*policy, dumps@, i as int) {
                    assert(excess@[excess@.len() - 1] == k);
                }
                if excess@.contains(k) {
                    let a = choose|a: int| 0 <= a < excess@.len() && excess@[a] == k;
                    if a < before.len() {
                        assert(before[a] == k);
                    }
                }
            }
        }
        i = i + 1;
    }
    excess
}

/// What becomes of each dump, in order.
pub fn decide(policy: &Policy, dumps: Vec<Classified>) -> (decided: Vec<(CoredumpFile, Decision)>)
    requires
        rules_exist(*policy, dumps@),
    ensures
        decided@.len() == dumps@.len(),
        forall|i: int|
            0 <= i < dumps@.len() ==> is_decided(#[trigger] decided@[i], *policy, dumps@, i),
        forall|i: int|
            0 <= i < dumps@.len() ==> (#[trigger] decided@[i]).0 == dumps@[i].dump && decided@[i].1@
                == verdict(*policy, dumps@, i),
{
    let ghost all = dumps@;
    let excess = compute_keep_count_excess(policy, &dumps);
    let mut next: usize = 0;
    let mut decided: Vec<(CoredumpFile, Decision)> = Vec::new();
    for dump in it: dumps
        invariant
            all == dumps@,
            it.seq() == all,
            rules_exist(*policy, all),
            forall|a: int, b: int| 0 <= a < b < excess@.len() ==> excess@[a] < excess@[b],
            forall|k: usize|
                #[trigger] excess@.contains(k) <==> k < all.len() && is_excess(
                    *policy,
                    all,
                    k as int,
                ),
            next <= excess@.len(),
            decided@.len() == it.index(),
            forall|a: int| 0 <= a < next ==> #[trigger] excess@[a] < it.index(),
            forall|a: int| next <= a < excess@.len() ==> #[trigger] excess@[a] >= it.index(),
            forall|j: int|
                0 <= j < it.index() ==> is_decided(#[trigger] decided@[j], *policy, all, j),
    {
        let i: usize = decided.len();
        assert(dump == all[i as int]);
        let too_many = next < excess.len() && excess[next] == i;
        proof {
            if too_many {
                assert(excess@.contains(i));
            } else if excess@.contains(i) {
                let a = choose|a: int| 0 <= a < excess@.len() && excess@[a] == i;
                assert(excess@[next as int] == i || a > next);
            }
            assert(too_many <==> is_excess(*policy, all, i as int));
        }
        if too_many {
            next = next + 1;
        }
        let decision = if dump.retained {
            Decision::Keep(KeepReason::Retained)
        } else {
            match dump.rule_index {
                None => Decision::Remove(RemoveReason::NoRuleMatched),
                Some(r) => {
                    let rule = &policy.rules[r];
                    if too_many {
                        Decision::Remove(
                            RemoveReason::KeepCountExceeded {
                                rule: rule.name.clone(),
                                keep_count: match rule.keep_count {
                                    Some(limit) => limit,
                                    None => 0,
                                },
                            },
                        )
                    } else {
                        Decision::Keep(KeepReason::Rule(rule.name.clone()))
                    }
                },
            }
        };
        decided.push((dump.dump, decision));
    }
    decided
}

proof fn lemma_same_group(policy: Policy, a: Classified, b: Classified, c: Classified)
    requires
        same_group(policy, a, b),
    ensures
        same_group(policy, b, a),
        same_group(policy, b, c) <==> same_group(policy, a, c),
{
}

proof fn lemma_group(policy: Policy, dumps: Seq<Classified>, i: int)
    ensures
        group_of(policy, dumps, i).finite(),
{
    vstd::set_lib::lemma_int_range(0, dumps.len() as int);
    vstd::set_lib::set_int_range(0, dumps.len() as int).lemma_len_filter(
        |j: int| same_group(policy, dumps[j], dumps[i]),
    );
}

/// Dumps that are counted together have the same dumps beside them.
proof fn lemma_one_group(policy: Policy, dumps: Seq<Classified>, i: int, j: int)
    requires
        same_group(policy, dumps[i], dumps[j]),
    ensures
        group_of(policy, dumps, i) == group_of(policy, dumps, j),
{
    assert forall|k: int|
        same_group(policy, dumps[k], dumps[i]) <==> same_group(policy, dumps[k], dumps[j]) by {
        lemma_same_group(policy, dumps[i], dumps[j], dumps[k]);
        if same_group(policy, dumps[k], dumps[i]) {
            lemma_same_group(policy, dumps[k], dumps[i], dumps[j]);
        }
        if same_group(policy, dumps[k], dumps[j]) {
            lemma_same_group(policy, dumps[k], dumps[j], dumps[i]);
        }
    }
    assert(group_of(policy, dumps, i) =~= group_of(policy, dumps, j));
}

/// A non-empty group has an oldest dump.
proof fn lemma_oldest(dumps: Seq<Classified>, group: Set<int>) -> (oldest: int)
    requires
        group.finite(),
        group.len() > 0,
    ensures
        group.contains(oldest),
        forall|j: int| #[trigger] group.contains(j) && j != oldest ==> is_newer(dumps, j, oldest),
    decreases group.len(),
{
    let a = group.choose();
    let rest = group.remove(a);
    if rest.len() == 0 {
        assert forall|j: int| #[trigger] group.contains(j) && j != a implies is_newer(
            dumps,
            j,
            a,
        ) by {
            assert(rest.contains(j));
        }
        a
    } else {
        let b = lemma_oldest(dumps, rest);
        let oldest = if is_newer(dumps, a, b) {
            b
        } else {
            a
        };
        assert forall|j: int| #[trigger] group.contains(j) && j != oldest implies is_newer(
            dumps,
            j,
            oldest,
        ) by {
            if j != a {
                assert(rest.contains(j));
            }
        }
        oldest
    }
}

/// Of any set of dumps, those that have fewer than `limit` newer ones in it are
/// `limit` many, or all if the set is smaller.
proof fn lemma_newest(dumps: Seq<Classified>, group: Set<int>, limit: nat)
    requires
        group.finite(),
    ensures
        group.filter(|i: int| newer_among(dumps, group, i).len() < limit).finite(),
        group.filter(|i: int| newer_among(dumps, group, i).len() < limit).len() == if limit
            < group.len() {
            limit
        } else {
            group.len()
        },
    decreases group.len(),
{
    let kept = group.filter(|i: int| newer_among(dumps, group, i).len() < limit);
    group.lemma_len_filter(|i: int| newer_among(dumps, group, i).len() < limit);
    if group.len() > 0 {
        let oldest = lemma_oldest(dumps, group);
        let rest = group.remove(oldest);
        lemma_newest(dumps, rest, limit);
        let kept_of_rest = rest.filter(|i: int| newer_among(dumps, rest, i).len() < limit);
        assert forall|i: int| rest.contains(i) implies #[trigger] newer_among(dumps, group, i)
            == newer_among(dumps, rest, i) by {
            assert(is_newer(dumps, i, oldest));
            assert(newer_among(dumps, group, i) =~= newer_among(dumps, rest, i));
        }
        assert(newer_among(dumps, group, oldest) =~= rest);
        if rest.len() < limit {
            assert(kept =~= kept_of_rest.insert(oldest));
        } else {
            assert(kept =~= kept_of_rest);
        }
    }
}

/// The positions of the dumps of a group that stay.
pub open spec fn kept_of_group(policy: Policy, dumps: Seq<Classified>, i: int) -> Set<int> {
    group_of(policy, dumps, i).filter(|j: int| is_kept(verdict(policy, dumps, j)))
}

/// Of each group as many dumps stay as its rule's limit says, or all of them if
/// there are fewer.
pub proof fn lemma_limit_is_kept(policy: Policy, dumps: Seq<Classified>, i: int)
    requires
        0 <= i < dumps.len(),
        limit_of(policy, dumps[i]) is Some,
    ensures
        kept_of_group(policy, dumps, i).len() == if limit_of(policy, dumps[i])->0 < group_of(
            policy,
            dumps,
            i,
        ).len() {
            limit_of(policy, dumps[i])->0 as nat
        } else {
            group_of(policy, dumps, i).len()
        },
{
    let group = group_of(policy, dumps, i);
    let limit = limit_of(policy, dumps[i])->0 as nat;
    lemma_group(policy, dumps, i);
    lemma_newest(dumps, group, limit);
    assert forall|j: int| group.contains(j) implies (is_kept(#[trigger] verdict(policy, dumps, j))
        <==> newer_among(dumps, group, j).len() < limit) by {
        lemma_one_group(policy, dumps, j, i);
    }
    assert(kept_of_group(policy, dumps, i) =~= group.filter(
        |j: int| newer_among(dumps, group, j).len() < limit,
    ));
}

/// Without fields to group by, all dumps of a rule are counted together.
pub proof fn lemma_without_grouping(policy: Policy, a: Classified, b: Classified)
    requires
        limit_of(policy, a) is Some,
        limit_of(policy, b) is Some,
        a.rule_index == b.rule_index,
        policy.rules@[a.rule_index->0 as int].group_by@.len() == 0,
    ensures
        same_group(policy, a, b),
{
    let fields = policy.rules@[a.rule_index->0 as int].group_by@;
    assert(group_key(fields, a) =~= group_key(fields, b));
}

/// Of two dumps that are counted together, of which one stays and one goes, the
/// one that stays is the newer.
pub proof fn lemma_newest_are_kept(policy: Policy, dumps: Seq<Classified>, stays: int, goes: int)
    requires
        0 <= stays < dumps.len(),
        0 <= goes < dumps.len(),
        same_group(policy, dumps[stays], dumps[goes]),
        is_kept(verdict(policy, dumps, stays)),
        !is_kept(verdict(policy, dumps, goes)),
    ensures
        is_newer(dumps, stays, goes),
        dumps[stays].dump.timestamp_micros >= dumps[goes].dump.timestamp_micros,
{
    let group = group_of(policy, dumps, stays);
    lemma_one_group(policy, dumps, stays, goes);
    lemma_group(policy, dumps, stays);
    let before_stays = newer_among(dumps, group, stays);
    let before_goes = newer_among(dumps, group, goes);
    group.lemma_len_filter(|j: int| is_newer(dumps, j, stays));
    group.lemma_len_filter(|j: int| is_newer(dumps, j, goes));
    if !is_newer(dumps, stays, goes) {
        assert(before_goes.subset_of(before_stays));
        vstd::set_lib::lemma_len_subset(before_goes, before_stays);
    }
}

/// A pinned dump stays, and it is counted in no group.
pub proof fn lemma_pinned_stay(policy: Policy, dumps: Seq<Classified>, i: int)
    requires
        0 <= i < dumps.len(),
        dumps[i].retained,
    ensures
        is_kept(verdict(policy, dumps, i)),
        forall|j: int|
            0 <= j < dumps.len() ==> !(#[trigger] group_of(policy, dumps, j)).contains(i),
{
}

/// Whether two dumps have the same in a field.
pub open spec fn agree_in(field: GroupField, a: Classified, b: Classified) -> bool {
    match field {
        GroupField::ProcessName => a.dump.comm@ == b.dump.comm@,
        GroupField::UserId => a.dump.uid == b.dump.uid,
        GroupField::BootId => a.dump.boot_id@ == b.dump.boot_id@,
        GroupField::ExecutablePath => text_of(a.journal_context.executable_path) == text_of(
            b.journal_context.executable_path,
        ),
        GroupField::CommandLine => text_of(a.journal_context.command_line) == text_of(
            b.journal_context.command_line,
        ),
        GroupField::Signal => text_of(a.journal_context.signal) == text_of(
            b.journal_context.signal,
        ),
    }
}

/// Two dumps have the same value in a field by which a rule groups if and only
/// if they have the same there: each field tells dumps apart by its own part of
/// the name or of the journal, and by nothing else.
pub proof fn lemma_fields_tell_dumps_apart(field: GroupField, a: Classified, b: Classified)
    ensures
        group_value(field, a.dump@, a.journal_context@) == group_value(
            field,
            b.dump@,
            b.journal_context@,
        ) <==> agree_in(field, a, b),
{
    lemma_decimal_reads_back(a.dump.uid as nat);
    lemma_decimal_reads_back(b.dump.uid as nat);
}

/// Two dumps are counted together if and only if neither is pinned, both fall
/// under the same rule, that rule has a limit, and they agree in every single
/// one of the fields by which it groups.
pub proof fn lemma_counted_together(policy: Policy, a: Classified, b: Classified)
    ensures
        same_group(policy, a, b) <==> {
            &&& !a.retained
            &&& !b.retained
            &&& a.rule_index == b.rule_index
            &&& a.rule_index matches Some(r)
            &&& policy.rules@[r as int].keep_count is Some
            &&& forall|k: int|
                0 <= k < policy.rules@[r as int].group_by@.len() ==> agree_in(
                    #[trigger] policy.rules@[r as int].group_by@[k],
                    a,
                    b,
                )
        },
{
    if let Some(r) = a.rule_index {
        let fields = policy.rules@[r as int].group_by@;
        let one = group_key(fields, a);
        let other = group_key(fields, b);
        assert forall|k: int| 0 <= k < fields.len() implies (one[k] == other[k] <==> agree_in(
            #[trigger] fields[k],
            a,
            b,
        )) by {
            lemma_fields_tell_dumps_apart(fields[k], a, b);
        }
        if forall|k: int| 0 <= k < fields.len() ==> agree_in(#[trigger] fields[k], a, b) {
            assert forall|k: int| 0 <= k < fields.len() implies one[k] == other[k] by {
                assert(agree_in(fields[k], a, b));
            }
            assert(one =~= other);
        } else {
            let k = choose|k: int| 0 <= k < fields.len() && !agree_in(#[trigger] fields[k], a, b);
            assert(one[k] != other[k]);
        }
    }
}

/// A dump that is not counted together with another one does not matter to it:
/// with or without it, the other one fares the same.
proof fn lemma_others_do_not_count(policy: Policy, dumps: Seq<Classified>, other: int, i: int)
    requires
        0 <= other < dumps.len(),
        0 <= i < dumps.len(),
        i != other,
        !same_group(policy, dumps[other], dumps[i]),
    ensures
        verdict(policy, dumps, i) == verdict(
            policy,
            dumps.remove(other),
            if i < other {
                i
            } else {
                i - 1
            },
        ),
{
    let fewer = dumps.remove(other);
    let moved = |j: int|
        if j < other {
            j
        } else {
            j - 1
        };
    let group = group_of(policy, dumps, i);
    let group_without = group_of(policy, fewer, moved(i));
    let newer = newer_among(dumps, group, i);
    let newer_without = newer_among(fewer, group_without, moved(i));
    assert(forall|j: int|
        0 <= j < dumps.len() && j != other ==> fewer[#[trigger] moved(j)] == dumps[j]);
    lemma_group(policy, dumps, i);
    group.lemma_len_filter(|j: int| is_newer(dumps, j, i));
    assert forall|j: int| #[trigger] newer_without.contains(j) implies newer.map(moved).contains(
        j,
    ) by {
        let from = if j < other {
            j
        } else {
            j + 1
        };
        assert(moved(from) == j);
        assert(newer.contains(from));
    }
    assert forall|j: int| #[trigger] newer.map(moved).contains(j) implies newer_without.contains(
        j,
    ) by {
        let from = choose|from: int| newer.contains(from) && moved(from) == j;
        assert(fewer[moved(from)] == dumps[from]);
    }
    assert(newer.map(moved) =~= newer_without);
    vstd::set_lib::lemma_map_size(newer, newer_without, moved);
}

/// Whatever is pinned beside them, other dumps fare as if it were not there.
pub proof fn lemma_pinned_do_not_count(policy: Policy, dumps: Seq<Classified>, pinned: int, i: int)
    requires
        0 <= pinned < dumps.len(),
        dumps[pinned].retained,
        0 <= i < dumps.len(),
        i != pinned,
    ensures
        verdict(policy, dumps, i) == verdict(
            policy,
            dumps.remove(pinned),
            if i < pinned {
                i
            } else {
                i - 1
            },
        ),
{
    lemma_others_do_not_count(policy, dumps, pinned, i);
}

/// Dumps of different rules, and dumps that differ in any one of the fields by
/// which their rule groups, do not count against each other: with or without
/// the one, the other fares the same.
pub proof fn lemma_other_groups_do_not_count(
    policy: Policy,
    dumps: Seq<Classified>,
    other: int,
    i: int,
    k: int,
)
    requires
        0 <= other < dumps.len(),
        0 <= i < dumps.len(),
        i != other,
        dumps[other].rule_index != dumps[i].rule_index || (dumps[i].rule_index matches Some(r) && 0
            <= k < policy.rules@[r as int].group_by@.len() && !agree_in(
            policy.rules@[r as int].group_by@[k],
            dumps[other],
            dumps[i],
        )),
    ensures
        verdict(policy, dumps, i) == verdict(
            policy,
            dumps.remove(other),
            if i < other {
                i
            } else {
                i - 1
            },
        ),
{
    lemma_counted_together(policy, dumps[other], dumps[i]);
    lemma_others_do_not_count(policy, dumps, other, i);
}

/// The dumps that are held against one limit together with a dump: those that
/// are not pinned, fall under the same rule and agree with it in every field by
/// which that rule groups.
pub open spec fn bucket(policy: Policy, dumps: Seq<Classified>, i: int) -> Set<int> {
    vstd::set_lib::set_int_range(0, dumps.len() as int).filter(
        |j: int|
            !dumps[j].retained && dumps[j].rule_index == dumps[i].rule_index && forall|k: int|
                0 <= k < policy.rules@[dumps[i].rule_index->0 as int].group_by@.len() ==> agree_in(
                    #[trigger] policy.rules@[dumps[i].rule_index->0 as int].group_by@[k],
                    dumps[j],
                    dumps[i],
                ),
    )
}

/// Of each bucket the newest stay, as many as `keep_count` says, or all of them
/// if there are fewer: so many stay, and none that goes is newer than one that
/// stays. Of those with one timestamp the earlier listed stay.
pub proof fn lemma_newest_of_each_bucket_stay(policy: Policy, dumps: Seq<Classified>, i: int)
    requires
        0 <= i < dumps.len(),
        !dumps[i].retained,
        dumps[i].rule_index is Some,
        policy.rules@[dumps[i].rule_index->0 as int].keep_count is Some,
    ensures
        ({
            let rule = policy.rules@[dumps[i].rule_index->0 as int];
            let limit = rule.keep_count->0 as nat;
            let all = bucket(policy, dumps, i);
            let stay = all.filter(
                |j: int| verdict(policy, dumps, j) == Verdict::KeptByRule(rule.name@),
            );
            &&& stay.len() == (if limit < all.len() {
                limit
            } else {
                all.len()
            })
            &&& forall|a: int, b: int| #[trigger]
                stay.contains(a) && #[trigger] all.contains(b) && !stay.contains(b)
                    ==> dumps[a].dump.timestamp_micros > dumps[b].dump.timestamp_micros || (
                dumps[a].dump.timestamp_micros == dumps[b].dump.timestamp_micros && a < b)
        }),
{
    let rule = policy.rules@[dumps[i].rule_index->0 as int];
    let all = bucket(policy, dumps, i);
    let stay = all.filter(|j: int| verdict(policy, dumps, j) == Verdict::KeptByRule(rule.name@));
    assert forall|j: int| 0 <= j < dumps.len() implies (all.contains(j) <==> #[trigger] group_of(
        policy,
        dumps,
        i,
    ).contains(j)) by {
        lemma_counted_together(policy, dumps[j], dumps[i]);
    }
    assert(all =~= group_of(policy, dumps, i));
    lemma_limit_is_kept(policy, dumps, i);
    assert(stay =~= kept_of_group(policy, dumps, i));
    assert forall|a: int, b: int| #[trigger]
        stay.contains(a) && #[trigger] all.contains(b) && !stay.contains(
            b,
        ) implies dumps[a].dump.timestamp_micros > dumps[b].dump.timestamp_micros || (
    dumps[a].dump.timestamp_micros == dumps[b].dump.timestamp_micros && a < b) by {
        lemma_counted_together(policy, dumps[a], dumps[b]);
        assert(same_group(policy, dumps[a], dumps[i]));
        lemma_same_group(policy, dumps[b], dumps[i], dumps[a]);
        lemma_same_group(policy, dumps[i], dumps[a], dumps[b]);
        lemma_newest_are_kept(policy, dumps, a, b);
    }
}

/// A decision names the rule that it comes from, and a removal for too many
/// dumps its limit. Without a limit a rule removes nothing.
pub proof fn lemma_verdict_names_its_rule(policy: Policy, dumps: Seq<Classified>, i: int)
    ensures
        verdict(policy, dumps, i) matches Verdict::KeptByRule(name) ==> dumps[i].rule_index matches
            Some(r) && name == policy.rules@[r as int].name@,
        verdict(policy, dumps, i) matches Verdict::KeepCountExceeded { rule, keep_count }
            ==> dumps[i].rule_index matches Some(r) && rule == policy.rules@[r as int].name@
            && policy.rules@[r as int].keep_count == Some(keep_count),
        verdict(policy, dumps, i) is Retained <==> dumps[i].retained,
        verdict(policy, dumps, i) is NoRuleMatched <==> !dumps[i].retained
            && dumps[i].rule_index is None,
        verdict(policy, dumps, i) is KeepCountExceeded <==> is_excess(policy, dumps, i),
{
}

/// A dump goes only if it is not pinned and no rule matches it, or its rule has
/// a limit.
pub proof fn lemma_removal_has_a_reason(policy: Policy, dumps: Seq<Classified>, i: int)
    requires
        0 <= i < dumps.len(),
    ensures
        !is_kept(verdict(policy, dumps, i)) ==> !dumps[i].retained && (dumps[i].rule_index is None
            || limit_of(policy, dumps[i]) is Some),
        !dumps[i].retained && dumps[i].rule_index is None ==> verdict(policy, dumps, i)
            == Verdict::NoRuleMatched,
{
}

/// A second scan of what a first one left, in the same order, removes nothing:
/// `left` holds the positions of some of the dumps that stay.
pub proof fn lemma_what_stays_stays(policy: Policy, dumps: Seq<Classified>, left: Seq<int>, j: int)
    requires
        forall|a: int, b: int| 0 <= a < b < left.len() ==> left[a] < left[b],
        forall|a: int|
            0 <= a < left.len() ==> 0 <= #[trigger] left[a] < dumps.len() && is_kept(
                verdict(policy, dumps, left[a]),
            ),
        0 <= j < left.len(),
    ensures
        verdict(policy, left.map_values(|p: int| dumps[p]), j) == verdict(policy, dumps, left[j]),
{
    let rest = left.map_values(|p: int| dumps[p]);
    let at = |a: int| left[a];
    let p = left[j];
    lemma_group(policy, rest, j);
    lemma_group(policy, dumps, p);
    let newer = newer_among(rest, group_of(policy, rest, j), j);
    let newer_before = newer_among(dumps, group_of(policy, dumps, p), p);
    group_of(policy, rest, j).lemma_len_filter(|a: int| is_newer(rest, a, j));
    group_of(policy, dumps, p).lemma_len_filter(|a: int| is_newer(dumps, a, p));
    assert(vstd::relations::injective_on(at, newer)) by {
        assert forall|a: int, b: int|
            newer.contains(a) && newer.contains(b) && #[trigger] at(a) == #[trigger] at(
                b,
            ) implies a == b by {
            if a < b {
                assert(left[a] < left[b]);
            } else if b < a {
                assert(left[b] < left[a]);
            }
        }
    }
    vstd::set_lib::lemma_map_size(newer, newer.map(at), at);
    assert forall|q: int| newer.map(at).contains(q) implies newer_before.contains(q) by {
        let a = choose|a: int| newer.contains(a) && at(a) == q;
        assert(rest[a] == dumps[left[a]]);
        if a < j {
            assert(left[a] < left[j]);
        }
    }
    vstd::set_lib::lemma_len_subset(newer.map(at), newer_before);
}

} // verus!
