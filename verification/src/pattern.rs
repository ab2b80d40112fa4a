//! Shell-style patterns, and how much text they need at least.

use vstd::prelude::*;
use vstd::string::*;
use vstd::utf8::*;

use crate::dump::COMM_MAX_LEN;
use crate::text::{chars_of, decimal, decimal_of, lemma_says_both, says};

verus! {

/// Where a pattern is wrong, and how.
#[derive(Debug)]
pub struct PatternError {
    /// The approximate character index of where the error occurred.
    pub pos: usize,
    /// A message describing the error.
    pub msg: String,
}

impl View for PatternError {
    type V = (usize, Seq<char>);

    open spec fn view(&self) -> (usize, Seq<char>) {
        (self.pos, self.msg@)
    }
}

/// What is wrong with a pattern: the position and the message. `None` for a
/// valid pattern.
pub uninterp spec fn glob_fault(pattern: Seq<char>) -> Option<(usize, Seq<char>)>;

/// Whether a text matches a valid pattern.
pub uninterp spec fn glob_match(pattern: Seq<char>, text: Seq<char>) -> bool;

/// A pattern whose only special characters are `?` and single `*`.
pub open spec fn is_plain(pattern: Seq<char>) -> bool {
    &&& !pattern.contains('[')
    &&& forall|i: int|
        0 <= i < pattern.len() - 1 ==> !(#[trigger] pattern[i] == '*' && pattern[i + 1] == '*')
}

/// Whether a text matches a plain pattern: `?` stands for any one character,
/// `*` for any run of characters, and every other character for itself.
pub open spec fn wildcard_match(pattern: Seq<char>, text: Seq<char>) -> bool
    decreases pattern.len() + text.len(),
{
    if pattern.len() == 0 {
        text.len() == 0
    } else if pattern[0] == '*' {
        ||| wildcard_match(pattern.skip(1), text)
        ||| text.len() > 0 && wildcard_match(pattern, text.skip(1))
    } else {
        &&& text.len() > 0
        &&& pattern[0] == '?' || pattern[0] == text[0]
        &&& wildcard_match(pattern.skip(1), text.skip(1))
    }
}

/// The text behind the first `]`; nothing, if there is none.
pub open spec fn past_bracket(s: Seq<char>) -> Seq<char>
    decreases s.len(),
{
    if s.len() == 0 {
        s
    } else if s[0] == ']' {
        s.skip(1)
    } else {
        past_bracket(s.skip(1))
    }
}

/// What is behind the character class that a pattern starts with. A `]` right
/// behind `[` or `[!` belongs to the class.
pub open spec fn past_class(pattern: Seq<char>) -> Seq<char> {
    let first = if pattern.len() >= 2 && pattern[1] == '!' {
        3int
    } else {
        2int
    };
    if first <= pattern.len() {
        past_bracket(pattern.skip(first))
    } else {
        Seq::empty()
    }
}

/// How much a character counts: its length in UTF-8, or 1 if characters are
/// counted.
pub open spec fn width(c: char, in_bytes: bool) -> nat {
    if in_bytes {
        encode_scalar(c as u32).len()
    } else {
        1
    }
}

/// What every text must have at least that a valid pattern matches, in
/// characters or in bytes: each literal character, and 1 for each `?` and each
/// character class. A slash that ends a `**` component goes with it.
pub open spec fn needed(pattern: Seq<char>, in_bytes: bool) -> nat
    decreases pattern.len(),
{
    if pattern.len() == 0 {
        0
    } else if pattern[0] == '*' {
        if pattern.len() >= 3 && pattern[1] == '*' && pattern[2] == '/' {
            needed(pattern.skip(3), in_bytes)
        } else {
            needed(pattern.skip(1), in_bytes)
        }
    } else if pattern[0] == '[' {
        if past_class(pattern).len() < pattern.len() {
            1 + needed(past_class(pattern), in_bytes)
        } else {
            1
        }
    } else {
        width(pattern[0], in_bytes) + needed(pattern.skip(1), in_bytes)
    }
}

/// `glob::Pattern::new`: whether a pattern is valid, and what is wrong with it
/// if not, depends on the pattern alone. Only a character class and two or more
/// `*` in a row can be wrong, so a plain pattern is valid.
#[verifier::external_body]
fn check_glob(pattern: &str) -> (r: Result<(), (usize, String)>)
    ensures
        match r {
            Ok(_) => glob_fault(pattern@) is None,
            Err((pos, msg)) => glob_fault(pattern@) == Some((pos, msg@)),
        },
        is_plain(pattern@) ==> r is Ok,
{
    glob::Pattern::new(pattern).map(|_| ()).map_err(|e| (e.pos, e.msg.to_string()))
}

/// `glob::Pattern::matches`, with the pattern compiled from its text: whether a
/// text matches depends on the pattern and the text alone. For a plain pattern
/// the outcome is that of [`wildcard_match`]; for every valid pattern a text
/// that matches has at least what [`needed`] counts, in characters as well as in
/// bytes.
#[verifier::external_body]
fn run_glob(pattern: &str, text: &str) -> (b: bool)
    requires
        glob_fault(pattern@) is None,
    ensures
        b == glob_match(pattern@, text@),
        is_plain(pattern@) ==> b == wildcard_match(pattern@, text@),
        b ==> text@.len() >= needed(pattern@, false),
        b ==> encode_utf8(text@).len() >= needed(pattern@, true),
{
    glob::Pattern::new(pattern).unwrap().matches(text)
}

/// A valid shell-style pattern. It is kept as its text and compiled where it is
/// used.
#[derive(Debug)]
pub struct GlobPattern {
    text: String,
}

impl GlobPattern {
    #[verifier::type_invariant]
    closed spec fn is_valid(self) -> bool {
        glob_fault(self.text@) is None
    }

    /// The text of the pattern.
    pub closed spec fn pattern(self) -> Seq<char> {
        self.text@
    }

    /// Accepts a pattern, or says what is wrong with it.
    pub fn new(pattern: &str) -> (r: Result<GlobPattern, PatternError>)
        ensures
            match r {
                Ok(p) => glob_fault(pattern@) is None && p.pattern() == pattern@,
                Err(e) => glob_fault(pattern@) == Some(e@),
            },
            is_plain(pattern@) ==> r is Ok,
    {
        match check_glob(pattern) {
            Ok(_) => Ok(GlobPattern { text: pattern.to_owned() }),
            Err((pos, msg)) => Err(PatternError { pos, msg }),
        }
    }

    /// Whether a text matches the pattern.
    pub fn matches(&self, text: &str) -> (b: bool)
        ensures
            b == glob_match(self.pattern(), text@),
            is_plain(self.pattern()) ==> b == wildcard_match(self.pattern(), text@),
            b ==> text@.len() >= needed(self.pattern(), false),
            b ==> encode_utf8(text@).len() >= needed(self.pattern(), true),
            // A pattern whose literal portion is longer than any process name can
            // be never matches one.
            is_regular(self.pattern()) && min_match_bytes(self.pattern()) > COMM_MAX_LEN
                && encode_utf8(text@).len() <= COMM_MAX_LEN ==> !b,
    {
        proof {
            use_type_invariant(&*self);
            if is_regular(self.pattern()) {
                lemma_least_is_needed(self.pattern(), true);
            }
        }
        run_glob(self.text.as_str(), text)
    }

    pub fn as_str(&self) -> (text: &str)
        ensures
            text@ == self.pattern(),
    {
        self.text.as_str()
    }
}

impl PatternError {
    /// The error as a sentence.
    pub fn message(&self) -> (text: String)
        ensures
            text@ == pattern_message(self@),
    {
        let mut text = String::from_str("Pattern syntax error near position ");
        let pos = decimal_of(self.pos as u64);
        text.append(pos.as_str());
        text.append(": ");
        text.append(self.msg.as_str());
        text
    }
}

pub open spec fn pattern_message(fault: (usize, Seq<char>)) -> Seq<char> {
    "Pattern syntax error near position "@ + decimal(fault.0 as nat) + ": "@ + fault.1
}

/// The least that a pattern must consume to match, in characters or in bytes,
/// read off the pattern: `*` contributes 0; `?` and character classes contribute
/// 1; literals contribute themselves; a backslash and the character behind it are
/// that one literal character.
pub open spec fn least(pattern: Seq<char>, in_bytes: bool) -> nat
    decreases pattern.len(),
{
    if pattern.len() == 0 {
        0
    } else if pattern[0] == '*' {
        least(pattern.skip(1), in_bytes)
    } else if pattern[0] == '\\' {
        if pattern.len() >= 2 {
            width(pattern[1], in_bytes) + least(pattern.skip(2), in_bytes)
        } else {
            0
        }
    } else if pattern[0] == '[' {
        if past_class(pattern).len() < pattern.len() {
            1 + least(past_class(pattern), in_bytes)
        } else {
            1
        }
    } else {
        width(pattern[0], in_bytes) + least(pattern.skip(1), in_bytes)
    }
}

/// The minimum number of characters that a pattern must consume to match.
pub open spec fn min_match_length(pattern: Seq<char>) -> nat {
    least(pattern, false)
}

/// The minimum number of bytes that a pattern must consume to match.
pub open spec fn min_match_bytes(pattern: Seq<char>) -> nat {
    least(pattern, true)
}

proof fn lemma_past_bracket(s: Seq<char>) -> (k: int)
    ensures
        0 <= k <= s.len(),
        past_bracket(s) == s.skip(k),
    decreases s.len(),
{
    if s.len() == 0 {
        assert(s.skip(0) =~= s);
        0
    } else if s[0] == ']' {
        1
    } else {
        let k = lemma_past_bracket(s.skip(1));
        assert(s.skip(1).skip(k) =~= s.skip(k + 1));
        k + 1
    }
}

proof fn lemma_past_class(pattern: Seq<char>) -> (k: int)
    requires
        pattern.len() > 0,
    ensures
        0 < k <= pattern.len(),
        past_class(pattern) == pattern.skip(k),
{
    let first = if pattern.len() >= 2 && pattern[1] == '!' {
        3int
    } else {
        2int
    };
    if first <= pattern.len() {
        let k = lemma_past_bracket(pattern.skip(first));
        assert(pattern.skip(first).skip(k) =~= pattern.skip(first + k));
        first + k
    } else {
        assert(pattern.skip(pattern.len() as int) =~= Seq::empty());
        pattern.len() as int
    }
}

proof fn lemma_encoded_rest(s: Seq<char>, k: int)
    requires
        0 <= k <= s.len(),
    ensures
        encode_utf8(s).len() >= k + encode_utf8(s.skip(k)).len(),
    decreases k,
{
    if k == 0 {
        assert(s.skip(0) =~= s);
    } else {
        lemma_encoded_rest(s.skip(1), k - 1);
        assert(s.drop_first() =~= s.skip(1));
        assert(s.skip(1).skip(k - 1) =~= s.skip(k));
    }
}

/// A pattern must consume no more than it is long.
proof fn lemma_least_fits(pattern: Seq<char>, in_bytes: bool)
    ensures
        least(pattern, in_bytes) <= encode_utf8(pattern).len(),
    decreases pattern.len(),
{
    if pattern.len() > 0 {
        assert(pattern.drop_first() =~= pattern.skip(1));
        if pattern[0] == '[' {
            let k = lemma_past_class(pattern);
            lemma_encoded_rest(pattern, k);
            lemma_least_fits(past_class(pattern), in_bytes);
        } else if pattern[0] == '\\' {
            if pattern.len() >= 2 {
                assert(pattern.skip(1).drop_first() =~= pattern.skip(2));
                assert(encode_utf8(pattern.skip(1)).len() == encode_scalar(pattern[1] as u32).len()
                    + encode_utf8(pattern.skip(2)).len());
                lemma_least_fits(pattern.skip(2), in_bytes);
            }
        } else {
            lemma_least_fits(pattern.skip(1), in_bytes);
        }
    }
}

fn width_of(c: char, in_bytes: bool) -> (n: usize)
    ensures
        n == width(c, in_bytes),
{
    let code: u32 = c as u32;
    if !in_bytes || code <= 0x7f {
        1
    } else if code <= 0x7ff {
        2
    } else if code <= 0xffff {
        3
    } else {
        4
    }
}

/// The position behind the first `]` from a position on; the end, if there is
/// none.
fn behind_bracket(chars: &Vec<char>, from: usize) -> (behind: usize)
    requires
        from <= chars@.len(),
    ensures
        from <= behind <= chars@.len(),
        past_bracket(chars@.skip(from as int)) == chars@.skip(behind as int),
{
    let mut i: usize = from;
    while i < chars.len()
        invariant
            from <= i <= chars@.len(),
            past_bracket(chars@.skip(from as int)) == past_bracket(chars@.skip(i as int)),
        decreases chars@.len() - i,
    {
        assert(chars@.skip(i as int).skip(1) =~= chars@.skip(i + 1));
        if chars[i] == ']' {
            return i + 1;
        }
        i = i + 1;
    }
    i
}

/// Counts what a pattern must consume at least.
fn count_least(pattern: &str, in_bytes: bool) -> (count: usize)
    ensures
        count == least(pattern@, in_bytes),
{
    let chars = chars_of(pattern);
    let length: usize = pattern.as_bytes().len();
    let mut count: usize = 0;
    let mut i: usize = 0;
    proof {
        lemma_least_fits(pattern@, in_bytes);
        assert(pattern@.skip(0) =~= pattern@);
    }
    while i < chars.len()
        invariant
            chars@ == pattern@,
            i <= chars.len(),
            count + least(pattern@.skip(i as int), in_bytes) == least(pattern@, in_bytes),
            least(pattern@, in_bytes) <= length,
        decreases chars@.len() - i,
    {
        let ghost rest = pattern@.skip(i as int);
        assert(rest.skip(1) =~= pattern@.skip(i + 1));
        let c = chars[i];
        if c == '*' {
            i = i + 1;
        } else if c == '\\' {
            i = i + 1;
            if i < chars.len() {
                assert(rest.skip(2) =~= pattern@.skip(i + 1));
                count = count + width_of(chars[i], in_bytes);
                i = i + 1;
            }
        } else if c == '[' {
            proof {
                lemma_past_class(rest);
            }
            let first: usize = if chars.len() - i >= 2 && chars[i + 1] == '!' {
                3
            } else {
                2
            };
            count = count + 1;
            if chars.len() - i >= first {
                assert(rest.skip(first as int) =~= pattern@.skip(i + first));
                i = behind_bracket(&chars, i + first);
            } else {
                i = chars.len();
                assert(pattern@.skip(i as int) =~= Seq::empty());
            }
            assert(past_class(rest) == pattern@.skip(i as int));
        } else {
            count = count + width_of(c, in_bytes);
            i = i + 1;
        }
    }
    assert(pattern@.skip(i as int).len() == 0);
    count
}

/// Minimum number of input characters a glob pattern must consume to match.
/// `*` contributes 0; `?` and character classes contribute 1; literals
/// contribute 1; `\<x>` is one literal character.
pub fn glob_min_match_length(pattern: &str) -> (count: usize)
    ensures
        count == min_match_length(pattern@),
{
    count_least(pattern, false)
}

/// Minimum number of input bytes a glob pattern must consume to match. Literals
/// contribute their length in UTF-8.
pub fn glob_min_match_bytes(pattern: &str) -> (count: usize)
    ensures
        count == min_match_bytes(pattern@),
{
    count_least(pattern, true)
}

/// A pattern whose special characters are all where both readings of a pattern
/// agree on them: no `**` with a slash behind it, and no backslash before a `[`
/// or before such a `**`.
pub open spec fn is_regular(pattern: Seq<char>) -> bool
    decreases pattern.len(),
{
    if pattern.len() == 0 {
        true
    } else if pattern[0] == '*' {
        &&& !(pattern.len() >= 3 && pattern[1] == '*' && pattern[2] == '/')
        &&& is_regular(pattern.skip(1))
    } else if pattern[0] == '\\' && pattern.len() >= 2 {
        &&& pattern[1] != '['
        &&& !(pattern.len() >= 4 && pattern[1] == '*' && pattern[2] == '*' && pattern[3] == '/')
        &&& is_regular(pattern.skip(2))
    } else if pattern[0] == '[' {
        past_class(pattern).len() < pattern.len() ==> is_regular(past_class(pattern))
    } else {
        is_regular(pattern.skip(1))
    }
}

/// For a regular pattern, what is read off it is what every matching text has.
pub proof fn lemma_least_is_needed(pattern: Seq<char>, in_bytes: bool)
    requires
        is_regular(pattern),
    ensures
        least(pattern, in_bytes) <= needed(pattern, in_bytes),
    decreases pattern.len(),
{
    if pattern.len() == 0 {
    } else if pattern[0] == '*' {
        lemma_least_is_needed(pattern.skip(1), in_bytes);
    } else if pattern[0] == '\\' {
        if pattern.len() >= 2 {
            lemma_least_is_needed(pattern.skip(2), in_bytes);
            assert(pattern.skip(1).skip(1) =~= pattern.skip(2));
            assert(width('\\', in_bytes) == 1 && width('*', in_bytes) == 1);
            assert(needed(pattern.skip(1), in_bytes) == (if pattern[1] == '*' {
                0
            } else {
                width(pattern[1], in_bytes)
            }) + needed(pattern.skip(2), in_bytes));
        }
    } else if pattern[0] == '[' {
        lemma_past_class(pattern);
        lemma_least_is_needed(past_class(pattern), in_bytes);
    } else {
        lemma_least_is_needed(pattern.skip(1), in_bytes);
    }
}

/// A text without special characters must be consumed as a whole, every
/// character and every byte of it.
pub proof fn lemma_literals_count(text: Seq<char>)
    requires
        forall|i: int|
            0 <= i < text.len() ==> #[trigger] text[i] != '*' && text[i] != '[' && text[i] != '\\',
    ensures
        min_match_length(text) == text.len(),
        min_match_bytes(text) == encode_utf8(text).len(),
    decreases text.len(),
{
    if text.len() > 0 {
        let rest = text.skip(1);
        assert(text.drop_first() =~= rest);
        assert forall|i: int| 0 <= i < rest.len() implies #[trigger] rest[i] != '*' && rest[i]
            != '[' && rest[i] != '\\' by {
            assert(rest[i] == text[i + 1]);
        }
        lemma_literals_count(rest);
    }
}

/// What stands one behind the other adds up, where the first holds no character
/// class and no backslash.
pub proof fn lemma_lengths_add_up(first: Seq<char>, second: Seq<char>, in_bytes: bool)
    requires
        forall|i: int| 0 <= i < first.len() ==> #[trigger] first[i] != '[' && first[i] != '\\',
    ensures
        least(first + second, in_bytes) == least(first, in_bytes) + least(second, in_bytes),
    decreases first.len(),
{
    if first.len() == 0 {
        assert(first + second =~= second);
    } else {
        let rest = first.skip(1);
        assert((first + second).skip(1) =~= rest + second);
        assert forall|i: int| 0 <= i < rest.len() implies #[trigger] rest[i] != '[' && rest[i]
            != '\\' by {
            assert(rest[i] == first[i + 1]);
        }
        lemma_lengths_add_up(rest, second, in_bytes);
    }
}

/// A `*` asks for nothing, a `?` for one character, and a backslash with a
/// character behind it for that character.
pub proof fn lemma_special_characters_count(c: char, rest: Seq<char>, in_bytes: bool)
    ensures
        least(seq!['*'] + rest, in_bytes) == least(rest, in_bytes),
        least(seq!['?'] + rest, in_bytes) == 1 + least(rest, in_bytes),
        least(seq!['\\', c] + rest, false) == 1 + least(rest, false),
        least(seq!['\\', c] + rest, true) == encode_utf8(seq![c]).len() + least(rest, true),
{
    assert((seq!['*'] + rest).skip(1) =~= rest);
    assert((seq!['?'] + rest).skip(1) =~= rest);
    assert((seq!['\\', c] + rest).skip(2) =~= rest);
    reveal_with_fuel(encode_utf8, 2);
    assert(seq![c].drop_first() =~= Seq::empty());
}

proof fn lemma_past_bracket_of(body: Seq<char>, rest: Seq<char>)
    requires
        !body.contains(']'),
    ensures
        past_bracket(body + seq![']'] + rest) == rest,
    decreases body.len(),
{
    let whole = body + seq![']'] + rest;
    if body.len() == 0 {
        assert(whole.skip(1) =~= rest);
    } else {
        assert(body.contains(body[0]));
        assert(whole[0] == body[0]);
        assert(whole.skip(1) =~= body.skip(1) + seq![']'] + rest);
        assert(!body.skip(1).contains(']')) by {
            if body.skip(1).contains(']') {
                let k = choose|k: int| 0 <= k < body.skip(1).len() && body.skip(1)[k] == ']';
                assert(body[k + 1] == ']');
            }
        }
        lemma_past_bracket_of(body.skip(1), rest);
    }
}

/// A character class asks for one, whatever is in it: a `]` right behind its
/// start belongs to it, also behind a `!`.
pub proof fn lemma_classes_count_once(
    first: char,
    body: Seq<char>,
    rest: Seq<char>,
    in_bytes: bool,
)
    requires
        !body.contains(']'),
    ensures
        first != '!' ==> least(seq!['[', first] + body + seq![']'] + rest, in_bytes) == 1 + least(
            rest,
            in_bytes,
        ),
        least(seq!['[', '!', first] + body + seq![']'] + rest, in_bytes) == 1 + least(
            rest,
            in_bytes,
        ),
{
    lemma_past_bracket_of(body, rest);
    let plain = seq!['[', first] + body + seq![']'] + rest;
    assert(plain.skip(2) =~= body + seq![']'] + rest);
    let negated = seq!['[', '!', first] + body + seq![']'] + rest;
    assert(negated.skip(3) =~= body + seq![']'] + rest);
    assert(plain[0] == '[' && plain[1] == first);
    assert(negated[0] == '[' && negated[1] == '!');
}

/// A backslash at the end asks for nothing, and a character class without an end
/// takes the rest of the pattern and asks for one.
pub proof fn lemma_unfinished_patterns_count(body: Seq<char>, in_bytes: bool)
    requires
        !body.contains(']'),
    ensures
        least(seq!['\\'], in_bytes) == 0,
        least(seq!['['] + body, in_bytes) == 1,
{
    let pattern = seq!['['] + body;
    let first = if pattern.len() >= 2 && pattern[1] == '!' {
        3int
    } else {
        2int
    };
    if first <= pattern.len() {
        let behind = pattern.skip(first);
        assert forall|i: int| 0 <= i < behind.len() implies #[trigger] behind[i] != ']' by {
            assert(body[first + i - 1] == behind[i]);
            assert(body.contains(behind[i]));
        }
        lemma_past_no_bracket(behind);
    }
    assert(past_class(pattern) =~= Seq::empty());
    assert(least(Seq::empty(), in_bytes) == 0);
}

proof fn lemma_past_no_bracket(s: Seq<char>)
    requires
        forall|i: int| 0 <= i < s.len() ==> #[trigger] s[i] != ']',
    ensures
        past_bracket(s).len() == 0,
    decreases s.len(),
{
    if s.len() > 0 {
        let rest = s.skip(1);
        assert forall|i: int| 0 <= i < rest.len() implies #[trigger] rest[i] != ']' by {
            assert(rest[i] == s[i + 1]);
        }
        lemma_past_no_bracket(rest);
    }
}

/// The sentence about a wrong pattern tells the position and the problem.
pub proof fn lemma_pattern_message(fault: (usize, Seq<char>))
    ensures
        says(pattern_message(fault), decimal(fault.0 as nat)),
        says(pattern_message(fault), fault.1),
{
    lemma_says_both(
        "Pattern syntax error near position "@,
        decimal(fault.0 as nat),
        ": "@,
        fault.1,
    );
}

} // verus!
