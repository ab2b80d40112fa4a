//! Small text functions: comparison, splitting, trimming, decimal numbers.

use vstd::prelude::*;
use vstd::string::*;
use vstd::utf8::*;

verus! {

/// `String::push` appends one character to the end of the string and leaves
/// what it held before in place.
pub assume_specification[ String::push ](s: &mut String, ch: char)
    ensures
        final(s)@ == old(s)@.push(ch),
;

/// `std::str::from_utf8` succeeds on exactly the valid UTF-8 byte sequences,
/// and the string that it gives holds the characters that the bytes encode.
#[verifier::external_body]
pub(crate) fn utf8_str(bytes: &[u8]) -> (s: Option<&str>)
    ensures
        s is Some <==> valid_utf8(bytes@),
        s matches Some(t) ==> t@ == decode_utf8(bytes@),
{
    std::str::from_utf8(bytes).ok()
}

/// A text as the debug format of strings shows it: in quotes, with escapes.
pub uninterp spec fn debug_text(text: Seq<char>) -> Seq<char>;

/// `format!` with `{:?}`: what it shows depends on the text alone.
#[verifier::external_body]
pub(crate) fn debug_format(text: &str) -> (shown: String)
    ensures
        shown@ == debug_text(text@),
{
    format!("{:?}", text)
}

/// The text that bytes encode, if they are valid UTF-8.
pub open spec fn utf8_text(bytes: Seq<u8>) -> Option<Seq<char>> {
    if valid_utf8(bytes) {
        Some(decode_utf8(bytes))
    } else {
        None
    }
}

/// Whether two strings hold the same characters.
pub fn str_eq(a: &str, b: &str) -> (same: bool)
    ensures
        same == (a@ == b@),
{
    broadcast use encode_utf8_decode_utf8;

    let left = a.as_bytes();
    let right = b.as_bytes();
    if left.len() != right.len() {
        return false;
    }
    let mut i: usize = 0;
    while i < left.len()
        invariant
            left@ == a.spec_bytes(),
            right@ == b.spec_bytes(),
            left@.len() == right@.len(),
            i <= left@.len(),
            forall|j: int| 0 <= j < i ==> left@[j] == right@[j],
        decreases left@.len() - i,
    {
        if left[i] != right[i] {
            return false;
        }
        i = i + 1;
    }
    assert(left@ =~= right@);
    assert(decode_utf8(a.spec_bytes()) == a@);
    assert(decode_utf8(b.spec_bytes()) == b@);
    true
}

/// The characters of a string, one by one.
pub fn chars_of(s: &str) -> (chars: Vec<char>)
    ensures
        chars@ == s@,
{
    let mut chars: Vec<char> = Vec::new();
    for c in it: s.chars()
        invariant
            it.seq() == s@,
            chars@ == s@.take(it.index() as int),
    {
        chars.push(c);
        assert(s@.take(it.index() + 1) =~= s@.take(it.index() as int).push(c));
    }
    assert(s@.take(s@.len() as int) =~= s@);
    chars
}

/// The string made of `chars[from..to]`.
pub fn string_of(chars: &Vec<char>, from: usize, to: usize) -> (s: String)
    requires
        from <= to <= chars@.len(),
    ensures
        s@ == chars@.subrange(from as int, to as int),
{
    let mut s = String::new();
    let mut i: usize = from;
    while i < to
        invariant
            from <= i <= to <= chars@.len(),
            s@ == chars@.subrange(from as int, i as int),
        decreases to - i,
    {
        s.push(chars[i]);
        i = i + 1;
        assert(chars@.subrange(from as int, i as int) =~= chars@.subrange(
            from as int,
            i - 1,
        ).push(chars@[i - 1]));
    }
    s
}

/// The characters of each string of a list.
pub open spec fn texts(list: Seq<String>) -> Seq<Seq<char>> {
    list.map_values(|s: String| s@)
}

/// The characters of a string, if there is one.
pub open spec fn text_of(s: Option<String>) -> Option<Seq<char>> {
    match s {
        Some(t) => Some(t@),
        None => None,
    }
}

/// The pieces of `s` between the occurrences of `separator`. There is always
/// one piece more than there are separators.
pub open spec fn split<A>(s: Seq<A>, separator: A) -> Seq<Seq<A>>
    decreases s.len(),
{
    if s.len() == 0 {
        seq![Seq::empty()]
    } else {
        let before = split(s.drop_last(), separator);
        if s.last() == separator {
            before.push(Seq::empty())
        } else {
            before.drop_last().push(before.last().push(s.last()))
        }
    }
}

/// The pieces, with `separator` between each two of them.
pub open spec fn join<A>(pieces: Seq<Seq<A>>, separator: A) -> Seq<A>
    decreases pieces.len(),
{
    if pieces.len() == 0 {
        Seq::empty()
    } else if pieces.len() == 1 {
        pieces[0]
    } else {
        join(pieces.drop_last(), separator).push(separator) + pieces.last()
    }
}

/// Splitting loses nothing: the pieces, joined again, are the whole, and no
/// piece holds the separator.
pub proof fn lemma_split_join<A>(s: Seq<A>, separator: A)
    ensures
        split(s, separator).len() >= 1,
        join(split(s, separator), separator) == s,
        forall|i: int|
            0 <= i < split(s, separator).len() ==> !(#[trigger] split(s, separator)[i]).contains(
                separator,
            ),
    decreases s.len(),
{
    let pieces = split(s, separator);
    if s.len() == 0 {
        assert(join(pieces, separator) =~= s);
    } else {
        let before = split(s.drop_last(), separator);
        lemma_split_join(s.drop_last(), separator);
        assert(s =~= s.drop_last().push(s.last()));
        if s.last() == separator {
            assert(pieces.drop_last() =~= before);
            assert(join(pieces, separator) =~= s);
            assert forall|i: int| 0 <= i < pieces.len() implies !(
            #[trigger] pieces[i]).contains(separator) by {
                if i < before.len() {
                    assert(pieces[i] == before[i]);
                }
            }
        } else {
            let piece = before.last().push(s.last());
            assert(pieces.last() == piece);
            assert(pieces.drop_last() =~= before.drop_last());
            assert(join(pieces, separator) =~= s);
            assert forall|i: int| 0 <= i < pieces.len() implies !(
            #[trigger] pieces[i]).contains(separator) by {
                if i < before.len() - 1 {
                    assert(pieces[i] == before[i]);
                } else {
                    assert(!before[before.len() - 1].contains(separator));
                    assert(pieces[i] == piece);
                    if piece.contains(separator) {
                        let k = choose|k: int| 0 <= k < piece.len() && piece[k] == separator;
                        assert(before.last()[k] == separator);
                    }
                }
            }
        }
    }
}

/// Joining loses nothing either: pieces that do not hold the separator are what
/// the whole splits into.
pub proof fn lemma_join_split<A>(pieces: Seq<Seq<A>>, separator: A)
    requires
        pieces.len() >= 1,
        forall|i: int| 0 <= i < pieces.len() ==> !(#[trigger] pieces[i]).contains(separator),
    ensures
        split(join(pieces, separator), separator) == pieces,
    decreases pieces.len(),
{
    let last = pieces.last();
    assert(!pieces[pieces.len() - 1].contains(separator));
    if pieces.len() == 1 {
        lemma_split_extend(Seq::<A>::empty(), last, separator);
        assert(Seq::<A>::empty() + last =~= last);
        assert(split(last, separator) =~= pieces);
    } else {
        let before = pieces.drop_last();
        let whole = join(before, separator);
        assert forall|i: int| 0 <= i < before.len() implies !(#[trigger] before[i]).contains(
            separator,
        ) by {
            assert(before[i] == pieces[i]);
        }
        lemma_join_split(before, separator);
        assert(whole.push(separator).drop_last() =~= whole);
        assert(split(whole.push(separator), separator) == before.push(Seq::empty()));
        lemma_split_extend(whole.push(separator), last, separator);
        assert(before.push(Seq::<A>::empty()).drop_last() =~= before);
        assert(Seq::<A>::empty() + last =~= last);
        assert(before.push(last) =~= pieces);
    }
}

/// Text without the separator, put behind a sequence, goes into the last piece.
pub proof fn lemma_split_extend<A>(s: Seq<A>, tail: Seq<A>, separator: A)
    requires
        !tail.contains(separator),
    ensures
        split(s + tail, separator) == split(s, separator).drop_last().push(
            split(s, separator).last() + tail,
        ),
    decreases tail.len(),
{
    lemma_split_join(s, separator);
    let pieces = split(s, separator);
    if tail.len() == 0 {
        assert(s + tail =~= s);
        assert(pieces.last() + tail =~= pieces.last());
        assert(pieces.drop_last().push(pieces.last()) =~= pieces);
    } else {
        let shorter = tail.drop_last();
        assert(!shorter.contains(separator)) by {
            if shorter.contains(separator) {
                let k = choose|k: int| 0 <= k < shorter.len() && shorter[k] == separator;
                assert(tail[k] == separator);
            }
        }
        lemma_split_extend(s, shorter, separator);
        assert((s + tail).drop_last() =~= s + shorter);
        assert(tail[tail.len() - 1] != separator);
        let before = split(s + shorter, separator);
        assert(before.drop_last() =~= pieces.drop_last());
        assert(before.last().push(tail.last()) =~= pieces.last() + tail);
    }
}

/// The encoding of two texts, one behind the other, is the two encodings, one
/// behind the other.
pub proof fn lemma_encode_concat(a: Seq<char>, b: Seq<char>)
    ensures
        encode_utf8(a + b) == encode_utf8(a) + encode_utf8(b),
    decreases a.len(),
{
    if a.len() == 0 {
        assert(a + b =~= b);
        assert(encode_utf8(a) + encode_utf8(b) =~= encode_utf8(b));
    } else {
        lemma_encode_concat(a.drop_first(), b);
        assert((a + b).drop_first() =~= a.drop_first() + b);
        assert(encode_utf8(a + b) =~= encode_utf8(a) + encode_utf8(b));
    }
}

/// Splits a string at every `separator`.
pub fn split_on(s: &str, separator: char) -> (parts: Vec<String>)
    ensures
        texts(parts@) == split(s@, separator),
{
    let chars = chars_of(s);
    let mut parts: Vec<String> = Vec::new();
    let mut start: usize = 0;
    let mut i: usize = 0;
    assert(s@.take(0) =~= Seq::<char>::empty());
    assert(texts(parts@).push(chars@.subrange(0, 0)) =~= split(s@.take(0), separator));
    while i < chars.len()
        invariant
            chars@ == s@,
            start <= i <= chars@.len(),
            texts(parts@).push(chars@.subrange(start as int, i as int)) == split(
                s@.take(i as int),
                separator,
            ),
        decreases chars@.len() - i,
    {
        let ghost before = texts(parts@).push(chars@.subrange(start as int, i as int));
        assert(s@.take(i + 1).drop_last() =~= s@.take(i as int));
        if chars[i] == separator {
            let part = string_of(&chars, start, i);
            parts.push(part);
            start = i + 1;
            assert(texts(parts@) =~= before);
            assert(chars@.subrange(i + 1, i + 1) =~= Seq::<char>::empty());
        } else {
            assert(before.drop_last() =~= texts(parts@));
            assert(chars@.subrange(start as int, i + 1) =~= chars@.subrange(
                start as int,
                i as int,
            ).push(chars@[i as int]));
        }
        i = i + 1;
    }
    let part = string_of(&chars, start, i);
    let ghost before = texts(parts@).push(part@);
    parts.push(part);
    assert(texts(parts@) =~= before);
    assert(s@.take(s@.len() as int) =~= s@);
    parts
}

/// The decimal digit with value `d`.
pub open spec fn digit(d: nat) -> char {
    (d + '0' as nat) as char
}

/// A number in decimal, without leading zeros.
pub open spec fn decimal(n: nat) -> Seq<char>
    decreases n,
{
    if n < 10 {
        seq![digit(n)]
    } else {
        decimal(n / 10).push(digit(n % 10))
    }
}

/// A signed number in decimal.
pub open spec fn decimal_int(n: int) -> Seq<char> {
    if n < 0 {
        "-"@ + decimal((-n) as nat)
    } else {
        decimal(n as nat)
    }
}

/// Writes a number in decimal.
pub fn decimal_of(n: u64) -> (s: String)
    ensures
        s@ == decimal(n as nat),
    decreases n,
{
    let mut s = if n < 10 {
        String::new()
    } else {
        decimal_of(n / 10)
    };
    let d: u8 = (n % 10) as u8;
    s.push((d + 48) as char);
    assert(s@ =~= decimal(n as nat));
    s
}

/// Writes a signed number in decimal.
pub fn decimal_of_int(n: i64) -> (s: String)
    ensures
        s@ == decimal_int(n as int),
{
    if n < 0 {
        let mut s = String::from_str("-");
        let magnitude: u64 = if n == i64::MIN {
            9223372036854775808
        } else {
            (-n) as u64
        };
        let digits = decimal_of(magnitude);
        s.append(digits.as_str());
        s
    } else {
        decimal_of(n as u64)
    }
}

pub open spec fn is_digit(c: char) -> bool {
    '0' <= c && c <= '9'
}

/// The number that a row of decimal digits stands for.
pub open spec fn digits_value(digits: Seq<char>) -> nat
    decreases digits.len(),
{
    if digits.len() == 0 {
        0
    } else {
        digits_value(digits.drop_last()) * 10 + (digits.last() as nat - '0' as nat) as nat
    }
}

/// The unsigned number that a text stands for: an optional `+`, then one or
/// more decimal digits and nothing else.
pub open spec fn number(s: Seq<char>) -> Option<nat> {
    if all_digits(without_plus(s)) {
        Some(digits_value(without_plus(s)))
    } else {
        None
    }
}

pub open spec fn without_plus(s: Seq<char>) -> Seq<char> {
    if s.len() > 0 && s[0] == '+' {
        s.skip(1)
    } else {
        s
    }
}

/// One or more characters, each a decimal digit.
pub open spec fn all_digits(s: Seq<char>) -> bool {
    s.len() > 0 && forall|i: int| 0 <= i < s.len() ==> is_digit(#[trigger] s[i])
}

proof fn lemma_digits_value_grows(digits: Seq<char>, n: int)
    requires
        0 <= n <= digits.len(),
    ensures
        digits_value(digits.take(n)) <= digits_value(digits),
    decreases digits.len(),
{
    if n < digits.len() {
        lemma_digits_value_grows(digits.drop_last(), n);
        assert(digits.drop_last().take(n) =~= digits.take(n));
    } else {
        assert(digits.take(n) =~= digits);
    }
}

/// Reads an unsigned number of at most 64 bits.
pub fn parse_number(s: &str) -> (n: Option<u64>)
    ensures
        n == (match number(s@) {
            Some(v) if v <= u64::MAX => Some(v as u64),
            _ => None,
        }),
{
    let chars = chars_of(s);
    let start: usize = if chars.len() > 0 && chars[0] == '+' {
        1
    } else {
        0
    };
    let ghost digits = chars@.skip(start as int);
    assert(digits =~= without_plus(s@));
    if chars.len() == start {
        return None;
    }
    let mut value: u64 = 0;
    let mut i: usize = start;
    assert(digits.take(0) =~= Seq::<char>::empty());
    while i < chars.len()
        invariant
            start <= i <= chars@.len(),
            start <= 1,
            digits == chars@.skip(start as int),
            digits.len() > 0,
            digits == without_plus(s@),
            forall|k: int| 0 <= k < i - start ==> is_digit(#[trigger] digits[k]),
            value == digits_value(digits.take(i - start)),
        decreases chars@.len() - i,
    {
        let c = chars[i];
        assert(c == digits[i - start]);
        if !('0' <= c && c <= '9') {
            return None;
        }
        let d: u64 = (c as u32 - 48) as u64;
        let ghost grown = digits.take(i - start + 1);
        assert(grown.drop_last() =~= digits.take(i - start));
        assert(digits_value(grown) == value * 10 + d);
        proof {
            lemma_digits_value_grows(digits, i - start + 1);
        }
        if value > 1844674407370955161 || (value == 1844674407370955161 && d > 5) {
            return None;
        }
        value = value * 10 + d;
        i = i + 1;
    }
    assert(digits.take(digits.len() as int) =~= digits);
    Some(value)
}

/// Reads an unsigned number of at most 32 bits.
pub fn parse_number_32(s: &str) -> (n: Option<u32>)
    ensures
        n == (match number(s@) {
            Some(v) if v <= u32::MAX => Some(v as u32),
            _ => None,
        }),
{
    match parse_number(s) {
        Some(v) if v <= 4294967295 => Some(v as u32),
        _ => None,
    }
}

/// A number written in decimal reads back as the same number.
pub proof fn lemma_decimal_reads_back(n: nat)
    ensures
        all_digits(decimal(n)),
        number(decimal(n)) == Some(n),
{
    lemma_decimal_digits(n);
    assert(decimal(n)[0] != '+');
}

proof fn lemma_decimal_digits(n: nat)
    ensures
        all_digits(decimal(n)),
        digits_value(decimal(n)) == n,
    decreases n,
{
    if n < 10 {
        assert(decimal(n).drop_last() =~= Seq::<char>::empty());
        assert(digits_value(decimal(n).drop_last()) == 0);
    } else {
        lemma_decimal_digits(n / 10);
        assert(decimal(n).drop_last() =~= decimal(n / 10));
    }
}

/// The characters with the Unicode property White_Space.
pub open spec fn is_white_space(c: char) -> bool {
    ||| '\u{9}' <= c && c <= '\u{d}'
    ||| c == ' '
    ||| c == '\u{85}'
    ||| c == '\u{a0}'
    ||| c == '\u{1680}'
    ||| '\u{2000}' <= c && c <= '\u{200a}'
    ||| c == '\u{2028}'
    ||| c == '\u{2029}'
    ||| c == '\u{202f}'
    ||| c == '\u{205f}'
    ||| c == '\u{3000}'
}

/// Whether a character is white space.
pub fn white_space(c: char) -> (b: bool)
    ensures
        b == is_white_space(c),
{
    ('\u{9}' <= c && c <= '\u{d}') || c == ' ' || c == '\u{85}' || c == '\u{a0}' || c == '\u{1680}'
        || ('\u{2000}' <= c && c <= '\u{200a}') || c == '\u{2028}' || c == '\u{2029}' || c
        == '\u{202f}' || c == '\u{205f}' || c == '\u{3000}'
}

/// `s` without the white space at its start.
pub open spec fn trim_start(s: Seq<char>) -> Seq<char>
    decreases s.len(),
{
    if s.len() > 0 && is_white_space(s.first()) {
        trim_start(s.drop_first())
    } else {
        s
    }
}

/// `s` without the white space at its end.
pub open spec fn trim_end(s: Seq<char>) -> Seq<char>
    decreases s.len(),
{
    if s.len() > 0 && is_white_space(s.last()) {
        trim_end(s.drop_last())
    } else {
        s
    }
}

/// Removes the white space at both ends.
pub fn trim(s: &str) -> (trimmed: String)
    ensures
        trimmed@ == trim_end(trim_start(s@)),
{
    let chars = chars_of(s);
    let mut from: usize = 0;
    assert(s@.skip(0) =~= s@);
    while from < chars.len() && white_space(chars[from])
        invariant
            chars@ == s@,
            from <= chars@.len(),
            trim_start(s@) == trim_start(s@.skip(from as int)),
        decreases chars@.len() - from,
    {
        assert(s@.skip(from as int).drop_first() =~= s@.skip(from + 1));
        from = from + 1;
    }
    assert(trim_start(s@) == s@.skip(from as int));
    let mut to: usize = chars.len();
    assert(s@.skip(from as int) =~= s@.subrange(from as int, to as int));
    while from < to && white_space(chars[to - 1])
        invariant
            chars@ == s@,
            from <= to <= chars@.len(),
            trim_end(trim_start(s@)) == trim_end(s@.subrange(from as int, to as int)),
        decreases to - from,
    {
        assert(s@.subrange(from as int, to as int).drop_last() =~= s@.subrange(
            from as int,
            to - 1,
        ));
        to = to - 1;
    }
    string_of(&chars, from, to)
}

/// A number goes on for as long as there are digits: one more digit counts ten
/// times what stands before it, and anything else makes it no number.
pub proof fn lemma_number_goes_on(s: Seq<char>, c: char)
    requires
        number(s) is Some,
    ensures
        '0' <= c && c <= '9' ==> number(s.push(c)) == Some(
            (number(s)->0 * 10 + (c as nat - '0' as nat)) as nat,
        ),
        !('0' <= c && c <= '9') ==> number(s.push(c)) is None,
{
    let digits = without_plus(s);
    let more = without_plus(s.push(c));
    assert(more =~= digits.push(c));
    assert(more.drop_last() =~= digits);
    assert(more[more.len() - 1] == c);
    if is_digit(c) {
        assert forall|i: int| 0 <= i < more.len() implies is_digit(#[trigger] more[i]) by {
            if i < digits.len() {
                assert(more[i] == digits[i]);
            }
        }
    }
}

/// A number starts with a digit, or with a plus sign before one; nothing else
/// is one.
pub proof fn lemma_number_starts(c: char, s: Seq<char>)
    ensures
        number(seq![c]) == if '0' <= c && c <= '9' {
            Some((c as nat - '0' as nat) as nat)
        } else {
            None
        },
        number(Seq::empty()) is None,
        s.len() > 0 && s[0] != '+' ==> number(seq!['+'] + s) == number(s),
        s.len() > 0 && s[0] != '+' && !('0' <= s[0] && s[0] <= '9') ==> number(s) is None,
{
    reveal_with_fuel(digits_value, 2);
    assert(seq![c].drop_last() =~= Seq::empty());
    assert((seq!['+'] + s).skip(1) =~= s);
    assert(seq!['+'].skip(1) =~= Seq::<char>::empty());
    if s.len() > 0 && s[0] != '+' && !('0' <= s[0] && s[0] <= '9') {
        assert(!is_digit(s[0]));
    }
    if '0' <= c && c <= '9' {
        assert forall|i: int| 0 <= i < seq![c].len() implies is_digit(#[trigger] seq![c][i]) by {}
    } else if c != '+' {
        assert(!is_digit(seq![c][0]));
    }
}

/// Trimming removes white space and nothing else, and leaves none at the ends.
/// The results are what is removed before and behind.
pub proof fn lemma_trim(s: Seq<char>) -> (removed: (Seq<char>, Seq<char>))
    ensures
        s == removed.0 + trim_end(trim_start(s)) + removed.1,
        forall|i: int| 0 <= i < removed.0.len() ==> is_white_space(#[trigger] removed.0[i]),
        forall|i: int| 0 <= i < removed.1.len() ==> is_white_space(#[trigger] removed.1[i]),
        trim_end(trim_start(s)).len() > 0 ==> !is_white_space(trim_end(trim_start(s)).first())
            && !is_white_space(trim_end(trim_start(s)).last()),
{
    let before = lemma_trim_start(s);
    let behind = lemma_trim_end(trim_start(s));
    let t = trim_end(trim_start(s));
    assert(s =~= before + t + behind);
    if t.len() > 0 {
        assert(t.first() == trim_start(s).first());
    }
    (before, behind)
}

proof fn lemma_trim_start(s: Seq<char>) -> (before: Seq<char>)
    ensures
        s == before + trim_start(s),
        forall|i: int| 0 <= i < before.len() ==> is_white_space(#[trigger] before[i]),
        trim_start(s).len() > 0 ==> !is_white_space(trim_start(s).first()),
    decreases s.len(),
{
    if s.len() > 0 && is_white_space(s.first()) {
        let before = lemma_trim_start(s.drop_first());
        let more = seq![s.first()] + before;
        assert(s =~= seq![s.first()] + s.drop_first());
        assert(more + trim_start(s) =~= seq![s.first()] + (before + trim_start(s)));
        more
    } else {
        assert(s =~= Seq::<char>::empty() + s);
        Seq::empty()
    }
}

proof fn lemma_trim_end(s: Seq<char>) -> (behind: Seq<char>)
    ensures
        s == trim_end(s) + behind,
        forall|i: int| 0 <= i < behind.len() ==> is_white_space(#[trigger] behind[i]),
        trim_end(s).len() > 0 ==> !is_white_space(trim_end(s).last()),
    decreases s.len(),
{
    if s.len() > 0 && is_white_space(s.last()) {
        let behind = lemma_trim_end(s.drop_last());
        let more = behind.push(s.last());
        assert(s =~= s.drop_last().push(s.last()));
        assert(trim_end(s) + more =~= (trim_end(s) + behind).push(s.last()));
        more
    } else {
        assert(s =~= s + Seq::<char>::empty());
        Seq::empty()
    }
}

/// White space around a text that has none at its own ends is what is removed.
pub proof fn lemma_trim_is_exact(before: Seq<char>, text: Seq<char>, behind: Seq<char>)
    requires
        forall|i: int| 0 <= i < before.len() ==> is_white_space(#[trigger] before[i]),
        forall|i: int| 0 <= i < behind.len() ==> is_white_space(#[trigger] behind[i]),
        text.len() > 0 ==> !is_white_space(text.first()) && !is_white_space(text.last()),
    ensures
        trim_end(trim_start(before + text + behind)) == text,
{
    let whole = before + text + behind;
    let (a, b) = lemma_trim(whole);
    let t = trim_end(trim_start(whole));
    if text.len() == 0 {
        if t.len() > 0 {
            assert(whole[a.len() as int] == t.first());
            assert(is_white_space(whole[a.len() as int])) by {
                if a.len() < before.len() {
                    assert(whole[a.len() as int] == before[a.len() as int]);
                } else {
                    assert(whole[a.len() as int] == behind[a.len() - before.len()]);
                }
            }
        }
        assert(t =~= text);
    } else {
        let first = before.len() as int;
        let last = before.len() + text.len() - 1;
        assert(whole[first] == text.first());
        assert(whole[last] == text.last());
        assert(t.len() > 0) by {
            if t.len() == 0 {
                if first < a.len() {
                    assert(whole[first] == a[first]);
                } else {
                    assert(whole[first] == b[first - a.len()]);
                }
            }
        }
        assert(whole[a.len() as int] == t.first());
        assert(whole[a.len() + t.len() - 1] == t.last());
        if a.len() < first {
            assert(whole[a.len() as int] == before[a.len() as int]);
        } else if a.len() > first {
            assert(whole[first] == a[first]);
        }
        let end = a.len() + t.len() - 1;
        if end > last {
            assert(whole[end] == behind[end - last - 1]);
        } else if end < last {
            assert(whole[last] == b[last - end - 1]);
        }
        assert(t =~= whole.subrange(a.len() as int, end + 1));
        assert(text =~= whole.subrange(first, last + 1));
    }
}

/// Two texts with the separator between them have the pieces of the one and then
/// those of the other.
pub proof fn lemma_split_apart<A>(first: Seq<A>, second: Seq<A>, separator: A)
    ensures
        split(first.push(separator) + second, separator) == split(first, separator) + split(
            second,
            separator,
        ),
    decreases second.len(),
{
    let whole = first.push(separator) + second;
    let pieces = split(first, separator);
    if second.len() == 0 {
        assert(whole.drop_last() =~= first);
        assert(pieces.push(Seq::empty()) =~= pieces + split(second, separator));
    } else {
        let shorter = second.drop_last();
        lemma_split_apart(first, shorter, separator);
        lemma_split_join(shorter, separator);
        let rest = split(shorter, separator);
        assert(whole.drop_last() =~= first.push(separator) + shorter);
        assert((pieces + rest).drop_last() =~= pieces + rest.drop_last());
        assert(split(whole, separator) =~= pieces + split(second, separator));
    }
}

/// A text without the separator is its own only piece.
pub proof fn lemma_split_one<A>(s: Seq<A>, separator: A)
    requires
        !s.contains(separator),
    ensures
        split(s, separator) == seq![s],
{
    let one = seq![s];
    assert(one[0] == s);
    lemma_join_split(one, separator);
}

/// A separator with a label behind it, and then a value, start new pieces.
pub proof fn lemma_split_label<A>(
    whole: Seq<A>,
    gap: Seq<A>,
    label: Seq<A>,
    value: Seq<A>,
    separator: A,
)
    requires
        gap == seq![separator] + label,
    ensures
        split(whole + gap + value, separator) == split(whole, separator) + split(
            label + value,
            separator,
        ),
{
    lemma_split_apart(whole, label + value, separator);
    assert(whole + gap + value =~= whole.push(separator) + (label + value));
}

/// Whether a text stands somewhere in a line.
pub open spec fn says(line: Seq<char>, what: Seq<char>) -> bool {
    exists|from: int| 0 <= from <= line.len() - what.len() && #[trigger] line.subrange(
        from,
        from + what.len(),
    ) == what
}

/// A text stands in a line that was made of it.
pub proof fn lemma_says(before: Seq<char>, what: Seq<char>, behind: Seq<char>)
    ensures
        says(before + what + behind, what),
        says(before + what, what),
        says(what + behind, what),
{
    let from: int = before.len() as int;
    let start: int = 0;
    assert((before + what + behind).subrange(from, from + what.len()) =~= what);
    assert((before + what).subrange(from, from + what.len()) =~= what);
    assert((what + behind).subrange(start, start + what.len()) =~= what);
}

/// Two texts stand in a line that was made of both.
pub proof fn lemma_says_both(
    before: Seq<char>,
    one: Seq<char>,
    between: Seq<char>,
    other: Seq<char>,
)
    ensures
        says(before + one + between + other, one),
        says(before + one + between + other, other),
{
    lemma_says(before, one, between + other);
    lemma_says(before + one + between, other, Seq::empty());
    assert(before + one + (between + other) =~= before + one + between + other);
}

/// White space, by the numbers of its characters.
pub proof fn lemma_white_space(c: char)
    ensures
        is_white_space(c) <==> {
            let code = c as u32;
            ||| 0x9 <= code <= 0xd
            ||| code == 0x20
            ||| code == 0x85
            ||| code == 0xa0
            ||| code == 0x1680
            ||| 0x2000 <= code <= 0x200a
            ||| code == 0x2028
            ||| code == 0x2029
            ||| code == 0x202f
            ||| code == 0x205f
            ||| code == 0x3000
        },
{
}

/// What is no number does not become one by more characters, unless nothing but
/// a `+` has been read.
pub proof fn lemma_not_a_number(s: Seq<char>, c: char)
    requires
        number(s) is None,
        s.len() > 0,
        s != seq!['+'],
    ensures
        number(s.push(c)) is None,
{
    let digits = without_plus(s);
    let more = without_plus(s.push(c));
    assert(more =~= digits.push(c));
    if digits.len() == 0 {
        assert(s =~= seq!['+']);
    }
    let k = choose|k: int| 0 <= k < digits.len() && !is_digit(#[trigger] digits[k]);
    assert(more[k] == digits[k]);
}

/// A negative number is written as its opposite with a `-` before it.
pub proof fn lemma_signed_decimal(n: int)
    ensures
        n >= 0 ==> number(decimal_int(n)) == Some(n as nat),
        n < 0 ==> decimal_int(n).len() > 0 && decimal_int(n)[0] == '-' && number(
            decimal_int(n).skip(1),
        ) == Some((-n) as nat),
{
    reveal_strlit("-");
    if n < 0 {
        lemma_decimal_reads_back((-n) as nat);
        assert(decimal_int(n).skip(1) =~= decimal((-n) as nat));
    } else {
        lemma_decimal_reads_back(n as nat);
    }
}

} // verus!
