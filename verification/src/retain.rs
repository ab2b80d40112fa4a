//! Marker files, which pin a dump so that it is never deleted.

use vstd::prelude::*;
use vstd::string::*;
use vstd::utf8::*;

use crate::path::{
    bytes_of, components, dot_dot, file_name, file_name_of, is_component, slash,
};
use crate::text::{
    chars_of, lemma_encode_concat, lemma_split_extend, lemma_split_join, split, string_of, utf8_str,
    utf8_text,
};

verus! {

/// What a marker file adds to the name of the dump that it pins.
pub const RETAIN_SUFFIX: &'static str = ".cdgc-retain";

/// The path of the marker of a dump.
pub open spec fn marker_of(dump_path: Seq<u8>) -> Seq<u8> {
    dump_path + RETAIN_SUFFIX.spec_bytes()
}

/// The text before the marker suffix, for a text that ends in it.
pub open spec fn before_suffix(name: Seq<char>) -> Option<Seq<char>> {
    let n = name.len() - RETAIN_SUFFIX@.len();
    if n >= 0 && name.skip(n) == RETAIN_SUFFIX@ {
        Some(name.take(n))
    } else {
        None
    }
}

/// The name of the dump that a file pins, if that file is a marker.
pub open spec fn pinned_name(marker_name: Seq<u8>) -> Option<Seq<char>> {
    match utf8_text(marker_name) {
        Some(name) => before_suffix(name),
        None => None,
    }
}

/// The path of the marker that pins a dump.
pub fn marker_path(dump_path: &[u8]) -> (path: Vec<u8>)
    ensures
        path@ == marker_of(dump_path@),
{
    let mut path = bytes_of(dump_path, 0, dump_path.len());
    assert(path@ =~= dump_path@);
    let mut suffix = RETAIN_SUFFIX.as_bytes_vec();
    path.append(&mut suffix);
    path
}

/// The name of the dump that a marker file pins; `None` for a file that is no
/// marker.
pub fn dump_name_for_marker(marker_name: &[u8]) -> (name: Option<String>)
    ensures
        match name {
            Some(n) => pinned_name(marker_name@) == Some(n@),
            None => pinned_name(marker_name@) is None,
        },
{
    let text = match utf8_str(marker_name) {
        Some(text) => text,
        None => return None,
    };
    let chars = chars_of(text);
    let suffix = chars_of(RETAIN_SUFFIX);
    if chars.len() < suffix.len() {
        return None;
    }
    let n: usize = chars.len() - suffix.len();
    let mut i: usize = 0;
    while i < suffix.len()
        invariant
            chars@ == text@,
            suffix@ == RETAIN_SUFFIX@,
            n + suffix.len() == chars.len(),
            i <= suffix@.len(),
            utf8_text(marker_name@) == Some(text@),
            forall|j: int| 0 <= j < i ==> chars@[n + j] == suffix@[j],
        decreases suffix@.len() - i,
    {
        if chars[n + i] != suffix[i] {
            assert(text@.skip(n as int)[i as int] != RETAIN_SUFFIX@[i as int]);
            return None;
        }
        i = i + 1;
    }
    assert(text@.skip(n as int) =~= RETAIN_SUFFIX@);
    let name = string_of(&chars, 0, n);
    assert(name@ =~= text@.take(n as int));
    Some(name)
}

/// The name of the dump that the file at a path pins, if that file is a marker.
pub open spec fn pinned_by(path: Seq<u8>) -> Option<Seq<char>> {
    match file_name_of(path) {
        Some(name) => pinned_name(name),
        None => None,
    }
}

/// Whether a path is that of a marker whose name is that of a dump, with the
/// marker suffix behind it.
pub open spec fn is_marker_for(marker_path: Seq<u8>, dump_path: Seq<u8>) -> bool {
    file_name_of(dump_path) matches Some(name) && file_name_of(marker_path) == Some(
        name + RETAIN_SUFFIX.spec_bytes(),
    )
}

/// The name of the dump that the file at a path pins; `None` for a file that is
/// no marker.
pub fn dump_name_pinned_by(path: &[u8]) -> (name: Option<String>)
    ensures
        match name {
            Some(n) => pinned_by(path@) == Some(n@),
            None => pinned_by(path@) is None,
        },
{
    match file_name(path) {
        Some(name) => dump_name_for_marker(name.as_slice()),
        None => None,
    }
}

/// A name with the marker suffix behind it pins that name.
pub proof fn lemma_suffixed_name_pins(name: Seq<u8>)
    requires
        valid_utf8(name),
    ensures
        pinned_name(name + RETAIN_SUFFIX.spec_bytes()) == utf8_text(name),
{
    broadcast use {encode_utf8_decode_utf8, encode_utf8_valid_utf8, decode_utf8_encode_utf8};

    let suffix = RETAIN_SUFFIX.spec_bytes();
    let text = decode_utf8(name);
    lemma_encode_concat(text, RETAIN_SUFFIX@);
    let whole = text + RETAIN_SUFFIX@;
    assert(utf8_text(name + suffix) == Some(whole));
    assert(whole.skip(text.len() as int) =~= RETAIN_SUFFIX@);
    assert(whole.take(text.len() as int) =~= text);
}

/// A marker pins the dump beside which it stands: for a path whose last piece
/// is the file name, the marker's own file name leads back to that name.
pub proof fn lemma_marker_pins_its_dump(dump_path: Seq<u8>)
    requires
        file_name_of(dump_path) is Some,
        split(dump_path, slash()).last() == file_name_of(dump_path)->0,
        valid_utf8(file_name_of(dump_path)->0),
    ensures
        is_marker_for(marker_of(dump_path), dump_path),
        pinned_by(marker_of(dump_path)) == utf8_text(file_name_of(dump_path)->0),
{
    let suffix = RETAIN_SUFFIX.spec_bytes();
    let name = file_name_of(dump_path)->0;
    let keep = |piece: Seq<u8>| is_component(piece);
    lemma_suffix_bytes();
    lemma_split_join(dump_path, slash());
    lemma_split_extend(dump_path, suffix, slash());
    let pieces = split(marker_of(dump_path), slash());
    assert(pieces.last() == name + suffix);
    assert(keep(pieces.last()));
    reveal(Seq::filter);
    assert(components(marker_of(dump_path)).last() == name + suffix);
    assert((name + suffix).len() != dot_dot().len());
    lemma_suffixed_name_pins(name);
}

proof fn lemma_suffix_bytes()
    ensures
        RETAIN_SUFFIX.spec_bytes().len() == 12,
        !RETAIN_SUFFIX.spec_bytes().contains(slash()),
{
    reveal_strlit(".cdgc-retain");
    let text = ".cdgc-retain"@;
    assert(is_ascii_chars(text));
    is_ascii_chars_encode_utf8(text);
    assert forall|i: int| 0 <= i < RETAIN_SUFFIX.spec_bytes().len() implies
        RETAIN_SUFFIX.spec_bytes()[i] != slash() by {
        assert(text[i] as u8 != slash());
    }
}

/// A marker's name is the name that it pins with the suffix behind it, and
/// every such name is that of a marker.
pub proof fn lemma_marker_names(marker_name: Seq<u8>, name: Seq<char>)
    ensures
        pinned_name(marker_name) == Some(name) <==> marker_name == encode_utf8(
            name + ".cdgc-retain"@,
        ),
{
    broadcast use {encode_utf8_decode_utf8, encode_utf8_valid_utf8, decode_utf8_encode_utf8};

    let whole = name + RETAIN_SUFFIX@;
    assert(whole.skip(name.len() as int) =~= RETAIN_SUFFIX@);
    assert(whole.take(name.len() as int) =~= name);
    if pinned_name(marker_name) == Some(name) {
        let text = decode_utf8(marker_name);
        assert(text =~= whole);
        assert(marker_name == encode_utf8(text));
    }
    if marker_name == encode_utf8(whole) {
        assert(utf8_text(marker_name) == Some(whole));
    }
}

} // verus!
