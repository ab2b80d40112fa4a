//! Unix paths as the bytes they are made of.

use vstd::prelude::*;

use crate::text::{
    lemma_split_apart, lemma_split_extend, lemma_split_join, lemma_split_one, split,
};

verus! {

pub open spec fn slash() -> u8 {
    0x2f
}

/// The path piece `.`.
pub open spec fn dot() -> Seq<u8> {
    seq![0x2eu8]
}

/// The path piece `..`.
pub open spec fn dot_dot() -> Seq<u8> {
    seq![0x2eu8, 0x2eu8]
}

/// Whether a piece between two slashes names something: empty pieces and `.`
/// do not.
pub open spec fn is_component(piece: Seq<u8>) -> bool {
    piece.len() > 0 && piece != dot()
}

/// The pieces of a path that name something, in order.
pub open spec fn components(path: Seq<u8>) -> Seq<Seq<u8>> {
    split(path, slash()).filter(|piece: Seq<u8>| is_component(piece))
}

/// The last component of a path, unless that is `..`.
pub open spec fn file_name_of(path: Seq<u8>) -> Option<Seq<u8>> {
    let parts = components(path);
    if parts.len() == 0 || parts.last() == dot_dot() {
        None
    } else {
        Some(parts.last())
    }
}

/// Whether a path starts at the root.
pub open spec fn is_absolute_path(path: Seq<u8>) -> bool {
    path.len() > 0 && path[0] == slash()
}

/// Whether a path starts with the piece `.`.
pub open spec fn starts_at_dot(path: Seq<u8>) -> bool {
    split(path, slash())[0] == dot()
}

/// Whether two paths are the same: both or neither are absolute, both or
/// neither start with `.`, and they have the same components.
pub open spec fn same_path(a: Seq<u8>, b: Seq<u8>) -> bool {
    &&& is_absolute_path(a) == is_absolute_path(b)
    &&& starts_at_dot(a) == starts_at_dot(b)
    &&& components(a) == components(b)
}

/// Whether a relative path names the directory that its last component is in:
/// `a/b` and `./b` do, `b` does not. A leading `.` counts as a directory.
pub open spec fn names_directory(path: Seq<u8>) -> bool {
    components(path).len() + (if starts_at_dot(path) {
        1int
    } else {
        0int
    }) >= 2
}

/// A path taken relative to a directory. An absolute path stands for itself.
pub open spec fn joined(directory: Seq<u8>, path: Seq<u8>) -> Seq<u8> {
    if is_absolute_path(path) {
        path
    } else if directory.len() == 0 || directory.last() == slash() {
        directory + path
    } else {
        directory.push(slash()) + path
    }
}

pub open spec fn byte_strings(list: Seq<Vec<u8>>) -> Seq<Seq<u8>> {
    list.map_values(|v: Vec<u8>| v@)
}

/// The bytes of `source[from..to]`.
pub fn bytes_of(source: &[u8], from: usize, to: usize) -> (bytes: Vec<u8>)
    requires
        from <= to <= source@.len(),
    ensures
        bytes@ == source@.subrange(from as int, to as int),
{
    let mut bytes: Vec<u8> = Vec::new();
    let mut i: usize = from;
    while i < to
        invariant
            from <= i <= to <= source@.len(),
            bytes@ == source@.subrange(from as int, i as int),
        decreases to - i,
    {
        bytes.push(source[i]);
        i = i + 1;
        assert(source@.subrange(from as int, i as int) =~= source@.subrange(
            from as int,
            i - 1,
        ).push(source@[i - 1]));
    }
    bytes
}

/// Splits a path at every slash.
fn pieces(path: &[u8]) -> (parts: Vec<Vec<u8>>)
    ensures
        byte_strings(parts@) == split(path@, slash()),
{
    let mut parts: Vec<Vec<u8>> = Vec::new();
    let mut start: usize = 0;
    let mut i: usize = 0;
    assert(path@.take(0) =~= Seq::<u8>::empty());
    assert(byte_strings(parts@).push(path@.subrange(0, 0)) =~= split(path@.take(0), slash()));
    while i < path.len()
        invariant
            start <= i <= path@.len(),
            byte_strings(parts@).push(path@.subrange(start as int, i as int)) == split(
                path@.take(i as int),
                slash(),
            ),
        decreases path@.len() - i,
    {
        let ghost before = byte_strings(parts@).push(path@.subrange(start as int, i as int));
        assert(path@.take(i + 1).drop_last() =~= path@.take(i as int));
        if path[i] == 0x2f {
            let part = bytes_of(path, start, i);
            parts.push(part);
            start = i + 1;
            assert(byte_strings(parts@) =~= before);
            assert(path@.subrange(i + 1, i + 1) =~= Seq::<u8>::empty());
        } else {
            assert(before.drop_last() =~= byte_strings(parts@));
            assert(path@.subrange(start as int, i + 1) =~= path@.subrange(
                start as int,
                i as int,
            ).push(path@[i as int]));
        }
        i = i + 1;
    }
    let part = bytes_of(path, start, i);
    let ghost before = byte_strings(parts@).push(part@);
    parts.push(part);
    assert(byte_strings(parts@) =~= before);
    assert(path@.take(path@.len() as int) =~= path@);
    parts
}

/// Whether a piece names something.
fn is_kept(piece: &Vec<u8>) -> (b: bool)
    ensures
        b == is_component(piece@),
{
    let is_dot = piece.len() == 1 && piece[0] == 0x2e;
    assert(is_dot == (piece@ == dot())) by {
        if is_dot {
            assert(piece@ =~= dot());
        }
    }
    piece.len() > 0 && !is_dot
}

/// The components of a path.
fn component_list(path: &[u8]) -> (list: Vec<Vec<u8>>)
    ensures
        byte_strings(list@) == components(path@),
{
    let parts = pieces(path);
    let ghost keep = |piece: Seq<u8>| is_component(piece);
    let ghost all = byte_strings(parts@);
    let ghost taken = parts@;
    let mut list: Vec<Vec<u8>> = Vec::new();
    proof {
        reveal(Seq::filter);
        assert(byte_strings(list@) =~= all.take(0).filter(keep));
    }
    for piece in it: parts
        invariant
            taken == parts@,
            it.seq() == taken,
            all == byte_strings(taken),
            keep == (|piece: Seq<u8>| is_component(piece)),
            byte_strings(list@) == all.take(it.index()).filter(keep),
    {
        let ghost before = list@;
        proof {
            reveal(Seq::filter);
            assert(all.take(it.index() + 1).drop_last() =~= all.take(it.index()));
            assert(all.take(it.index() + 1).last() == piece@);
        }
        if is_kept(&piece) {
            assert(keep(piece@));
            list.push(piece);
            assert(byte_strings(list@) =~= byte_strings(before).push(piece@));
        }
    }
    assert(all.take(all.len() as int) =~= all);
    list
}

/// The final component of a path.
pub fn file_name(path: &[u8]) -> (name: Option<Vec<u8>>)
    ensures
        match name {
            Some(n) => file_name_of(path@) == Some(n@),
            None => file_name_of(path@) is None,
        },
{
    let mut list = component_list(path);
    let ghost parts = list@;
    assert(byte_strings(parts).len() == parts.len());
    let piece = match list.pop() {
        Some(piece) => piece,
        None => return None,
    };
    assert(byte_strings(parts).last() == piece@);
    let is_dot_dot = piece.len() == 2 && piece[0] == 0x2e && piece[1] == 0x2e;
    assert(is_dot_dot == (piece@ == dot_dot())) by {
        if is_dot_dot {
            assert(piece@ =~= dot_dot());
        }
    }
    if is_dot_dot {
        None
    } else {
        Some(piece)
    }
}

/// Whether a path starts at the root.
pub fn is_absolute(path: &[u8]) -> (b: bool)
    ensures
        b == is_absolute_path(path@),
{
    path.len() > 0 && path[0] == 0x2f
}

fn leading_dot(path: &[u8]) -> (b: bool)
    ensures
        b == starts_at_dot(path@),
{
    let parts = pieces(path);
    proof {
        lemma_split_join(path@, slash());
        assert(byte_strings(parts@)[0] == parts@[0]@);
    }
    let b = parts[0].len() == 1 && parts[0][0] == 0x2e;
    assert(b == (parts@[0]@ == dot())) by {
        if b {
            assert(parts@[0]@ =~= dot());
        }
    }
    b
}

/// Whether a relative path names the directory that its last component is in.
pub fn has_directory(path: &[u8]) -> (b: bool)
    ensures
        b == names_directory(path@),
{
    let list = component_list(path);
    assert(byte_strings(list@).len() == list@.len());
    list.len() >= 2 || (list.len() == 1 && leading_dot(path))
}

/// Whether two byte sequences are the same.
fn bytes_eq(a: &Vec<u8>, b: &Vec<u8>) -> (same: bool)
    ensures
        same == (a@ == b@),
{
    if a.len() != b.len() {
        return false;
    }
    let mut i: usize = 0;
    while i < a.len()
        invariant
            a@.len() == b@.len(),
            i <= a@.len(),
            forall|j: int| 0 <= j < i ==> a@[j] == b@[j],
        decreases a@.len() - i,
    {
        if a[i] != b[i] {
            return false;
        }
        i = i + 1;
    }
    assert(a@ =~= b@);
    true
}

/// Whether two paths are the same, component by component.
pub fn paths_eq(a: &[u8], b: &[u8]) -> (same: bool)
    ensures
        same == same_path(a@, b@),
{
    if is_absolute(a) != is_absolute(b) || leading_dot(a) != leading_dot(b) {
        return false;
    }
    let left = component_list(a);
    let right = component_list(b);
    let ghost all_left = byte_strings(left@);
    let ghost all_right = byte_strings(right@);
    if left.len() != right.len() {
        assert(all_left.len() != all_right.len());
        return false;
    }
    let mut i: usize = 0;
    while i < left.len()
        invariant
            all_left == byte_strings(left@),
            all_right == byte_strings(right@),
            all_left == components(a@),
            all_right == components(b@),
            left@.len() == right@.len(),
            i <= left@.len(),
            forall|j: int| 0 <= j < i ==> all_left[j] == all_right[j],
        decreases left@.len() - i,
    {
        assert(all_left[i as int] == left@[i as int]@);
        assert(all_right[i as int] == right@[i as int]@);
        if !bytes_eq(&left[i], &right[i]) {
            return false;
        }
        i = i + 1;
    }
    assert(all_left =~= all_right);
    true
}

/// Takes a path relative to a directory.
pub fn join_path(directory: &[u8], path: &[u8]) -> (whole: Vec<u8>)
    ensures
        whole@ == joined(directory@, path@),
{
    let mut tail = bytes_of(path, 0, path.len());
    assert(tail@ =~= path@);
    if is_absolute(path) {
        return tail;
    }
    let mut whole = bytes_of(directory, 0, directory.len());
    assert(whole@ =~= directory@);
    if directory.len() > 0 && directory[directory.len() - 1] != 0x2f {
        whole.push(0x2f);
    }
    whole.append(&mut tail);
    whole
}

/// A name taken relative to a directory is one component more, the last one.
pub proof fn lemma_joined_name(directory: Seq<u8>, name: Seq<u8>)
    requires
        name.len() > 0,
        !name.contains(slash()),
        name != dot(),
        name != dot_dot(),
    ensures
        components(joined(directory, name)) == components(directory).push(name),
        file_name_of(joined(directory, name)) == Some(name),
        directory.len() > 0 ==> is_absolute_path(joined(directory, name)) == is_absolute_path(
            directory,
        ),
{
    let keep = |piece: Seq<u8>| is_component(piece);
    reveal(Seq::filter);
    assert(name[0] != slash()) by {
        assert(name.contains(name[0]));
    }
    lemma_split_join(directory, slash());
    let pieces = split(directory, slash());
    if directory.len() == 0 {
        assert(directory + name =~= name);
        lemma_split_extend(directory, name, slash());
        assert(split(directory, slash()) =~= seq![Seq::<u8>::empty()]);
        assert(Seq::<u8>::empty() + name =~= name);
        assert(split(name, slash()) =~= seq![name]);
        assert(seq![name].drop_last() =~= Seq::<Seq<u8>>::empty());
        assert(seq![Seq::<u8>::empty()].drop_last() =~= Seq::<Seq<u8>>::empty());
        assert(keep(seq![name].last()));
        assert(!keep(seq![Seq::<u8>::empty()].last()));
        assert(components(name) =~= seq![name]);
    } else {
        let whole = if directory.last() == slash() {
            directory
        } else {
            directory.push(slash())
        };
        let before = if directory.last() == slash() {
            split(directory.drop_last(), slash())
        } else {
            pieces
        };
        assert(directory.push(slash()).drop_last() =~= directory);
        assert(split(whole, slash()) == before.push(Seq::empty()));
        lemma_split_extend(whole, name, slash());
        assert(before.push(Seq::<u8>::empty()).drop_last() =~= before);
        assert(Seq::<u8>::empty() + name =~= name);
        let all = split(joined(directory, name), slash());
        assert(all == before.push(name));
        assert(all.drop_last() =~= before);
        assert(keep(all.last()));
        assert(all.filter(keep) == before.filter(keep).push(name));
        assert(!keep(before.push(Seq::<u8>::empty()).last()));
        assert(components(directory) == before.filter(keep));
    }
}

/// An absolute path is the same wherever it is taken from.
pub proof fn lemma_joined_absolute(directory: Seq<u8>, path: Seq<u8>)
    requires
        path.len() > 0,
        path[0] == 0x2f,
    ensures
        joined(directory, path) == path,
{
}

/// What stands on both sides of a slash has the components of the one and then
/// those of the other; a piece without a slash is one component, unless it is
/// empty or `.`.
pub proof fn lemma_components(first: Seq<u8>, second: Seq<u8>)
    ensures
        components(first.push(0x2f) + second) == components(first) + components(second),
        !first.contains(0x2f) ==> components(first) == if first.len() == 0 || first == seq![
            0x2eu8,
        ] {
            seq![]
        } else {
            seq![first]
        },
{
    let keep = |piece: Seq<u8>| is_component(piece);
    lemma_split_apart(first, second, slash());
    Seq::filter_distributes_over_add(split(first, slash()), split(second, slash()), keep);
    if !first.contains(0x2f) {
        lemma_split_one(first, slash());
        reveal(Seq::filter);
        assert(seq![first].drop_last() =~= seq![]);
        assert(Seq::<Seq<u8>>::empty().filter(keep) =~= Seq::<Seq<u8>>::empty());
        assert(components(first) =~= if first.len() == 0 || first == seq![0x2eu8] {
            seq![]
        } else {
            seq![first]
        });
    }
}

/// The name of the file at a path is what its last component says, unless that
/// is `..`; there is none where there is no component.
pub proof fn lemma_file_name(directory: Seq<u8>, name: Seq<u8>)
    requires
        !name.contains(0x2f),
        name.len() > 0,
        name != seq![0x2eu8],
    ensures
        file_name_of(directory.push(0x2f) + name) == if name == seq![0x2eu8, 0x2eu8] {
            None
        } else {
            Some(name)
        },
        file_name_of((directory.push(0x2f) + name).push(0x2f)) == file_name_of(
            directory.push(0x2f) + name,
        ),
        file_name_of(name) == file_name_of(directory.push(0x2f) + name),
        components(directory).len() == 0 ==> file_name_of(directory) is None,
{
    lemma_components(directory, name);
    lemma_components(name, seq![]);
    let path = directory.push(0x2f) + name;
    lemma_components(path, seq![]);
    lemma_components(Seq::empty(), seq![]);
    assert(path.push(0x2f) + Seq::<u8>::empty() =~= path.push(0x2f));
    assert(components(Seq::empty()) =~= seq![]);
    assert(components(path.push(0x2f)) =~= components(path));
    assert(components(path) =~= components(directory).push(name));
}

/// A path is relative to a directory as if it stood behind it: its components
/// follow those of the directory.
pub proof fn lemma_joined_components(directory: Seq<u8>, path: Seq<u8>)
    requires
        path.len() > 0 ==> path[0] != 0x2f,
    ensures
        components(joined(directory, path)) == components(directory) + components(path),
        directory.len() > 0 ==> is_absolute_path(joined(directory, path)) == is_absolute_path(
            directory,
        ),
{
    if directory.len() == 0 {
        lemma_components(directory, path);
        assert(directory + path =~= path);
        assert(components(directory) + components(path) =~= components(path));
    } else if directory.last() == slash() {
        let before = directory.drop_last();
        lemma_components(before, path);
        lemma_components(before, Seq::empty());
        lemma_components(Seq::empty(), Seq::empty());
        assert(before.push(0x2f) =~= directory);
        assert(before.push(0x2f) + Seq::<u8>::empty() =~= directory);
        assert(components(before) + components(Seq::empty()) =~= components(before));
    } else {
        lemma_components(directory, path);
    }
}

/// Being the same path is an equivalence. A slash at the end, a doubled slash or
/// a `.` between slashes make no difference to a path that does not begin there;
/// other components and another start do.
pub proof fn lemma_same_path(a: Seq<u8>, b: Seq<u8>, c: Seq<u8>)
    ensures
        same_path(a, a),
        same_path(a, b) ==> same_path(b, a),
        same_path(a, b) && same_path(b, c) ==> same_path(a, c),
        same_path(a, b) ==> components(a) == components(b) && is_absolute_path(a)
            == is_absolute_path(b),
        a.len() > 0 ==> same_path(a.push(0x2f), a),
        a.len() > 0 ==> same_path(a.push(0x2f).push(0x2f) + b, a.push(0x2f) + b),
        a.len() > 0 ==> same_path(a + seq![0x2fu8, 0x2eu8, 0x2fu8] + b, a.push(0x2f) + b),
        is_absolute_path(a) <==> a.len() > 0 && a[0] == 0x2f,
{
    if a.len() > 0 {
        let end = Seq::<u8>::empty();
        lemma_start(a, end);
        lemma_start(a, b);
        assert(end.push(0x2f) + b =~= seq![0x2fu8] + b);
        lemma_start(a, end.push(0x2f) + b);
        let dotted = dot().push(0x2f) + b;
        lemma_start(a, dotted);
        lemma_components(a, end);
        lemma_components(a, b);
        lemma_components(end, b);
        lemma_components(end, end);
        lemma_components(a, end.push(0x2f) + b);
        lemma_components(dot(), b);
        lemma_components(a, dotted);
        assert(a.push(0x2f) + end =~= a.push(0x2f));
        assert(components(end) =~= seq![]);
        assert(components(dot()) =~= seq![]);
        assert(components(a) + components(end) =~= components(a));
        assert(components(end) + components(b) =~= components(b));
        assert(components(dot()) + components(b) =~= components(b));
        assert(a.push(0x2f) + (end.push(0x2f) + b) =~= a.push(0x2f).push(0x2f) + b);
        assert(a.push(0x2f) + dotted =~= a + seq![0x2fu8, 0x2eu8, 0x2fu8] + b);
    }
}

proof fn lemma_start(first: Seq<u8>, second: Seq<u8>)
    requires
        first.len() > 0,
    ensures
        starts_at_dot(first.push(0x2f) + second) == starts_at_dot(first),
        is_absolute_path(first.push(0x2f) + second) == is_absolute_path(first),
{
    lemma_split_apart(first, second, slash());
    lemma_split_join(first, slash());
    lemma_split_join(second, slash());
}

/// A bare name names no directory. A path does that has components on both
/// sides of a slash, or that has one behind `./`.
pub proof fn lemma_names_directory(first: Seq<u8>, second: Seq<u8>)
    ensures
        !first.contains(0x2f) ==> !names_directory(first),
        components(first).len() > 0 && components(second).len() > 0 ==> names_directory(
            first.push(0x2f) + second,
        ),
        components(second).len() > 0 ==> names_directory(seq![0x2eu8, 0x2fu8] + second),
{
    lemma_components(first, second);
    if !first.contains(0x2f) {
        lemma_split_one(first, slash());
    }
    lemma_components(dot(), second);
    lemma_start(dot(), second);
    lemma_split_one(dot(), slash());
    assert(dot().push(0x2f) + second =~= seq![0x2eu8, 0x2fu8] + second);
}

proof fn lemma_first_piece(path: Seq<u8>)
    ensures
        split(path, slash()).len() > 0,
        split(path, slash())[0].len() > 0 ==> path.len() > 0 && path[0] == split(
            path,
            slash(),
        )[0][0],
        split(path, slash())[0].len() == 0 ==> path.len() == 0 || path[0] == slash(),
    decreases path.len(),
{
    if path.len() > 0 {
        lemma_first_piece(path.drop_last());
        lemma_split_join(path.drop_last(), slash());
    }
}

/// A path with `./` before it is not the same path.
pub proof fn lemma_leading_dot_differs(path: Seq<u8>)
    requires
        path.len() > 0,
        path[0] != 0x2e,
    ensures
        !same_path(seq![0x2eu8, 0x2fu8] + path, path),
{
    lemma_first_piece(path);
    lemma_start(dot(), path);
    lemma_split_one(dot(), slash());
    assert(dot().push(0x2f) + path =~= seq![0x2eu8, 0x2fu8] + path);
}

} // verus!
