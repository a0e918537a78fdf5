//! File system paths, and which request paths are safe to look up.
//!
//! Contracts speak of a path by its bytes, as on Unix, where `/` separates its components.

use crate::text::{
    first_index, lemma_first_index, lemma_first_index_unique, same_bytes, split, split_bytes,
};
use std::path::PathBuf;
use vstd::prelude::*;
use vstd::slice::slice_subrange;
use vstd::string::StringSliceAdditionalSpecFns;
use vstd::utf8::{
    decode_utf8, encode_utf8, encode_utf8_decode_utf8, encode_utf8_valid_utf8, valid_utf8,
};

verus! {

/// `std::path::PathBuf`, opaque.
#[verifier::external_type_specification]
#[verifier::external_body]
pub struct ExPathBuf(std::path::PathBuf);

/// The bytes that a path holds.
pub uninterp spec fn path_bytes(path: PathBuf) -> Seq<u8>;

/// The path that `PathBuf::set_file_name` makes of a path and a new last component.
pub uninterp spec fn renamed(path: Seq<u8>, name: Seq<u8>) -> Seq<u8>;

/// The text that `Path::display` shows for a path.
pub uninterp spec fn displayed(path: Seq<u8>) -> Seq<char>;

/// The segment `..`.
pub open spec fn is_parent(segment: Seq<u8>) -> bool {
    segment == seq![46u8, 46u8]
}

/// A segment that a path is the same without: nothing, or `.`.
pub open spec fn is_idle(segment: Seq<u8>) -> bool {
    segment.len() == 0 || segment == seq![46u8]
}

/// The last segment that is not idle, unless it is `..`.
pub open spec fn last_named(segments: Seq<Seq<u8>>) -> Option<Seq<u8>>
    decreases segments.len(),
{
    if segments.len() == 0 {
        None
    } else if is_idle(segments.last()) {
        last_named(segments.drop_last())
    } else if is_parent(segments.last()) {
        None
    } else {
        Some(segments.last())
    }
}

/// The segments that are not idle.
pub open spec fn named(segments: Seq<Seq<u8>>) -> Seq<Seq<u8>>
    decreases segments.len(),
{
    if segments.len() == 0 {
        Seq::empty()
    } else if is_idle(segments.last()) {
        named(segments.drop_last())
    } else {
        named(segments.drop_last()).push(segments.last())
    }
}

/// The steps of a path: its segments but for the idle ones. Two paths of the same steps lead to the
/// same place from the same start.
pub open spec fn steps(path: Seq<u8>) -> Seq<Seq<u8>> {
    named(split(path, 47))
}

/// The name of the file or directory that a path leads to.
pub open spec fn final_component(path: Seq<u8>) -> Option<Seq<u8>> {
    last_named(split(path, 47))
}

/// A name that can stand as one component of a path.
pub open spec fn is_component(name: Seq<u8>) -> bool {
    !is_idle(name) && !is_parent(name) && first_index(name, 47) == name.len()
}

/// The position of the last `b` in `s`, or -1 where there is none.
pub open spec fn last_index(s: Seq<u8>, b: u8) -> int
    decreases s.len(),
{
    if s.len() == 0 {
        -1
    } else if s.last() == b {
        s.len() - 1
    } else {
        last_index(s.drop_last(), b)
    }
}

/// What follows the last dot of a file name, unless that dot is in front or missing.
pub open spec fn name_extension(name: Seq<u8>) -> Option<Seq<u8>> {
    let dot = last_index(name, 46);
    if dot <= 0 {
        None
    } else {
        Some(name.skip(dot + 1))
    }
}

/// The extension of the file that a path leads to; empty where it has none, or none that is text.
pub open spec fn extension_of(path: Seq<u8>) -> Seq<char> {
    match final_component(path) {
        Some(name) => match name_extension(name) {
            Some(ext) if valid_utf8(ext) => decode_utf8(ext),
            _ => Seq::empty(),
        },
        None => Seq::empty(),
    }
}

/// `path`, ready to have a component put behind it.
pub open spec fn with_separator(path: Seq<u8>) -> Seq<u8> {
    if path.len() == 0 || path.last() == 47 {
        path
    } else {
        path.push(47u8)
    }
}

/// The text starts at the root of the file system.
pub open spec fn is_absolute(path: Seq<u8>) -> bool {
    path.len() > 0 && path[0] == 47
}

/// `Path::join`: the relative path `rel` behind `dir`; an absolute `rel` replaces `dir`.
#[verifier::external_body]
pub(crate) fn join_path(dir: &PathBuf, rel: &str) -> (r: PathBuf)
    ensures
        path_bytes(r) == (if is_absolute(rel.spec_bytes()) {
            rel.spec_bytes()
        } else {
            with_separator(path_bytes(*dir)) + rel.spec_bytes()
        }),
{
    dir.join(rel)
}

/// `Path::extension`: what follows the last dot of the file name, where that dot does not lead
/// the name. One that is no UTF-8 cannot be handed over as text, and counts as none.
#[verifier::external_body]
pub(crate) fn path_extension(path: &PathBuf) -> (r: Option<String>)
    ensures
        match r {
            Some(ext) => ext@ == extension_of(path_bytes(*path)),
            None => extension_of(path_bytes(*path)).len() == 0,
        },
{
    path.extension().and_then(|ext| ext.to_str()).map(|ext| ext.to_string())
}

/// `Path::file_name`: the last component of the path, unless there is none or it is `..`. The
/// name is handed over as a path of this one component.
#[verifier::external_body]
pub(crate) fn file_name(path: &PathBuf) -> (r: Option<PathBuf>)
    ensures
        match r {
            Some(name) => final_component(path_bytes(*path)) == Some(path_bytes(name)),
            None => final_component(path_bytes(*path)) is None,
        },
{
    path.file_name().map(PathBuf::from)
}

/// `OsString::push`: `name` with `text` behind it.
#[verifier::external_body]
pub(crate) fn push_text(name: PathBuf, text: &str) -> (r: PathBuf)
    ensures
        path_bytes(r) == path_bytes(name) + text.spec_bytes(),
{
    let mut name = name.into_os_string();
    name.push(text);
    PathBuf::from(name)
}

/// `path` is `name` in the directory `parent`, written without anything idle in between.
pub open spec fn lies_in(path: Seq<u8>, parent: Seq<u8>, name: Seq<u8>) -> bool {
    &&& parent.len() > 0
    &&& parent.last() != 47
    &&& parent.last() != 46
    &&& is_component(name)
    &&& path == parent.push(47u8) + name
}

/// `result` is `path` cut down to its parent, where it has a last component, with `name` behind.
pub open spec fn replaces_last(path: Seq<u8>, result: Seq<u8>, name: Seq<u8>) -> bool {
    exists|n: int|
        {
            let parent = #[trigger] path.take(n);
            &&& 0 <= n <= path.len()
            &&& result == with_separator(parent) + name
            &&& is_absolute(parent) == is_absolute(path)
            &&& steps(parent) == if final_component(path) is Some {
                steps(path).drop_last()
            } else {
                steps(path)
            }
        }
}

/// `PathBuf::set_file_name`: puts `name` in place of the last component. What the whole path is
/// then has a name, `renamed`. Where `name` is one component, the path is truncated to its parent
/// (which lacks the last step; how many idle segments go with it is left open) and `name` is put
/// behind, so that it is the last component then; and where the path is written as a directory, one
/// separator and a component, only that component is exchanged.
#[verifier::external_body]
pub(crate) fn set_file_name(path: &mut PathBuf, name: PathBuf)
    ensures
        path_bytes(*final(path)) == renamed(path_bytes(*old(path)), path_bytes(name)),
        is_component(path_bytes(name)) ==> final_component(path_bytes(*final(path))) == Some(
            path_bytes(name),
        ),
        is_component(path_bytes(name)) ==> replaces_last(
            path_bytes(*old(path)),
            path_bytes(*final(path)),
            path_bytes(name),
        ),
        forall|parent: Seq<u8>, last: Seq<u8>|
            is_component(path_bytes(name)) && #[trigger] lies_in(
                path_bytes(*old(path)),
                parent,
                last,
            ) ==> path_bytes(*final(path)) == parent.push(47u8) + path_bytes(name),
{
    path.set_file_name(name);
}

/// `PathBuf::clone`: a path of the same bytes.
#[verifier::external_body]
pub(crate) fn clone_path(path: &PathBuf) -> (r: PathBuf)
    ensures
        path_bytes(r) == path_bytes(*path),
{
    path.clone()
}

/// `Path::display`: the path as text. Bytes that are no UTF-8 are replaced in it, how has a name,
/// `displayed`; a path of UTF-8 shows as it is.
#[verifier::external_body]
pub(crate) fn display_path(path: &PathBuf) -> (r: String)
    ensures
        r@ == displayed(path_bytes(*path)),
        valid_utf8(path_bytes(*path)) ==> r@ == decode_utf8(path_bytes(*path)),
{
    path.display().to_string()
}

/// `memchr::memchr`: the position of the first `needle`, if there is any.
pub assume_specification[ memchr::memchr ](needle: u8, haystack: &[u8]) -> (r: Option<usize>)
    ensures
        match r {
            Some(n) => n < haystack@.len() && n == first_index(haystack@, needle),
            None => first_index(haystack@, needle) == haystack@.len(),
        },
;

/// One of the segments of the path is `..`.
pub open spec fn climbs(path: Seq<u8>) -> bool {
    exists|i: int| 0 <= i < split(path, 47).len() && is_parent(#[trigger] split(path, 47)[i])
}

/// What is wrong with a request path, if anything is.
pub open spec fn path_fault(path: Seq<u8>) -> Option<Seq<char>> {
    if path.contains(0u8) {
        Some("path contains NUL byte"@)
    } else if is_absolute(path) {
        Some("path is absolute"@)
    } else if climbs(path) {
        Some("path contains .. segment"@)
    } else {
        None
    }
}

/// Ensures path is safe: no NUL bytes, not absolute, no `..` segments.
pub fn validate_path(path: &str) -> (r: Result<(), &'static str>)
    ensures
        match r {
            Ok(()) => path_fault(path.spec_bytes()) is None,
            Err(message) => path_fault(path.spec_bytes()) == Some(message@),
        },
{
    let bytes = path.as_bytes();
    proof {
        lemma_first_index(bytes@, 0);
    }
    if memchr::memchr(0, bytes).is_some() {
        assert(bytes@[first_index(bytes@, 0)] == 0);
        return Err("path contains NUL byte");
    }
    if bytes.len() > 0 && bytes[0] == 47 {
        return Err("path is absolute");
    }
    let dots: [u8; 2] = [46, 46];
    assert(dots@ =~= seq![46u8, 46u8]);
    let mut left: &[u8] = bytes;
    loop
        invariant
            bytes@ == path.spec_bytes(),
            !bytes@.contains(0u8),
            !is_absolute(bytes@),
            dots@ == seq![46u8, 46u8],
            climbs(bytes@) == climbs(left@),
        decreases left@.len(),
    {
        let len = left.len();
        let next = memchr::memchr(47, left);
        let seg = match next {
            Some(n) => slice_subrange(left, 0, n),
            None => left,
        };
        let ghost segments = split(left@, 47);
        assert(seg@ =~= segments[0]) by {
            lemma_first_index(left@, 47);
        }
        if same_bytes(seg, &dots) {
            assert(is_parent(split(left@, 47)[0]));
            return Err("path contains .. segment");
        }
        match next {
            None => {
                assert(!climbs(left@));
                return Ok(());
            },
            Some(n) => {
                let tail = slice_subrange(left, n + 1, len);
                proof {
                    assert(tail@ =~= left@.skip(n + 1));
                    lemma_climbs_tail(left@);
                }
                left = tail;
            },
        }
    }
}

/// A path whose first segment is not `..` climbs exactly where the rest does.
proof fn lemma_climbs_tail(path: Seq<u8>)
    requires
        first_index(path, 47) < path.len(),
        !is_parent(split(path, 47)[0]),
    ensures
        climbs(path) == climbs(path.skip(first_index(path, 47) + 1)),
{
    let rest = path.skip(first_index(path, 47) + 1);
    let segments = split(path, 47);
    let tail = split(rest, 47);
    assert(segments == seq![path.take(first_index(path, 47))] + tail);
    if climbs(rest) {
        let i = choose|i: int|
            0 <= i < split(rest, 47).len() && is_parent(#[trigger] split(rest, 47)[i]);
        assert(segments[i + 1] == tail[i]);
        assert(is_parent(split(path, 47)[i + 1]));
    }
    if climbs(path) {
        let i = choose|i: int|
            0 <= i < split(path, 47).len() && is_parent(#[trigger] split(path, 47)[i]);
        assert(i > 0);
        assert(segments[i] == tail[i - 1]);
        assert(is_parent(split(rest, 47)[i - 1]));
    }
}

/// No piece of a split text holds the separator.
proof fn lemma_piece_is_whole(s: Seq<u8>, sep: u8, i: int)
    requires
        0 <= i < split(s, sep).len(),
    ensures
        first_index(split(s, sep)[i], sep) == split(s, sep)[i].len(),
    decreases s.len(),
{
    let n = first_index(s, sep);
    lemma_first_index(s, sep);
    if n < s.len() {
        let head = s.take(n);
        lemma_first_index_unique(head, sep, n);
        let tail = split(s.skip(n + 1), sep);
        if i > 0 {
            lemma_piece_is_whole(s.skip(n + 1), sep, i - 1);
            assert(split(s, sep)[i] == tail[i - 1]);
        }
    }
}

/// The last named segment is one of the segments.
proof fn lemma_last_named(segments: Seq<Seq<u8>>)
    ensures
        last_named(segments) matches Some(name) ==> !is_idle(name) && !is_parent(name)
            && segments.contains(name),
    decreases segments.len(),
{
    if segments.len() > 0 {
        if is_idle(segments.last()) {
            lemma_last_named(segments.drop_last());
            if let Some(name) = last_named(segments) {
                let i = choose|i: int|
                    0 <= i < segments.drop_last().len() && segments.drop_last()[i] == name;
                assert(segments[i] == name);
            }
        } else {
            assert(segments[segments.len() - 1] == segments.last());
        }
    }
}

/// The name of what a path leads to is one component.
pub proof fn lemma_final_component(path: Seq<u8>)
    ensures
        final_component(path) matches Some(name) ==> is_component(name),
{
    lemma_last_named(split(path, 47));
    if let Some(name) = final_component(path) {
        let i = choose|i: int| 0 <= i < split(path, 47).len() && split(path, 47)[i] == name;
        lemma_piece_is_whole(path, 47, i);
    }
}

/// A component stays one with more behind it, unless that holds a separator.
pub proof fn lemma_longer_component(name: Seq<u8>, suffix: Seq<u8>)
    requires
        is_component(name),
        suffix.len() > 1,
        !suffix.contains(47u8),
    ensures
        is_component(name + suffix),
{
    let longer = name + suffix;
    lemma_first_index(name, 47);
    assert forall|i: int| 0 <= i < longer.len() implies longer[i] != 47 by {
        if i >= name.len() {
            assert(longer[i] == suffix[i - name.len()]);
        }
    }
    lemma_first_index_unique(longer, 47, longer.len() as int);
}

/// Two texts with the separator between them split into the pieces of both.
pub proof fn lemma_split_join(a: Seq<u8>, b: Seq<u8>, sep: u8)
    ensures
        split(a.push(sep) + b, sep) == split(a, sep) + split(b, sep),
    decreases a.len(),
{
    let whole = a.push(sep) + b;
    let n = first_index(a, sep);
    lemma_first_index(a, sep);
    assert(whole[a.len() as int] == sep);
    assert forall|i: int| 0 <= i < n implies whole[i] != sep by {
        assert(whole[i] == a[i]);
    }
    if n < a.len() {
        assert(whole[n] == a[n]);
    }
    lemma_first_index_unique(whole, sep, n);
    assert(whole.take(n) =~= a.take(n));
    if n < a.len() {
        let rest = a.skip(n + 1);
        lemma_split_join(rest, b, sep);
        assert(whole.skip(n + 1) =~= rest.push(sep) + b);
        assert(split(whole, sep) =~= split(a, sep) + split(b, sep));
    } else {
        assert(a.take(n) =~= a);
        assert(whole.skip(n + 1) =~= b);
    }
}

/// The segments of two lists that are not idle.
proof fn lemma_named_join(a: Seq<Seq<u8>>, b: Seq<Seq<u8>>)
    ensures
        named(a + b) == named(a) + named(b),
    decreases b.len(),
{
    if b.len() == 0 {
        assert(a + b =~= a);
        assert(named(a) + named(b) =~= named(a));
    } else {
        assert((a + b).drop_last() =~= a + b.drop_last());
        lemma_named_join(a, b.drop_last());
        assert(named(a + b) =~= named(a) + named(b));
    }
}

/// The empty path takes no step.
proof fn lemma_no_steps()
    ensures
        steps(Seq::<u8>::empty()) == Seq::<Seq<u8>>::empty(),
{
    let e = Seq::<u8>::empty();
    assert(split(e, 47) =~= seq![e]);
    assert(seq![e].drop_last() =~= Seq::<Seq<u8>>::empty());
    reveal_with_fuel(named, 2);
}

/// The steps of a path behind a directory are those of the directory and then those of the path.
pub proof fn lemma_steps_join(dir: Seq<u8>, rel: Seq<u8>)
    ensures
        steps(with_separator(dir) + rel) == steps(dir) + steps(rel),
{
    lemma_no_steps();
    if dir.len() == 0 {
        assert(with_separator(dir) + rel =~= rel);
        assert(dir =~= Seq::<u8>::empty());
        assert(steps(dir) + steps(rel) =~= steps(rel));
    } else if dir.last() == 47 {
        let start = dir.drop_last();
        assert(dir =~= start.push(47u8));
        assert(dir =~= start.push(47u8) + Seq::<u8>::empty());
        lemma_split_join(start, rel, 47);
        lemma_split_join(start, Seq::empty(), 47);
        lemma_named_join(split(start, 47), split(rel, 47));
        lemma_named_join(split(start, 47), split(Seq::empty(), 47));
        assert(steps(dir) =~= steps(start));
    } else {
        lemma_split_join(dir, rel, 47);
        lemma_named_join(split(dir, 47), split(rel, 47));
    }
}

/// The steps are segments.
proof fn lemma_named_are_segments(segments: Seq<Seq<u8>>, i: int)
    requires
        0 <= i < named(segments).len(),
    ensures
        segments.contains(named(segments)[i]),
    decreases segments.len(),
{
    if segments.len() > 0 {
        let shorter = segments.drop_last();
        if i < named(shorter).len() {
            lemma_named_are_segments(shorter, i);
            let j = choose|j: int| 0 <= j < shorter.len() && shorter[j] == named(shorter)[i];
            assert(segments[j] == named(segments)[i]);
        } else {
            assert(segments[segments.len() - 1] == segments.last());
        }
    }
}

/// A path without a fault takes no step up.
pub proof fn lemma_no_step_up(path: Seq<u8>, i: int)
    requires
        path_fault(path) is None,
        0 <= i < steps(path).len(),
    ensures
        !is_parent(steps(path)[i]),
{
    lemma_named_are_segments(split(path, 47), i);
    let j = choose|j: int| 0 <= j < split(path, 47).len() && split(path, 47)[j] == steps(path)[i];
    assert(!is_parent(split(path, 47)[j]));
}

/// The last component of a path is its last step.
pub proof fn lemma_last_step(path: Seq<u8>)
    ensures
        final_component(path) matches Some(name) ==> steps(path).len() > 0 && steps(path).last()
            == name,
{
    lemma_last_of_named(split(path, 47));
}

proof fn lemma_last_of_named(segments: Seq<Seq<u8>>)
    ensures
        last_named(segments) matches Some(name) ==> named(segments).len() > 0
            && named(segments).last() == name,
    decreases segments.len(),
{
    if segments.len() > 0 && is_idle(segments.last()) {
        lemma_last_of_named(segments.drop_last());
    }
}

/// Where the last segment that is not idle does not go up, it names what the path leads to.
pub proof fn lemma_named_last(segments: Seq<Seq<u8>>)
    ensures
        named(segments).len() > 0 && !is_parent(named(segments).last()) ==> last_named(segments)
            == Some(named(segments).last()),
    decreases segments.len(),
{
    if segments.len() > 0 && is_idle(segments.last()) {
        lemma_named_last(segments.drop_last());
    }
}

/// A component is one step.
pub proof fn lemma_component_step(name: Seq<u8>)
    requires
        is_component(name),
    ensures
        steps(name) == seq![name],
        !is_absolute(name),
{
    assert(split(name, 47) =~= seq![name]);
    assert(seq![name].drop_last() =~= Seq::<Seq<u8>>::empty());
    reveal_with_fuel(named, 2);
    assert(steps(name) =~= seq![name]);
    lemma_first_index(name, 47);
}

/// Where the last component of a path is replaced, so is its last step.
pub proof fn lemma_replaced_steps(path: Seq<u8>, result: Seq<u8>, name: Seq<u8>)
    requires
        final_component(path) is Some,
        is_component(name),
        replaces_last(path, result, name),
    ensures
        steps(result) == steps(path).drop_last().push(name),
        is_absolute(result) == is_absolute(path),
{
    let n = choose|n: int|
        {
            let parent = #[trigger] path.take(n);
            &&& 0 <= n <= path.len()
            &&& result == with_separator(parent) + name
            &&& is_absolute(parent) == is_absolute(path)
            &&& steps(parent) == if final_component(path) is Some {
                steps(path).drop_last()
            } else {
                steps(path)
            }
        };
    let parent = path.take(n);
    lemma_steps_join(parent, name);
    lemma_component_step(name);
    assert(steps(result) =~= steps(path).drop_last().push(name));
}

/// `found` lies below the directory `dir`, at whatever depth: its path takes the steps of the
/// directory's and then at least one more, and none of those goes up.
pub open spec fn lies_below(dir: Seq<u8>, found: Seq<u8>) -> bool {
    let n = steps(dir).len();
    &&& steps(found).len() > n
    &&& steps(found).take(n as int) == steps(dir)
    &&& forall|i: int| n <= i < steps(found).len() ==> !is_parent(#[trigger] steps(found)[i])
    &&& dir.len() > 0 ==> is_absolute(found) == is_absolute(dir)
    &&& dir.len() == 0 ==> !is_absolute(found)
}

/// Whether a path takes any step.
pub fn takes_steps(path: &str) -> (r: bool)
    ensures
        r == (steps(path.spec_bytes()).len() > 0),
{
    let pieces = split_bytes(path.as_bytes(), 47);
    let ghost all = split(path.spec_bytes(), 47);
    let dot: [u8; 1] = [46];
    assert(dot@ =~= seq![46u8]);
    let mut i: usize = 0;
    assert(all.take(0) =~= Seq::<Seq<u8>>::empty());
    while i < pieces.len()
        invariant
            dot@ == seq![46u8],
            all == split(path.spec_bytes(), 47),
            pieces@.map_values(|piece: &[u8]| piece@) == all,
            pieces@.len() == all.len(),
            i <= all.len(),
            named(all.take(i as int)).len() == 0,
        decreases all.len() - i,
    {
        let piece = pieces[i];
        assert(piece@ == all[i as int]);
        assert(all.take(i + 1).drop_last() =~= all.take(i as int));
        if piece.len() > 0 && !same_bytes(piece, &dot) {
            proof {
                lemma_named_join(all.take(i + 1), all.skip(i + 1));
                assert(all.take(i + 1) + all.skip(i + 1) =~= all);
            }
            return true;
        }
        i = i + 1;
    }
    assert(all.take(i as int) =~= all);
    false
}

/// How many directories below its start a walk along these segments ends; negative above it.
pub open spec fn depth(segments: Seq<Seq<u8>>) -> int
    decreases segments.len(),
{
    if segments.len() == 0 {
        0
    } else {
        let before = depth(segments.drop_last());
        if is_idle(segments.last()) {
            before
        } else if is_parent(segments.last()) {
            before - 1
        } else {
            before + 1
        }
    }
}

/// A walk along a valid request path never leaves the directory that it starts in.
pub proof fn lemma_valid_path_stays_below(path: Seq<u8>, n: int)
    requires
        path_fault(path) is None,
        0 <= n <= split(path, 47).len(),
    ensures
        !is_absolute(path),
        depth(split(path, 47).take(n)) >= 0,
    decreases n,
{
    let segments = split(path, 47);
    if n > 0 {
        lemma_valid_path_stays_below(path, n - 1);
        assert(segments.take(n).drop_last() =~= segments.take(n - 1));
        assert(segments.take(n).last() == split(path, 47)[n - 1]);
    }
}

/// Two dots stand here between separators or the ends of the path.
pub open spec fn has_parent_at(path: Seq<u8>, i: int) -> bool {
    &&& 0 <= i < path.len() - 1
    &&& path[i] == 46
    &&& path[i + 1] == 46
    &&& i == 0 || path[i - 1] == 47
    &&& i + 2 == path.len() || path[i + 2] == 47
}

/// A byte of a name stands here: neither a separator, nor a dot alone between separators or the
/// ends of the path.
pub open spec fn has_name_at(path: Seq<u8>, i: int) -> bool {
    &&& 0 <= i < path.len()
    &&& path[i] != 47
    &&& path[i] == 46 ==> !((i == 0 || path[i - 1] == 47) && (i + 1 == path.len() || path[i + 1]
        == 47))
}

/// A path climbs where two dots stand alone between separators.
proof fn lemma_climbs(path: Seq<u8>)
    ensures
        climbs(path) <==> exists|i: int| has_parent_at(path, i),
    decreases path.len(),
{
    let n = first_index(path, 47);
    lemma_first_index(path, 47);
    let head = path.take(n);
    assert(n < path.len() ==> split(path, 47)[0] == head);
    assert(n == path.len() ==> path.take(n) =~= path);
    assert(split(path, 47)[0] == head);
    if is_parent(head) {
        assert(head[0] == 46 && head[1] == 46);
        assert(has_parent_at(path, 0));
        assert(is_parent(split(path, 47)[0]));
    } else {
        let rest = path.skip(n + 1);
        if exists|i: int| has_parent_at(path, i) {
            let i = choose|i: int| has_parent_at(path, i);
            assert(i > n) by {
                if i < n {
                    assert(i == 0);
                    if i + 2 != path.len() {
                        assert(n == i + 2);
                    }
                    assert(head =~= seq![46u8, 46u8]);
                }
            }
            assert(has_parent_at(rest, i - n - 1));
        }
        if n < path.len() {
            lemma_climbs(rest);
            lemma_climbs_tail(path);
            if exists|j: int| has_parent_at(rest, j) {
                let j = choose|j: int| has_parent_at(rest, j);
                assert(has_parent_at(path, j + n + 1));
            }
        } else {
            assert(split(path, 47) =~= seq![path]);
        }
    }
}

/// A path takes a step where it holds a byte of a name.
pub proof fn lemma_has_steps(path: Seq<u8>)
    ensures
        steps(path).len() > 0 <==> exists|i: int| has_name_at(path, i),
    decreases path.len(),
{
    let n = first_index(path, 47);
    lemma_first_index(path, 47);
    let head = path.take(n);
    let rest = path.skip(n + 1);
    assert(seq![head].drop_last() =~= Seq::<Seq<u8>>::empty());
    reveal_with_fuel(named, 2);
    assert(named(seq![head]).len() > 0 <==> !is_idle(head));
    if n < path.len() {
        lemma_named_join(seq![head], split(rest, 47));
        lemma_has_steps(rest);
        if exists|j: int| has_name_at(rest, j) {
            let j = choose|j: int| has_name_at(rest, j);
            assert(has_name_at(path, j + n + 1));
        }
    } else {
        assert(head =~= path);
        assert(split(path, 47) =~= seq![path]);
    }
    if !is_idle(head) {
        if head[0] != 46 {
            assert(has_name_at(path, 0));
        } else {
            if n == 1 {
                assert(head =~= seq![46u8]);
            }
            assert(path[1] == head[1]);
            assert(has_name_at(path, 1));
        }
    }
    if exists|i: int| has_name_at(path, i) {
        let i = choose|i: int| has_name_at(path, i);
        if i < n {
            if is_idle(head) {
                assert(head == seq![46u8]);
                assert(path[i] == head[i]);
            }
        } else {
            assert(has_name_at(rest, i - n - 1));
        }
    }
}

/// A request path is accepted exactly where it holds no NUL byte, does not start with a separator,
/// and has no two dots alone between separators; what is wrong with another is said, in this order.
pub proof fn lemma_accepted_paths(path: &str, r: Result<(), &'static str>)
    requires
        call_ensures(validate_path, (path,), r),
    ensures
        ({
            let b = path.spec_bytes();
            let has_nul = exists|i: int| 0 <= i < b.len() && b[i] == 0;
            let has_root = b.len() > 0 && b[0] == 47;
            let has_parent = exists|i: int| has_parent_at(b, i);
            match r {
                Ok(()) => !has_nul && !has_root && !has_parent,
                Err(m) => if has_nul {
                    m@ == "path contains NUL byte"@
                } else if has_root {
                    m@ == "path is absolute"@
                } else {
                    has_parent && m@ == "path contains .. segment"@
                },
            }
        }),
{
    lemma_faults(path.spec_bytes());
}

/// What is wrong with a path, byte by byte.
pub proof fn lemma_faults(b: Seq<u8>)
    ensures
        ({
            let has_nul = exists|i: int| 0 <= i < b.len() && b[i] == 0;
            let has_root = b.len() > 0 && b[0] == 47;
            let has_parent = exists|i: int| has_parent_at(b, i);
            path_fault(b) == if has_nul {
                Some("path contains NUL byte"@)
            } else if has_root {
                Some("path is absolute"@)
            } else if has_parent {
                Some("path contains .. segment"@)
            } else {
                None
            }
        }),
{
    lemma_climbs(b);
}

/// Whether a path takes any step, byte by byte.
pub proof fn lemma_takes_steps(path: &str, r: bool)
    requires
        call_ensures(takes_steps, (path,), r),
    ensures
        r <==> exists|i: int| has_name_at(path.spec_bytes(), i),
{
    lemma_has_steps(path.spec_bytes());
}

/// The last `b` of a text.
proof fn lemma_last_index(s: Seq<u8>, b: u8, n: int)
    requires
        0 <= n < s.len(),
        s[n] == b,
        forall|i: int| n < i < s.len() ==> s[i] != b,
    ensures
        last_index(s, b) == n,
    decreases s.len(),
{
    if n < s.len() - 1 {
        lemma_last_index(s.drop_last(), b, n);
    }
}

/// A text without any `b`.
proof fn lemma_no_index(s: Seq<u8>, b: u8)
    requires
        forall|i: int| 0 <= i < s.len() ==> s[i] != b,
    ensures
        last_index(s, b) == -1,
    decreases s.len(),
{
    if s.len() > 0 {
        lemma_no_index(s.drop_last(), b);
    }
}

/// What stands behind the last separator of a path names what it leads to, unless it is idle or
/// `..`.
pub proof fn lemma_name_behind(start: Seq<u8>, name: Seq<u8>)
    requires
        start.len() == 0 || start.last() == 47,
        !name.contains(47u8),
        name.len() > 0,
        name != seq![46u8],
        name != seq![46u8, 46u8],
    ensures
        final_component(start + name) == Some(name),
{
    assert forall|i: int| 0 <= i < name.len() implies name[i] != 47 by {
        assert(name.contains(name[i]));
    }
    lemma_first_index_unique(name, 47, name.len() as int);
    assert(split(name, 47) =~= seq![name]);
    if start.len() == 0 {
        assert(start + name =~= name);
    } else {
        lemma_split_join(start.drop_last(), name, 47);
        assert(start =~= start.drop_last().push(47u8));
    }
    assert(split(start + name, 47).last() == name);
}

/// The extension of a file is what follows the last dot of its name, where something stands before
/// that dot.
pub proof fn lemma_extension(start: Seq<u8>, stem: Seq<u8>, ext: Seq<char>)
    requires
        start.len() == 0 || start.last() == 47,
        stem.len() > 0,
        !stem.contains(47u8),
        encode_utf8(ext).len() > 0,
        !encode_utf8(ext).contains(46u8),
        !encode_utf8(ext).contains(47u8),
    ensures
        extension_of(start + (stem + seq![46u8] + encode_utf8(ext))) == ext,
{
    let e = encode_utf8(ext);
    let name = stem + seq![46u8] + e;
    assert forall|i: int| 0 <= i < name.len() implies name[i] != 47 by {
        if i < stem.len() {
            assert(stem.contains(name[i]));
        } else if i > stem.len() {
            assert(e.contains(name[i]));
        }
    }
    lemma_name_behind(start, name);
    let n = stem.len() as int;
    assert forall|i: int| n < i < name.len() implies name[i] != 46 by {
        assert(e.contains(name[i]));
    }
    lemma_last_index(name, 46, n);
    assert(name.skip(n + 1) =~= e);
    encode_utf8_decode_utf8(ext);
    encode_utf8_valid_utf8(ext);
}

/// A file has no extension where its name holds no dot, or only one in front.
pub proof fn lemma_no_extension(start: Seq<u8>, name: Seq<u8>)
    requires
        start.len() == 0 || start.last() == 47,
        name.len() > 1,
        !name.contains(47u8),
        !name.skip(1).contains(46u8),
    ensures
        extension_of(start + name).len() == 0,
{
    assert(name != seq![46u8, 46u8]) by {
        if name == seq![46u8, 46u8] {
            assert(name.skip(1)[0] == 46);
        }
    }
    lemma_name_behind(start, name);
    assert forall|i: int| 0 < i < name.len() implies name[i] != 46 by {
        assert(name.skip(1)[i - 1] == name[i]);
        assert(name.skip(1).contains(name[i]));
    }
    if name[0] == 46 {
        lemma_last_index(name, 46, 0);
    } else {
        lemma_no_index(name, 46);
    }
}

/// A separator is put behind a directory that has a name and does not end with one.
pub proof fn lemma_separator(dir: Seq<u8>)
    ensures
        dir.len() > 0 && dir[dir.len() - 1] != 47 ==> with_separator(dir) == dir + seq![47u8],
        dir.len() > 0 && dir[dir.len() - 1] == 47 ==> with_separator(dir) == dir,
        dir.len() == 0 ==> with_separator(dir) == dir,
{
    assert(dir.push(47u8) =~= dir + seq![47u8]);
}

} // verus!
