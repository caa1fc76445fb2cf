//! Where objects are: paths of segments, as the `object_store` crate spells
//! them.

use object_store::path::{Path, PathPart};
use vstd::prelude::*;
use vstd::utf8::encode_utf8;

use crate::text::{joined, lemma_joined_push, lemma_segments_push, segments, split_undoes_join};

verus! {

#[verifier::external_type_specification]
#[verifier::external_body]
pub struct ExPath(object_store::path::Path);

#[verifier::external_type_specification]
#[verifier::external_body]
pub struct ExPathPart<'a>(object_store::path::PathPart<'a>);

/// Backend-agnostic url the object store is mounted under, so paths are
/// identical whether they resolve to memory or a bucket. Stores are registered
/// by scheme and host, so both must appear here.
pub const OBJECT_STORE_URL: &'static str = "prism://store";

/// How a path reads.
pub uninterp spec fn path_text(path: Path) -> Seq<char>;

/// How a segment of a path reads.
pub uninterp spec fn part_text(part: PathPart) -> Seq<char>;

/// Whether a byte cannot stand in a path as it is: a control, one beyond
/// ASCII, or one some store gives a meaning of its own.
pub open spec fn reserved(byte: u8) -> bool {
    ||| byte < 0x20
    ||| byte >= 0x7f
    ||| "/\\{^}%`]\">[~<#|*?"@.contains(byte as char)
}

/// A hexadecimal digit, in upper case.
pub open spec fn upper_hex_digit(d: int) -> char {
    if d < 10 {
        (48 + d) as char
    } else {
        (55 + d) as char
    }
}

/// A byte as it stands in a path: itself, or a percent sign and two digits.
pub open spec fn encoded_byte(byte: u8) -> Seq<char> {
    if reserved(byte) {
        seq!['%', upper_hex_digit(byte as int / 16), upper_hex_digit(byte as int % 16)]
    } else {
        seq![byte as char]
    }
}

pub open spec fn encoded_bytes(bytes: Seq<u8>) -> Seq<char>
    decreases bytes.len(),
{
    if bytes.len() == 0 {
        Seq::empty()
    } else {
        encoded_bytes(bytes.drop_last()) + encoded_byte(bytes.last())
    }
}

/// A segment as it stands in a path. One that would name a directory relative
/// to others is spelled out.
pub open spec fn encoded(segment: Seq<char>) -> Seq<char> {
    if segment == "."@ {
        "%2E"@
    } else if segment == ".."@ {
        "%2E%2E"@
    } else {
        encoded_bytes(encode_utf8(segment))
    }
}

pub open spec fn present_parts(parts: Seq<Seq<char>>) -> Seq<Seq<char>>
    decreases parts.len(),
{
    if parts.len() == 0 {
        Seq::empty()
    } else if parts.last().len() == 0 {
        present_parts(parts.drop_last())
    } else {
        present_parts(parts.drop_last()).push(parts.last())
    }
}

/// Segments as one path, the empty ones left out.
pub open spec fn path_of_parts(parts: Seq<Seq<char>>) -> Seq<char> {
    joined(present_parts(parts), seq!['/'])
}

/// How the path some text names reads.
pub open spec fn path_named(text: Seq<char>) -> Seq<char> {
    path_of_parts(segments(text, '/').map_values(|segment: Seq<char>| encoded(segment)))
}

/// The segments of a path. A slash at its end begins no further one.
pub open spec fn parts_of(path: Seq<char>) -> Seq<Seq<char>> {
    let parts = segments(path, '/');
    if parts.last().len() == 0 {
        parts.drop_last()
    } else {
        parts
    }
}

/// The last segment of a path. The root has none.
pub open spec fn filename_of(path: Seq<char>) -> Option<Seq<char>> {
    if path.len() == 0 {
        None
    } else {
        Some(segments(path, '/').last())
    }
}

/// How a path reads with one segment more.
pub open spec fn path_with(path: Seq<char>, segment: Seq<char>) -> Seq<char> {
    if path.len() == 0 {
        encoded(segment)
    } else {
        path + seq!['/'] + encoded(segment)
    }
}

/// `Path::from`, of a text: its segments, each encoded, the empty ones left
/// out.
#[verifier::external_body]
pub(crate) fn named_path(text: String) -> (path: Path)
    ensures
        path_text(path) == path_named(text@),
{
    Path::from(text)
}

/// `<Path as AsRef<str>>::as_ref`: how the path reads.
#[verifier::external_body]
pub(crate) fn path_str(path: &Path) -> (text: &str)
    ensures
        text@ == path_text(*path),
{
    path.as_ref()
}

/// `<Path as Clone>::clone`: a path that reads the same.
#[verifier::external_body]
pub(crate) fn clone_path(path: &Path) -> (copy: Path)
    ensures
        path_text(copy) == path_text(*path),
{
    path.clone()
}

/// `Path::filename`: the last segment, of any path but the root.
#[verifier::external_body]
pub(crate) fn filename(path: &Path) -> (name: Option<&str>)
    ensures
        crate::text::str_view(name) == filename_of(path_text(*path)),
{
    path.filename()
}

/// `Path::join`: the path with one segment more, encoded.
#[verifier::external_body]
pub(crate) fn join_path(path: Path, segment: String) -> (joined: Path)
    ensures
        path_text(joined) == path_with(path_text(path), segment@),
{
    path.join(segment)
}

pub open spec fn part_texts(parts: Seq<PathPart>) -> Seq<Seq<char>> {
    parts.map_values(|part: PathPart| part_text(part))
}

/// `Path::parts`: the path's segments, in order.
#[verifier::external_body]
fn parts(path: &Path) -> (parts: Vec<PathPart<'_>>)
    ensures
        parts@.len() == parts_of(path_text(*path)).len(),
        forall|i: int|
            0 <= i < parts@.len() ==> part_text(#[trigger] parts@[i]) == parts_of(
                path_text(*path),
            )[i],
{
    path.parts().collect()
}

/// `Path::from_iter`, of segments already encoded: the path they make, the
/// empty ones left out.
#[verifier::external_body]
fn path_from_parts(parts: Vec<PathPart<'_>>) -> (path: Path)
    ensures
        path_text(path) == path_of_parts(part_texts(parts@)),
{
    Path::from_iter(parts)
}

/// How the directory of a path reads: the path less its last segment.
pub open spec fn directory_text_of(path: Seq<char>) -> Seq<char> {
    let parts = parts_of(path);
    path_of_parts(
        if parts.len() == 0 {
            parts
        } else {
            parts.drop_last()
        },
    )
}

/// The partition a file sits in.
pub fn directory_of(path: &Path) -> (directory: Path)
    ensures
        path_text(directory) == directory_text_of(path_text(*path)),
{
    let mut all = parts(path);
    let ghost before = part_texts(all@);
    assert(before =~= parts_of(path_text(*path)));
    let _ = all.pop();
    assert(part_texts(all@) =~= if before.len() == 0 {
        before
    } else {
        before.drop_last()
    });
    path_from_parts(all)
}

/// Whether two paths read the same.
pub fn same_path(a: &Path, b: &Path) -> (same: bool)
    ensures
        same == (path_text(*a) == path_text(*b)),
{
    crate::text::same_text(path_str(a), path_str(b))
}

/// Whether a character stands in a path as it is.
pub open spec fn plain_char(c: char) -> bool {
    ' ' <= c <= '~' && !"/\\{^}%`]\">[~<#|*?"@.contains(c)
}

/// Whether a text stands in a path as it is.
pub open spec fn plain(text: Seq<char>) -> bool {
    &&& text != "."@
    &&& text != ".."@
    &&& forall|i: int| 0 <= i < text.len() ==> plain_char(#[trigger] text[i])
}

proof fn lemma_encoded_bytes(bytes: Seq<u8>)
    ensures
        !encoded_bytes(bytes).contains('/'),
        encoded_bytes(bytes).len() >= bytes.len(),
    decreases bytes.len(),
{
    if bytes.len() > 0 {
        lemma_encoded_bytes(bytes.drop_last());
        let front = encoded_bytes(bytes.drop_last());
        let byte = bytes.last();
        assert(!encoded_byte(byte).contains('/')) by {
            reveal_strlit("/\\{^}%`]\">[~<#|*?");
            let meaningful = "/\\{^}%`]\">[~<#|*?"@;
            assert(meaningful[0] == '/');
            if byte as char == '/' {
                assert(meaningful.contains(byte as char));
            }
        }
        assert forall|i: int| 0 <= i < encoded_bytes(bytes).len() implies #[trigger] encoded_bytes(
            bytes,
        )[i] != '/' by {
            if i < front.len() {
                assert(encoded_bytes(bytes)[i] == front[i]);
            } else {
                assert(encoded_bytes(bytes)[i] == encoded_byte(byte)[i - front.len()]);
            }
        }
    }
}

proof fn lemma_encoded(segment: Seq<char>)
    ensures
        !encoded(segment).contains('/'),
        segment.len() > 0 ==> encoded(segment).len() > 0,
{
    reveal_strlit("%2E");
    reveal_strlit("%2E%2E");
    lemma_encoded_bytes(encode_utf8(segment));
    if segment.len() > 0 {
        vstd::utf8::encode_utf8_first_scalar(segment);
    }
}

/// A plain text is its own encoding.
pub proof fn plain_text_stands_as_it_is(text: Seq<char>)
    requires
        plain(text),
    ensures
        encoded(text) == text,
{
    assert(vstd::utf8::is_ascii_chars(text));
    vstd::utf8::is_ascii_chars_encode_utf8(text);
    let bytes = encode_utf8(text);
    lemma_plain_bytes(bytes, text);
}

proof fn lemma_plain_bytes(bytes: Seq<u8>, text: Seq<char>)
    requires
        bytes.len() == text.len(),
        forall|i: int|
            0 <= i < text.len() ==> plain_char(#[trigger] text[i]) && text[i] as u8 == bytes[i],
    ensures
        encoded_bytes(bytes) == text,
    decreases bytes.len(),
{
    if bytes.len() > 0 {
        assert forall|i: int| 0 <= i < text.drop_last().len() implies plain_char(
            #[trigger] text.drop_last()[i],
        ) && text.drop_last()[i] as u8 == bytes.drop_last()[i] by {
            assert(text.drop_last()[i] == text[i]);
        }
        lemma_plain_bytes(bytes.drop_last(), text.drop_last());
        let c = text[text.len() - 1];
        assert(plain_char(c) && c as u8 == bytes.last());
        assert(bytes.last() as char == c);
        assert(encoded_byte(bytes.last()) =~= seq![text.last()]);
        assert(encoded_bytes(bytes) =~= text);
    } else {
        assert(encoded_bytes(bytes) =~= text);
    }
}

proof fn lemma_present_parts(parts: Seq<Seq<char>>)
    requires
        forall|i: int| 0 <= i < parts.len() ==> !(#[trigger] parts[i]).contains('/'),
    ensures
        forall|i: int|
            0 <= i < present_parts(parts).len() ==> {
                &&& !(#[trigger] present_parts(parts)[i]).contains('/')
                &&& present_parts(parts)[i].len() > 0
            },
    decreases parts.len(),
{
    if parts.len() > 0 {
        assert forall|i: int| 0 <= i < parts.drop_last().len() implies !(
        #[trigger] parts.drop_last()[i]).contains('/') by {
            assert(parts.drop_last()[i] == parts[i]);
        }
        lemma_present_parts(parts.drop_last());
        let front = present_parts(parts.drop_last());
        assert(parts.last() == parts[parts.len() - 1]);
        assert forall|i: int| 0 <= i < present_parts(parts).len() implies !(
        #[trigger] present_parts(parts)[i]).contains('/') && present_parts(parts)[i].len() > 0 by {
            if i < front.len() {
                assert(present_parts(parts)[i] == front[i]);
            }
        }
    }
}

proof fn lemma_all_present(parts: Seq<Seq<char>>)
    requires
        forall|i: int| 0 <= i < parts.len() ==> (#[trigger] parts[i]).len() > 0,
    ensures
        present_parts(parts) == parts,
    decreases parts.len(),
{
    if parts.len() > 0 {
        lemma_all_present(parts.drop_last());
        assert(parts =~= parts.drop_last().push(parts.last()));
    }
}

/// A file named in a directory is at the directory's path and the file's name,
/// and both can be read back from where it is.
pub proof fn a_file_is_under_its_directory(directory: Seq<char>, name: Seq<char>)
    requires
        name.len() > 0,
        !name.contains('/'),
        path_named(directory).len() > 0,
    ensures
        path_named(directory + seq!['/'] + name) == path_with(path_named(directory), name),
        filename_of(path_named(directory + seq!['/'] + name)) == Some(encoded(name)),
        directory_text_of(path_named(directory + seq!['/'] + name)) == path_named(directory),
{
    let spelled = |segment: Seq<char>| encoded(segment);
    let outer = segments(directory, '/').map_values(spelled);
    let inner = segments(directory + seq!['/'] + name, '/').map_values(spelled);
    lemma_segments_push(directory, name, '/');
    assert(inner =~= outer.push(encoded(name)));
    lemma_encoded(name);
    assert(inner.drop_last() =~= outer);
    let kept = present_parts(outer);
    assert(present_parts(inner) == kept.push(encoded(name)));
    assert(kept.len() > 0);
    lemma_joined_push(kept, encoded(name), seq!['/']);
    assert forall|i: int| 0 <= i < outer.len() implies !(#[trigger] outer[i]).contains('/') by {
        lemma_encoded(segments(directory, '/')[i]);
    }
    lemma_present_parts(outer);
    let all = kept.push(encoded(name));
    assert forall|i: int| 0 <= i < all.len() implies !(#[trigger] all[i]).contains('/')
        && all[i].len() > 0 by {
        if i < kept.len() {
            assert(all[i] == kept[i]);
        }
    }
    split_undoes_join(all, '/');
    assert(parts_of(path_named(directory + seq!['/'] + name)) == all);
    assert(all.drop_last() =~= kept);
    lemma_all_present(kept);
}

} // verus!
