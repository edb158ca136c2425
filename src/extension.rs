use vstd::prelude::*;

verus! {

/// The ASCII lowercase form of a character; other characters are unchanged.
pub open spec fn ascii_lower(c: char) -> char {
    if 'A' <= c && c <= 'Z' {
        ((c as u32) + 32) as char
    } else {
        c
    }
}

/// An extension qualifies when it equals `mp3`, ignoring the case of its letters.
pub open spec fn is_mp3_extension_spec(ext: Seq<char>) -> bool {
    &&& ext.len() == 3
    &&& ascii_lower(ext[0]) == 'm'
    &&& ascii_lower(ext[1]) == 'p'
    &&& ascii_lower(ext[2]) == '3'
}

/// Tests an extension (the text after the final dot of a file name) against `mp3`,
/// ignoring case. Under full Unicode lowercasing only `M` and `P` fold to `m` and
/// `p`, so comparing ASCII letters decides the same.
pub fn is_mp3_extension(ext: &str) -> (r: bool)
    ensures
        r == is_mp3_extension_spec(ext@),
{
    if ext.unicode_len() != 3 {
        return false;
    }
    let a = ext.get_char(0);
    let b = ext.get_char(1);
    let c = ext.get_char(2);
    (a == 'm' || a == 'M') && (b == 'p' || b == 'P') && c == '3'
}

/// What `Path::extension` gives for a path: the text after the final dot of its
/// last component, if there is one.
pub uninterp spec fn path_extension(p: Seq<char>) -> Option<Seq<char>>;

/// Relies on `std::path::Path::extension`; the input is UTF-8 text, so the
/// extension converts back to a `String` whole.
#[verifier::external_body]
fn extension_of(path: &str) -> (r: Option<String>)
    ensures
        match r {
            Some(e) => path_extension(path@) == Some(e@),
            None => path_extension(path@) is None,
        },
{
    std::path::Path::new(path).extension().and_then(|e| e.to_str()).map(|e| e.to_string())
}

/// The kind of file-system object that a path names, as read from its metadata.
#[derive(PartialEq, Eq, Structural, Clone, Copy, Debug)]
pub enum EntryKind {
    File,
    Dir,
    Other,
}

/// A path whose extension is `mp3` in any case.
pub open spec fn has_mp3_extension(p: Seq<char>) -> bool {
    match path_extension(p) {
        Some(e) => is_mp3_extension_spec(e),
        None => false,
    }
}

/// Tests whether a path names a regular file with an `mp3` extension (in any case);
/// `kind` is what the file system says the path is.
pub fn is_mp3_file(path: &str, kind: EntryKind) -> (r: bool)
    ensures
        r == (kind == EntryKind::File && has_mp3_extension(path@)),
{
    if kind != EntryKind::File {
        return false;
    }
    match extension_of(path) {
        Some(e) => is_mp3_extension(e.as_str()),
        None => false,
    }
}

/// The extension test ignores case: two extensions that differ only in the case
/// of ASCII letters both qualify or both do not.
pub proof fn lemma_extension_ignores_case(a: Seq<char>, b: Seq<char>)
    requires
        a.len() == b.len(),
        forall|i: int| 0 <= i < a.len() ==> ascii_lower(#[trigger] a[i]) == ascii_lower(b[i]),
    ensures
        is_mp3_extension_spec(a) == is_mp3_extension_spec(b),
{
    if a.len() == 3 {
        assert(ascii_lower(a[0]) == ascii_lower(b[0]));
        assert(ascii_lower(a[1]) == ascii_lower(b[1]));
        assert(ascii_lower(a[2]) == ascii_lower(b[2]));
    }
}

} // verus!
