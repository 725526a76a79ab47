//! Path text helpers: deciding whether a directory entry is an image file
//! and deriving the sibling tag-file path from an image path. Paths are
//! plain text whose components are separated by `'/'`; the extension of a
//! path is the part of its final component after the last `'.'`, provided
//! that dot is not the component's first character.

use vstd::prelude::*;

verus! {

/// The index of the last occurrence of `c` in `s`, or `-1` when `s` does
/// not contain `c`.
pub open spec fn last_index_of(s: Seq<char>, c: char) -> int
    decreases s.len(),
{
    if s.len() == 0 {
        -1
    } else if s.last() == c {
        s.len() - 1
    } else {
        last_index_of(s.drop_last(), c)
    }
}

proof fn lemma_last_index_of(s: Seq<char>, c: char)
    ensures
        -1 <= last_index_of(s, c) < s.len(),
        last_index_of(s, c) >= 0 ==> s[last_index_of(s, c)] == c,
        forall|k: int| last_index_of(s, c) < k < s.len() ==> s[k] != c,
    decreases s.len(),
{
    if s.len() > 0 && s.last() != c {
        lemma_last_index_of(s.drop_last(), c);
        assert forall|k: int| last_index_of(s, c) < k < s.len() implies s[k] != c by {
            if k < s.len() - 1 {
                assert(s.drop_last()[k] == s[k]);
            }
        }
    }
}

/// Scans `s` from the end for `c`, reporting the index of its last
/// occurrence.
fn rfind_char(s: &str, c: char) -> (r: Option<usize>)
    ensures
        match r {
            Some(j) => j < s@.len() && last_index_of(s@, c) == j as int,
            None => last_index_of(s@, c) == -1,
        },
{
    let n = s.unicode_len();
    let mut j = n;
    while j > 0
        invariant
            j <= n,
            n == s@.len(),
            forall|k: int| j <= k < n ==> s@[k] != c,
        decreases j,
    {
        j = j - 1;
        if s.get_char(j) == c {
            proof {
                lemma_last_index_of(s@, c);
            }
            return Some(j);
        }
    }
    proof {
        lemma_last_index_of(s@, c);
    }
    None
}

/// Compares two strings character by character.
fn str_eq(a: &str, b: &str) -> (r: bool)
    ensures
        r == (a@ == b@),
{
    let na = a.unicode_len();
    let nb = b.unicode_len();
    if na != nb {
        return false;
    }
    let mut i: usize = 0;
    while i < na
        invariant
            i <= na,
            na == a@.len(),
            na == b@.len(),
            forall|k: int| 0 <= k < i ==> a@[k] == b@[k],
        decreases na - i,
    {
        if a.get_char(i) != b.get_char(i) {
            return false;
        }
        i = i + 1;
    }
    proof {
        assert(a@ =~= b@);
    }
    true
}

/// The index at which the final component of `path` begins: right after the
/// last `'/'`, or the start of the path when there is none.
pub open spec fn file_name_start(path: Seq<char>) -> int {
    last_index_of(path, '/') + 1
}

/// The index of the first character of the extension of `path`'s final
/// component, or `-1` when that component has no extension. A leading dot
/// does not begin an extension, so a name such as `".png"` has none.
pub open spec fn extension_start(path: Seq<char>) -> int {
    let ns = file_name_start(path);
    let name = path.subrange(ns, path.len() as int);
    let d = last_index_of(name, '.');
    if d >= 1 {
        ns + d + 1
    } else {
        -1
    }
}

/// The closed set of extensions treated as image files, exactly as given:
/// the comparison is case-sensitive.
pub open spec fn is_image_ext(e: Seq<char>) -> bool {
    e == "jpg"@ || e == "jpeg"@ || e == "png"@ || e == "gif"@ || e == "bmp"@ || e == "tiff"@
        || e == "tif"@ || e == "webp"@
}

/// Whether the final component of `path` carries an image extension.
pub open spec fn is_image_path(path: Seq<char>) -> bool {
    extension_start(path) >= 0 && is_image_ext(
        path.subrange(extension_start(path), path.len() as int),
    )
}

/// Decides whether a directory entry is an image file by its extension,
/// drawn from a closed, case-sensitive set.
pub fn is_image_file(path: &str) -> (r: bool)
    ensures
        r == is_image_path(path@),
{
    let n = path.unicode_len();
    let ns = match rfind_char(path, '/') {
        Some(j) => j + 1,
        None => 0,
    };
    let name = path.substring_char(ns, n);
    match rfind_char(name, '.') {
        None => false,
        Some(d) => {
            if d == 0 {
                false
            } else {
                let ext = name.substring_char(d + 1, n - ns);
                proof {
                    assert(ext@ =~= path@.subrange(ns + d + 1 as int, n as int));
                }
                str_eq(ext, "jpg") || str_eq(ext, "jpeg") || str_eq(ext, "png") || str_eq(
                    ext,
                    "gif",
                ) || str_eq(ext, "bmp") || str_eq(ext, "tiff") || str_eq(ext, "tif") || str_eq(
                    ext,
                    "webp",
                )
            }
        },
    }
}

/// The path of the tag file that sits beside the file at `path`: the
/// extension of the final component is replaced by `txt`, or `.txt` is
/// appended when that component has no extension.
pub open spec fn txt_path_of(path: Seq<char>) -> Seq<char> {
    if extension_start(path) >= 0 {
        path.subrange(0, extension_start(path)) + "txt"@
    } else {
        path + ".txt"@
    }
}

/// Derives the sibling tag-file path from a file path by replacing the
/// final component's extension with `txt` (appending `.txt` when it has
/// none).
pub fn tag_file_path(path: &str) -> (r: String)
    ensures
        r@ == txt_path_of(path@),
{
    let n = path.unicode_len();
    let ns = match rfind_char(path, '/') {
        Some(j) => j + 1,
        None => 0,
    };
    let name = path.substring_char(ns, n);
    match rfind_char(name, '.') {
        Some(d) if d >= 1 => {
            let mut r = String::from_str(path.substring_char(0, ns + d + 1));
            r.append("txt");
            r
        },
        _ => {
            let mut r = String::from_str(path);
            r.append(".txt");
            r
        },
    }
}

} // verus!
