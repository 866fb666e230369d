//! The file format a buffer is loaded from or saved as.

use vstd::prelude::*;
use vstd::string::StringSliceAdditionalSpecFns;

verus! {

/// How a file holds its bytes: raw, or as Intel HEX text.
#[derive(Debug, Clone, Copy, PartialEq, Eq)]
pub enum MetaInfo {
    IntelHex,
    Bin,
}

impl Default for MetaInfo {
    fn default() -> (r: MetaInfo)
        ensures
            r == MetaInfo::Bin,
    {
        MetaInfo::Bin
    }
}

/// Why no format could be told.
#[derive(Debug, Clone, Copy, PartialEq, Eq)]
pub enum FormatError {
    /// The path has an extension other than `bin` or `hex`.
    UnsupportedExtension,
    /// The path has no extension.
    NoExtension,
    /// The content is of a type that is neither binary nor text.
    UnsupportedContent,
}

pub const SLASH: u8 = 0x2F;

pub const DOT: u8 = 0x2E;

/// The index of the last `c` in `s`, or -1.
pub open spec fn last_index_of(s: Seq<u8>, c: u8) -> int
    decreases s.len(),
{
    if s.len() == 0 {
        -1
    } else if s.last() == c {
        s.len() - 1
    } else {
        last_index_of(s.drop_last(), c)
    }
}

/// `path` without trailing separators and trailing `.` components.
pub open spec fn trim_tail(path: Seq<u8>) -> Seq<u8>
    decreases path.len(),
{
    if path.len() > 0 && path.last() == SLASH {
        trim_tail(path.drop_last())
    } else if path.len() >= 2 && path.last() == DOT && path[path.len() - 2] == SLASH {
        trim_tail(path.drop_last())
    } else {
        path
    }
}

/// The last component of a path: what follows its last `/`, once trailing
/// separators and `.` components are dropped.
pub open spec fn file_name(path: Seq<u8>) -> Seq<u8> {
    let t = trim_tail(path);
    t.skip(last_index_of(t, SLASH) + 1)
}

/// What follows the last `.` of the file name, where that dot is not the
/// name's first character and the name is not `..`.
pub open spec fn extension_of(path: Seq<u8>) -> Option<Seq<u8>> {
    let name = file_name(path);
    let d = last_index_of(name, DOT);
    if d > 0 && name != seq![DOT, DOT] { Some(name.skip(d + 1)) } else { None }
}

pub open spec fn ext_bin() -> Seq<u8> {
    seq![0x62u8, 0x69u8, 0x6Eu8]
}

pub open spec fn ext_hex() -> Seq<u8> {
    seq![0x68u8, 0x65u8, 0x78u8]
}

/// The format that a path's extension names.
pub open spec fn format_of_path(path: Seq<u8>) -> Result<MetaInfo, FormatError> {
    match extension_of(path) {
        Some(e) => if e == ext_bin() {
            Ok(MetaInfo::Bin)
        } else if e == ext_hex() {
            Ok(MetaInfo::IntelHex)
        } else {
            Err(FormatError::UnsupportedExtension)
        },
        None => Err(FormatError::NoExtension),
    }
}

proof fn lemma_last_index(t: Seq<u8>, c: u8, k: int)
    requires
        -1 <= k < t.len(),
        k >= 0 ==> t[k] == c,
        forall|j: int| k < j < t.len() ==> #[trigger] t[j] != c,
    ensures
        last_index_of(t, c) == k,
    decreases t.len(),
{
    if t.len() > 0 && t.last() != c {
        let u = t.drop_last();
        assert forall|j: int| k < j < u.len() implies #[trigger] u[j] != c by {
            assert(u[j] == t[j]);
        }
        lemma_last_index(u, c, k);
    }
}

/// The index of the last `c` in `s[lo..hi]`, or `hi` where there is none.
fn find_last(s: &[u8], lo: usize, hi: usize, c: u8) -> (r: usize)
    requires
        lo <= hi <= s@.len(),
    ensures
        r == hi ==> last_index_of(s@.subrange(lo as int, hi as int), c) == -1,
        r < hi ==> lo <= r && last_index_of(s@.subrange(lo as int, hi as int), c) == r - lo,
        r <= hi,
{
    let mut i = hi;
    while i > lo
        invariant
            lo <= i <= hi <= s@.len(),
            forall|j: int| i <= j < hi ==> #[trigger] s@[j] != c,
        decreases i,
    {
        if s[i - 1] == c {
            proof {
                let t = s@.subrange(lo as int, hi as int);
                assert forall|j: int| i - 1 - lo < j < t.len() implies #[trigger] t[j] != c by {
                    assert(t[j] == s@[lo + j]);
                }
                lemma_last_index(t, c, i - 1 - lo);
            }
            return i - 1;
        }
        i = i - 1;
    }
    proof {
        let t = s@.subrange(lo as int, hi as int);
        assert forall|j: int| -1 < j < t.len() implies #[trigger] t[j] != c by {
            assert(t[j] == s@[lo + j]);
        }
        lemma_last_index(t, c, -1);
    }
    hi
}

/// The length of `s` once trailing separators and `.` components are
/// dropped.
fn trimmed_len(s: &[u8]) -> (r: usize)
    ensures
        r <= s@.len(),
        s@.take(r as int) == trim_tail(s@),
{
    let mut e = s.len();
    assert(s@.take(e as int) =~= s@);
    while e > 0 && (s[e - 1] == SLASH || (e >= 2 && s[e - 1] == DOT && s[e - 2] == SLASH))
        invariant
            e <= s@.len(),
            trim_tail(s@.take(e as int)) == trim_tail(s@),
        decreases e,
    {
        proof {
            let t = s@.take(e as int);
            assert(t.drop_last() =~= s@.take(e - 1));
        }
        e = e - 1;
    }
    e
}

/// Relies on `tree_magic::from_u8`: the MIME type that the content looks
/// like. What it answers depends on the type definitions installed on the
/// machine, so nothing is stated of the result. The built-in and base-type
/// definitions are always loaded, and `application/octet-stream` matches any
/// bytes; it panics only where the machine's database adds a type with no
/// parent ahead of those, which no argument can rule out.
#[verifier::external_body]
fn sniff_mime(first_bytes: &[u8]) -> (r: String) {
    tree_magic::from_u8(first_bytes)
}

impl MetaInfo {
    /// The format for a MIME type: raw bytes for `application/octet-stream`,
    /// Intel HEX for `text/plain`.
    pub fn from_mime(mime: &String) -> (r: Result<MetaInfo, FormatError>)
        ensures
            r == (if mime@ == "application/octet-stream"@ {
                Ok(MetaInfo::Bin)
            } else if mime@ == "text/plain"@ {
                Ok(MetaInfo::IntelHex)
            } else {
                Err(FormatError::UnsupportedContent)
            }),
    {
        let octet = "application/octet-stream".to_owned();
        let text = "text/plain".to_owned();
        if *mime == octet {
            Ok(MetaInfo::Bin)
        } else if *mime == text {
            Ok(MetaInfo::IntelHex)
        } else {
            Err(FormatError::UnsupportedContent)
        }
    }

    /// The format that the first bytes of a file look like.
    pub fn from_content(first_bytes: &[u8]) -> (r: Result<MetaInfo, FormatError>)
        ensures
            r is Ok || r == Err::<MetaInfo, FormatError>(FormatError::UnsupportedContent),
    {
        let mime = sniff_mime(first_bytes);
        MetaInfo::from_mime(&mime)
    }

    /// The format that the extension of `path` names: `bin` for raw bytes,
    /// `hex` for Intel HEX.
    pub fn from_file_extension(path: &str) -> (r: Result<MetaInfo, FormatError>)
        ensures
            r == format_of_path(path.spec_bytes()),
    {
        let b = path.as_bytes();
        match extension_span(b) {
            None => Err(FormatError::NoExtension),
            Some((lo, hi)) => {
                if is_word(b, lo, hi, 0x62, 0x69, 0x6E) {
                    Ok(MetaInfo::Bin)
                } else if is_word(b, lo, hi, 0x68, 0x65, 0x78) {
                    Ok(MetaInfo::IntelHex)
                } else {
                    Err(FormatError::UnsupportedExtension)
                }
            },
        }
    }
}

/// Where the extension of the path `b` lies in it, if it has one.
fn extension_span(b: &[u8]) -> (r: Option<(usize, usize)>)
    ensures
        match r {
            None => extension_of(b@) is None,
            Some((lo, hi)) => lo <= hi <= b@.len() && extension_of(b@) == Some(b@.subrange(lo as int, hi as int)),
        },
{
    let ghost s = b@;
    let n = trimmed_len(b);
    let ghost t = s.take(n as int);
    assert(s.subrange(0, n as int) =~= t);
    let sl = find_last(b, 0, n, SLASH);
    let start = if sl < n { sl + 1 } else { 0 };
    let ghost name = s.subrange(start as int, n as int);
    assert(name =~= file_name(s));
    let d = find_last(b, start, n, DOT);
    if d >= n || d == start {
        return None;
    }
    if n - start == 2 && b[start] == DOT && b[start + 1] == DOT {
        assert(name =~= seq![DOT, DOT]);
        return None;
    }
    proof {
        if name == seq![DOT, DOT] {
            assert(name[0] == s[start as int] && name[1] == s[start + 1]);
        }
        assert(name.skip(d - start + 1) =~= s.subrange(d + 1, n as int));
    }
    Some((d + 1, n))
}

/// Whether `b[lo..hi]` is the three bytes `x`, `y`, `z`.
fn is_word(b: &[u8], lo: usize, hi: usize, x: u8, y: u8, z: u8) -> (r: bool)
    requires
        lo <= hi <= b@.len(),
    ensures
        r == (b@.subrange(lo as int, hi as int) == seq![x, y, z]),
{
    let ghost w = b@.subrange(lo as int, hi as int);
    if hi - lo == 3 && b[lo] == x && b[lo + 1] == y && b[lo + 2] == z {
        assert(w =~= seq![x, y, z]);
        true
    } else {
        proof {
            if w == seq![x, y, z] {
                assert(w.len() == 3);
                assert(w[0] == b@[lo as int] && w[1] == b@[lo + 1] && w[2] == b@[lo + 2]);
            }
        }
        false
    }
}

} // verus!
