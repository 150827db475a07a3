//! A filesystem path as the path of a URI, and back: what a transport or an
//! archive writes after `file://`, `sqlite://` or `unix://` when the thing
//! it names is a file.
//!
//! A URI uses forward slashes on every platform and its path opens with a
//! slash, so a Windows path is converted rather than printed: `C:\in\a.edi`
//! is `/C:/in/a.edi`, and `file://` before it reads `file:///C:/in/a.edi`.

use vstd::prelude::*;
use vstd::utf8::*;

use crate::ascii::{is_letter, lemma_after_ascii, lemma_ascii_valid, lemma_piece_valid, text_of};
use crate::text::{string_of, utf8};

verus! {

broadcast use {encode_utf8_valid_utf8, valid_utf8_concat};

/// A backslash, the Windows separator.
pub const BACKSLASH: u8 = 0x5c;

/// A forward slash.
pub const SLASH: u8 = 0x2f;

/// `path` with every backslash a forward slash.
pub open spec fn slashed(path: Seq<u8>) -> Seq<u8> {
    Seq::new(path.len(), |i: int| if path[i] == BACKSLASH { SLASH } else { path[i] })
}

/// The path of a URI naming the file `path`: forward slashes, opening with
/// one.
pub open spec fn uri_path(path: Seq<u8>) -> Seq<u8> {
    let text = slashed(path);
    if text.len() > 0 && text[0] == SLASH {
        text
    } else {
        seq![SLASH] + text
    }
}

/// Whether `path` opens with a slash before a drive: `/C:`.
pub open spec fn slash_before_drive(path: Seq<u8>) -> bool {
    path.len() >= 3 && path[0] == SLASH && is_letter(path[1]) && path[2] == 0x3a
}

/// The file a URI's path names: the slash before a drive dropped.
pub open spec fn file_path(uri_path: Seq<u8>) -> Seq<u8> {
    if slash_before_drive(uri_path) {
        uri_path.subrange(1, uri_path.len() as int)
    } else {
        uri_path
    }
}

/// `path` as the path part of a URI: forward slashes, and a leading slash
/// so a Windows drive reads `/C:/...` after the authority.
pub fn path_of(path: &str) -> (r: String)
    ensures
        utf8(r@) == uri_path(utf8(path@)),
{
    let s = path.as_bytes();
    let ghost bytes = s@;
    let mut out: Vec<u8> = Vec::new();
    if !(s.len() > 0 && (s[0] == SLASH || s[0] == BACKSLASH)) {
        out.push(SLASH);
    }
    let ghost prefix = out@;
    proof {
        lemma_ascii_valid(prefix);
        assert(slashed(bytes.subrange(0, 0)) =~= Seq::<u8>::empty());
        assert(prefix + Seq::<u8>::empty() =~= prefix);
    }
    let mut start: usize = 0;
    let mut i: usize = 0;
    while i < s.len()
        invariant
            s@ == bytes,
            valid_utf8(bytes),
            start <= i <= bytes.len(),
            start == 0 || !is_continuation_byte(bytes[start as int]) || start == bytes.len(),
            valid_utf8(prefix + slashed(bytes.subrange(0, start as int))),
            forall|j: int| start <= j < i ==> bytes[j] != BACKSLASH,
            out@ == prefix + slashed(bytes.subrange(0, i as int)),
            prefix.len() <= 1,
        decreases s.len() - i,
    {
        let b = s[i];
        proof {
            assert(slashed(bytes.subrange(0, i + 1)) =~= slashed(bytes.subrange(0, i as int)).push(
                if b == BACKSLASH {
                    SLASH
                } else {
                    b
                },
            ));
        }
        if b == BACKSLASH {
            out.push(SLASH);
            proof {
                lemma_piece_valid(bytes, start as int, i as int);
                lemma_after_ascii(bytes, i as int);
                let seg = bytes.subrange(start as int, i as int);
                assert(slashed(seg) =~= seg);
                assert(slashed(bytes.subrange(0, i + 1)) =~= slashed(bytes.subrange(0, start as int))
                    + seg + seq![SLASH]);
                lemma_ascii_valid(seq![SLASH]);
                valid_utf8_concat(prefix + slashed(bytes.subrange(0, start as int)), seg);
                valid_utf8_concat(prefix + slashed(bytes.subrange(0, start as int)) + seg, seq![SLASH]);
                assert(prefix + slashed(bytes.subrange(0, i + 1)) =~= prefix + slashed(
                    bytes.subrange(0, start as int),
                ) + seg + seq![SLASH]);
            }
            start = i + 1;
        } else {
            out.push(b);
        }
        i = i + 1;
    }
    proof {
        lemma_piece_valid(bytes, start as int, bytes.len() as int);
        let seg = bytes.subrange(start as int, bytes.len() as int);
        assert(slashed(seg) =~= seg);
        assert(slashed(bytes.subrange(0, bytes.len() as int)) =~= slashed(
            bytes.subrange(0, start as int),
        ) + seg);
        assert(out@ =~= prefix + slashed(bytes.subrange(0, start as int)) + seg);
        valid_utf8_concat(prefix + slashed(bytes.subrange(0, start as int)), seg);
        assert(bytes.subrange(0, bytes.len() as int) =~= bytes);
        assert(out@ =~= uri_path(bytes));
    }
    string_of(out)
}

/// The filesystem path a URI's path names: [`path_of`] undone, the slash
/// before a drive letter dropped. Forward slashes are kept; Windows reads
/// them as separators.
pub fn file_of(uri_path: &str) -> (r: String)
    ensures
        utf8(r@) == file_path(utf8(uri_path@)),
{
    let bytes = uri_path.as_bytes();
    let drive = bytes.len() >= 3 && bytes[0] == SLASH && ((0x41 <= bytes[1] && bytes[1] <= 0x5a)
        || (0x61 <= bytes[1] && bytes[1] <= 0x7a)) && bytes[2] == 0x3a;
    if drive {
        proof {
            lemma_after_ascii(bytes@, 0);
            lemma_piece_valid(bytes@, 1, bytes@.len() as int);
        }
        text_of(vstd::slice::slice_subrange(bytes, 1, bytes.len()))
    } else {
        text_of(bytes)
    }
}

/// A path that opens with a drive (`C:`), or with a slash that no drive
/// follows, is given back by [`file_of`] from [`path_of`] as it was, but
/// for its slashes.
pub proof fn law_file_of_undoes_path_of(path: Seq<u8>)
    requires
        (path.len() >= 2 && is_letter(path[0]) && path[1] == 0x3a) || (path.len() > 0 && (path[0]
            == SLASH || path[0] == BACKSLASH) && !slash_before_drive(slashed(path))),
    ensures
        file_path(uri_path(path)) == slashed(path),
{
    let text = slashed(path);
    if path.len() >= 2 && is_letter(path[0]) && path[1] == 0x3a {
        let whole = seq![SLASH] + text;
        assert(whole[1] == path[0]);
        assert(whole[2] == 0x3a);
        assert(whole.subrange(1, whole.len() as int) =~= text);
    }
}

} // verus!
