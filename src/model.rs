//! Mathematical model of lines, containment and filtering, over UTF-8 bytes.

use vstd::prelude::*;
use vstd::utf8::{decode_utf8, encode_utf8};

verus! {

/// The newline byte, the only delimiter between lines.
pub const NEWLINE: u8 = 10;

/// `needle` occurs in `haystack` as a contiguous run of bytes.
pub open spec fn is_substring(needle: Seq<u8>, haystack: Seq<u8>) -> bool {
    exists|p: int|
        0 <= p <= haystack.len() - needle.len() && #[trigger] haystack.subrange(p, p + needle.len())
            == needle
}

/// The empty text occurs in every text.
pub proof fn lemma_empty_is_substring(needle: Seq<u8>, haystack: Seq<u8>)
    requires
        needle.len() == 0,
    ensures
        is_substring(needle, haystack),
{
    assert(haystack.subrange(0, 0 + needle.len() as int) =~= needle);
}

/// Index of the first newline of `b` at or after `i`, or `b.len()` when
/// there is none.
pub open spec fn line_end(b: Seq<u8>, i: int) -> int
    decreases b.len() - i,
{
    if i < 0 || i >= b.len() {
        b.len() as int
    } else if b[i] == NEWLINE {
        i
    } else {
        line_end(b, i + 1)
    }
}

/// The first newline at or after `i` lies between `i` and the end, and no
/// newline comes before it.
pub proof fn lemma_line_end(b: Seq<u8>, i: int)
    requires
        0 <= i <= b.len(),
    ensures
        i <= line_end(b, i) <= b.len(),
        line_end(b, i) < b.len() ==> b[line_end(b, i)] == NEWLINE,
        forall|k: int| i <= k < line_end(b, i) ==> b[k] != NEWLINE,
    decreases b.len() - i,
{
    if i < b.len() && b[i] != NEWLINE {
        lemma_line_end(b, i + 1);
    }
}

/// The lines of `b`: the pieces between newlines, where the empty piece
/// after a final newline (or the single piece of an empty text) is dropped.
pub open spec fn lines_of(b: Seq<u8>) -> Seq<Seq<u8>>
    decreases b.len(),
{
    if b.len() == 0 {
        seq![]
    } else {
        let j = line_end(b, 0);
        proof {
            lemma_line_end(b, 0);
        }
        if j >= b.len() {
            seq![b]
        } else {
            seq![b.subrange(0, j)] + lines_of(b.subrange(j + 1, b.len() as int))
        }
    }
}

/// The text made of `lines`, each followed by a newline.
pub open spec fn unlines(lines: Seq<Seq<u8>>) -> Seq<u8>
    decreases lines.len(),
{
    if lines.len() == 0 {
        seq![]
    } else {
        lines[0] + seq![NEWLINE] + unlines(lines.drop_first())
    }
}

/// What `str::to_lowercase` makes of a text, as characters.
pub uninterp spec fn lower_of(s: Seq<char>) -> Seq<char>;

/// `r` is `s` with each ASCII capital 'A'..='Z' replaced by its small letter
/// and every other character kept.
pub open spec fn is_ascii_lowering(r: Seq<char>, s: Seq<char>) -> bool {
    &&& r.len() == s.len()
    &&& forall|i: int|
        0 <= i < s.len() ==> (#[trigger] r[i] as int) == if 'A' <= s[i] <= 'Z' {
            s[i] as int + 32
        } else {
            s[i] as int
        }
}

/// The bytes of a UTF-8 text after folding it to lower case.
pub open spec fn folded(b: Seq<u8>) -> Seq<u8> {
    encode_utf8(lower_of(decode_utf8(b)))
}

/// Whether `line` contains `query`: byte for byte when `case_sensitive`,
/// else after folding both to lower case.
pub open spec fn line_matches(query: Seq<u8>, line: Seq<u8>, case_sensitive: bool) -> bool {
    if case_sensitive {
        is_substring(query, line)
    } else {
        is_substring(folded(query), folded(line))
    }
}

/// The lines of `content` that contain `query`, in their order.
pub open spec fn filtered(query: Seq<u8>, content: Seq<u8>, case_sensitive: bool) -> Seq<
    Seq<u8>,
> {
    lines_of(content).filter(|l: Seq<u8>| line_matches(query, l, case_sensitive))
}

} // verus!
