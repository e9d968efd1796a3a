//! Line filtering.

use vstd::prelude::*;
use crate::model::{
    filtered, is_ascii_lowering, is_substring, lemma_empty_is_substring, lemma_line_end, line_end,
    line_matches, lines_of, lower_of, NEWLINE,
};
use vstd::utf8::{
    decode_utf8, encode_utf8, encode_utf8_decode_utf8, encode_utf8_valid_utf8, is_ascii_chars,
    is_ascii_chars_encode_utf8, is_char_boundary, is_char_boundary_iff_not_is_continuation_byte,
    is_char_boundary_start_end_of_seq,
};
use vstd::string::StringSliceAdditionalSpecFns;

verus! {

/// Whether `query` occurs in `line`, byte for byte.
pub fn contains(line: &str, query: &str) -> (r: bool)
    ensures
        r == is_substring(query.spec_bytes(), line.spec_bytes()),
{
    let hay = line.as_bytes();
    let needle = query.as_bytes();
    let n = hay.len();
    let m = needle.len();
    if m > n {
        return false;
    }
    let mut p: usize = 0;
    while p <= n - m
        invariant
            hay@ == line.spec_bytes(),
            needle@ == query.spec_bytes(),
            n == hay@.len(),
            m == needle@.len(),
            m <= n,
            p <= n - m + 1,
            forall|p0: int| 0 <= p0 < p ==> #[trigger] hay@.subrange(p0, p0 + m) != needle@,
        decreases n - m + 1 - p,
    {
        let mut i: usize = 0;
        while i < m && hay[p + i] == needle[i]
            invariant
                hay@ == line.spec_bytes(),
                needle@ == query.spec_bytes(),
                n == hay@.len(),
                m == needle@.len(),
                p + m <= n,
                i <= m,
                forall|k: int| 0 <= k < i ==> hay@[p + k] == needle@[k],
            decreases m - i,
        {
            i = i + 1;
        }
        if i == m {
            assert(hay@.subrange(p as int, p + m) =~= needle@);
            return true;
        }
        assert(hay@.subrange(p as int, p + m)[i as int] != needle@[i as int]);
        p = p + 1;
    }
    assert forall|p0: int| 0 <= p0 <= n - m implies #[trigger] hay@.subrange(p0, p0 + m) != needle@ by {}
    false
}

/// The bytes of each of a sequence of string slices.
pub open spec fn bytes_of(lines: Seq<&str>) -> Seq<Seq<u8>> {
    lines.map_values(|l: &str| l.spec_bytes())
}

/// Splits `contents` into its lines, each a slice of `contents`.
pub fn split_lines<'a>(contents: &'a str) -> (r: Vec<&'a str>)
    ensures
        bytes_of(r@) == lines_of(contents.spec_bytes()),
{
    broadcast use encode_utf8_valid_utf8;

    let mut out: Vec<&'a str> = Vec::new();
    let mut rest: &'a str = contents;
    while !rest.is_empty()
        invariant
            lines_of(contents.spec_bytes()) == bytes_of(out@) + lines_of(rest.spec_bytes()),
        decreases rest.spec_bytes().len(),
    {
        let bytes = rest.as_bytes();
        let n = bytes.len();
        let mut j: usize = 0;
        while j < n && bytes[j] != NEWLINE
            invariant
                bytes@ == rest.spec_bytes(),
                n == bytes@.len(),
                0 <= j <= n,
                line_end(bytes@, j as int) == line_end(bytes@, 0),
            decreases n - j,
        {
            j = j + 1;
        }
        let ghost b = bytes@;
        proof {
            lemma_line_end(b, 0);
            encode_utf8_valid_utf8(rest@);
            if j < n {
                is_char_boundary_iff_not_is_continuation_byte(b, j as int);
            } else {
                is_char_boundary_start_end_of_seq(b);
            }
        }
        let (line, tail) = rest.split_at(j);
        assert(line.spec_bytes() =~= b.subrange(0, j as int));
        let ghost before = bytes_of(out@);
        assert(bytes_of(out@.push(line)) =~= bytes_of(out@).push(line.spec_bytes()));
        out.push(line);
        if j < n {
            let ghost t = tail.spec_bytes();
            proof {
                encode_utf8_valid_utf8(tail@);
                assert(t[0] == NEWLINE);
                reveal_with_fuel(is_char_boundary, 2);
            }
            let (_newline, after) = tail.split_at(1);
            assert(after.spec_bytes() =~= b.subrange(j + 1, n as int));
            assert(lines_of(b) == seq![b.subrange(0, j as int)] + lines_of(b.subrange(j + 1, n as int)));
            assert(before + lines_of(b) =~= before.push(line.spec_bytes()) + lines_of(after.spec_bytes()));
            rest = after;
        } else {
            assert(tail.spec_bytes().len() == 0);
            assert(b.subrange(0, j as int) =~= b);
            assert(lines_of(b) == seq![b]);
            assert(lines_of(tail.spec_bytes()) =~= Seq::<Seq<u8>>::empty());
            assert(before + lines_of(b) =~= before.push(line.spec_bytes()) + lines_of(tail.spec_bytes()));
            rest = tail;
        }
    }
    assert(rest.spec_bytes().len() == 0);
    assert(lines_of(rest.spec_bytes()) =~= Seq::<Seq<u8>>::empty());
    assert(bytes_of(out@) + lines_of(rest.spec_bytes()) =~= bytes_of(out@));
    out
}

/// Relies on `str::to_lowercase`: the result depends on the characters of `s`
/// alone; an empty text stays empty; on ASCII text only the capitals
/// 'A'..='Z' change, each to its small letter.
#[verifier::external_body]
fn to_lowercase(s: &str) -> (r: String)
    ensures
        r@ == lower_of(s@),
        s@.len() == 0 ==> r@.len() == 0,
        is_ascii_chars(s@) ==> is_ascii_lowering(r@, s@),
{
    s.to_lowercase()
}

/// Folding ASCII text to lower case keeps an occurrence of one text in another.
proof fn lemma_ascii_fold_keeps_match(q: Seq<char>, l: Seq<char>, fq: Seq<char>, fl: Seq<char>)
    requires
        is_ascii_chars(q),
        is_ascii_chars(l),
        is_ascii_lowering(fq, q),
        is_ascii_lowering(fl, l),
        is_substring(encode_utf8(q), encode_utf8(l)),
    ensures
        is_substring(encode_utf8(fq), encode_utf8(fl)),
{
    assert(is_ascii_chars(fq)) by {
        assert forall|i: int| 0 <= i < fq.len() implies '\0' <= #[trigger] fq[i] <= '\u{7f}' by {
            assert(fq[i] as int == if 'A' <= q[i] <= 'Z' { q[i] as int + 32 } else { q[i] as int });
        }
    }
    assert(is_ascii_chars(fl)) by {
        assert forall|i: int| 0 <= i < fl.len() implies '\0' <= #[trigger] fl[i] <= '\u{7f}' by {
            assert(fl[i] as int == if 'A' <= l[i] <= 'Z' { l[i] as int + 32 } else { l[i] as int });
        }
    }
    is_ascii_chars_encode_utf8(q);
    is_ascii_chars_encode_utf8(l);
    is_ascii_chars_encode_utf8(fq);
    is_ascii_chars_encode_utf8(fl);
    let m = q.len() as int;
    let p = choose|p: int|
        0 <= p <= encode_utf8(l).len() - m && #[trigger] encode_utf8(l).subrange(p, p + m)
            == encode_utf8(q);
    assert forall|i: int| 0 <= i < m implies #[trigger] fl[p + i] == fq[i] by {
        assert(encode_utf8(l).subrange(p, p + m)[i] == encode_utf8(q)[i]);
        assert(l[p + i] as u8 == q[i] as u8);
        assert(l[p + i] == q[i]);
        assert(fl[p + i] as int == fq[i] as int);
    }
    assert(encode_utf8(fl).subrange(p, p + m) =~= encode_utf8(fq)) by {
        assert forall|i: int| 0 <= i < m implies encode_utf8(fl).subrange(p, p + m)[i]
            == encode_utf8(fq)[i] by {
            assert(fl[p + i] == fq[i]);
        }
    }
}

/// The lines of `contents` that contain `query`, in their order: byte for
/// byte when `case_sensitive`, else after folding both to lower case.
pub fn filter<'a>(query: &str, contents: &'a str, case_sensitive: bool) -> (r: Vec<&'a str>)
    ensures
        bytes_of(r@) == filtered(query.spec_bytes(), contents.spec_bytes(), case_sensitive),
        query@.len() == 0 ==> bytes_of(r@) == lines_of(contents.spec_bytes()),
        contents@.len() == 0 ==> r@.len() == 0,
        !case_sensitive && is_ascii_chars(query@) ==> forall|k: int|
            0 <= k < lines_of(contents.spec_bytes()).len() && is_ascii_chars(
                decode_utf8(#[trigger] lines_of(contents.spec_bytes())[k]),
            ) && line_matches(query.spec_bytes(), lines_of(contents.spec_bytes())[k], true)
                ==> line_matches(query.spec_bytes(), lines_of(contents.spec_bytes())[k], false),
{
    let lines = split_lines(contents);
    let ghost ls = lines_of(contents.spec_bytes());
    let ghost q = query.spec_bytes();
    let ghost pred = |l: Seq<u8>| line_matches(q, l, case_sensitive);
    let folded_query = if case_sensitive {
        String::new()
    } else {
        to_lowercase(query)
    };
    proof {
        encode_utf8_decode_utf8(query@);
    }
    let mut out: Vec<&'a str> = Vec::new();
    let mut i: usize = 0;
    while i < lines.len()
        invariant
            bytes_of(lines@) == ls,
            ls == lines_of(contents.spec_bytes()),
            q == query.spec_bytes(),
            pred == (|l: Seq<u8>| line_matches(q, l, case_sensitive)),
            0 <= i <= lines@.len(),
            bytes_of(out@) == ls.take(i as int).filter(pred),
            !case_sensitive ==> folded_query@ == lower_of(query@),
            decode_utf8(q) == query@,
            query@.len() == 0 ==> folded_query@.len() == 0,
            !case_sensitive && is_ascii_chars(query@) ==> is_ascii_lowering(folded_query@, query@),
            query@.len() == 0 ==> bytes_of(out@) == ls.take(i as int),
            !case_sensitive && is_ascii_chars(query@) ==> forall|k: int|
                0 <= k < i && is_ascii_chars(decode_utf8(#[trigger] ls[k])) && line_matches(
                    q,
                    ls[k],
                    true,
                ) ==> line_matches(q, ls[k], false),
        decreases lines.len() - i,
    {
        let line = lines[i];
        assert(line.spec_bytes() == ls[i as int]);
        proof {
            encode_utf8_decode_utf8(line@);
            assert(q == encode_utf8(query@));
            assert(ls[i as int] == encode_utf8(line@));
        }
        let keep = if case_sensitive {
            contains(line, query)
        } else {
            let folded_line = to_lowercase(line);
            let k = contains(folded_line.as_str(), folded_query.as_str());
            assert(k == line_matches(q, ls[i as int], false));
            proof {
                if is_ascii_chars(query@) && is_ascii_chars(line@) && is_substring(q, ls[i as int]) {
                    lemma_ascii_fold_keeps_match(query@, line@, folded_query@, folded_line@);
                }
                if query@.len() == 0 {
                    assert(encode_utf8(folded_query@) =~= Seq::<u8>::empty());
                    lemma_empty_is_substring(encode_utf8(folded_query@), encode_utf8(folded_line@));
                }
            }
            k
        };
        assert(keep == line_matches(q, ls[i as int], case_sensitive));
        assert(keep == pred(ls[i as int]));
        proof {
            if query@.len() == 0 && case_sensitive {
                assert(q =~= Seq::<u8>::empty());
                lemma_empty_is_substring(q, ls[i as int]);
            }
        }
        assert(query@.len() == 0 ==> keep);
        assert(ls.take(i + 1).drop_last() =~= ls.take(i as int));
        proof {
            reveal(Seq::filter);
        }
        if keep {
            assert(bytes_of(out@.push(line)) =~= bytes_of(out@).push(line.spec_bytes()));
            out.push(line);
        }
        proof {
            if query@.len() == 0 {
                assert(ls.take(i + 1) =~= ls.take(i as int).push(ls[i as int]));
            }
        }
        i = i + 1;
    }
    assert(ls.take(i as int) =~= ls);
    proof {
        if contents@.len() == 0 {
            assert(ls.len() == 0);
        }
    }
    out
}

/// The lines of `contents` that contain `query`, byte for byte, in their order.
pub fn search<'a>(query: &str, contents: &'a str) -> (r: Vec<&'a str>)
    ensures
        bytes_of(r@) == filtered(query.spec_bytes(), contents.spec_bytes(), true),
        query@.len() == 0 ==> bytes_of(r@) == lines_of(contents.spec_bytes()),
        contents@.len() == 0 ==> r@.len() == 0,
{
    filter(query, contents, true)
}

/// The lines of `contents` that contain `query` once both are folded to
/// lower case, in their order. Each returned line keeps its own casing.
pub fn search_case_insensitive<'a>(query: &str, contents: &'a str) -> (r: Vec<&'a str>)
    ensures
        bytes_of(r@) == filtered(query.spec_bytes(), contents.spec_bytes(), false),
        query@.len() == 0 ==> bytes_of(r@) == lines_of(contents.spec_bytes()),
        contents@.len() == 0 ==> r@.len() == 0,
        is_ascii_chars(query@) ==> forall|k: int|
            0 <= k < lines_of(contents.spec_bytes()).len() && is_ascii_chars(
                decode_utf8(#[trigger] lines_of(contents.spec_bytes())[k]),
            ) && line_matches(query.spec_bytes(), lines_of(contents.spec_bytes())[k], true)
                ==> line_matches(query.spec_bytes(), lines_of(contents.spec_bytes())[k], false),
{
    filter(query, contents, false)
}

} // verus!
