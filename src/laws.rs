//! General properties of line filtering, stated over the model.

use vstd::prelude::*;
use crate::model::{
    filtered, lemma_line_end, line_end, line_matches, lines_of, unlines, NEWLINE,
};

verus! {

/// The positions in `s` of the items that `pred` keeps: they increase, and
/// every kept item of `s` stands at one of them.
proof fn lemma_filter_positions<A>(s: Seq<A>, pred: spec_fn(A) -> bool) -> (idx: Seq<int>)
    ensures
        idx.len() == s.filter(pred).len(),
        forall|j: int|
            0 <= j < idx.len() ==> 0 <= #[trigger] idx[j] < s.len() && s.filter(pred)[j]
                == s[idx[j]] && pred(s[idx[j]]),
        forall|j1: int, j2: int| 0 <= j1 < j2 < idx.len() ==> #[trigger] idx[j1] < #[trigger] idx[j2],
        forall|k: int| 0 <= k < s.len() && pred(#[trigger] s[k]) ==> idx.contains(k),
    decreases s.len(),
{
    reveal(Seq::filter);
    if s.len() == 0 {
        seq![]
    } else {
        let prev = lemma_filter_positions(s.drop_last(), pred);
        let last = s.len() - 1;
        if pred(s[last]) {
            let idx = prev.push(last);
            assert forall|k: int| 0 <= k < s.len() && pred(#[trigger] s[k]) implies idx.contains(k) by {
                if k < last {
                    assert(s.drop_last()[k] == s[k]);
                    let j = choose|j: int| 0 <= j < prev.len() && prev[j] == k;
                    assert(idx[j] == k);
                } else {
                    assert(idx[prev.len() as int] == k);
                }
            }
            idx
        } else {
            assert forall|k: int| 0 <= k < s.len() && pred(#[trigger] s[k]) implies prev.contains(k) by {
                assert(s.drop_last()[k] == s[k]);
            }
            prev
        }
    }
}

/// Order is kept: the lines that the filter returns stand at strictly
/// increasing positions among the lines of the text.
pub proof fn lemma_filter_keeps_order(query: Seq<u8>, content: Seq<u8>, case_sensitive: bool) -> (idx:
    Seq<int>)
    ensures
        idx.len() == filtered(query, content, case_sensitive).len(),
        forall|j: int|
            0 <= j < idx.len() ==> 0 <= #[trigger] idx[j] < lines_of(content).len() && filtered(
                query,
                content,
                case_sensitive,
            )[j] == lines_of(content)[idx[j]],
        forall|j1: int, j2: int| 0 <= j1 < j2 < idx.len() ==> #[trigger] idx[j1] < #[trigger] idx[j2],
{
    lemma_filter_positions(
        lines_of(content),
        |l: Seq<u8>| line_matches(query, l, case_sensitive),
    )
}

/// The filter is exact: every line it returns contains the query, and every
/// line of the text that contains the query is returned.
pub proof fn lemma_filter_exact(query: Seq<u8>, content: Seq<u8>, case_sensitive: bool)
    ensures
        forall|j: int|
            0 <= j < filtered(query, content, case_sensitive).len() ==> line_matches(
                query,
                #[trigger] filtered(query, content, case_sensitive)[j],
                case_sensitive,
            ),
        forall|k: int|
            0 <= k < lines_of(content).len() && line_matches(
                query,
                #[trigger] lines_of(content)[k],
                case_sensitive,
            ) ==> filtered(query, content, case_sensitive).contains(lines_of(content)[k]),
{
    let pred = |l: Seq<u8>| line_matches(query, l, case_sensitive);
    let ls = lines_of(content);
    let idx = lemma_filter_positions(ls, pred);
    assert forall|j: int| 0 <= j < ls.filter(pred).len() implies line_matches(
        query,
        #[trigger] ls.filter(pred)[j],
        case_sensitive,
    ) by {
        assert(pred(ls[idx[j]]));
    }
    assert forall|k: int| 0 <= k < ls.len() && line_matches(query, #[trigger] ls[k], case_sensitive)
        implies ls.filter(pred).contains(ls[k]) by {
        assert(pred(ls[k]));
        let j = choose|j: int| 0 <= j < idx.len() && idx[j] == k;
        assert(ls.filter(pred)[j] == ls[k]);
    }
}

/// No line holds a newline.
proof fn lemma_lines_hold_no_newline(b: Seq<u8>)
    ensures
        forall|k: int, i: int|
            0 <= k < lines_of(b).len() && 0 <= i < lines_of(b)[k].len() ==> #[trigger] lines_of(
                b,
            )[k][i] != NEWLINE,
    decreases b.len(),
{
    if b.len() > 0 {
        let j = line_end(b, 0);
        lemma_line_end(b, 0);
        if j < b.len() {
            let tail = b.subrange(j + 1, b.len() as int);
            lemma_lines_hold_no_newline(tail);
            assert forall|k: int, i: int|
                0 <= k < lines_of(b).len() && 0 <= i < lines_of(b)[k].len() implies #[trigger] lines_of(
                b,
            )[k][i] != NEWLINE by {
                if k > 0 {
                    assert(lines_of(b)[k] == lines_of(tail)[k - 1]);
                } else {
                    assert(lines_of(b)[k][i] == b[i]);
                }
            }
        }
    }
}

/// Lines without newlines, written out each followed by a newline, read back
/// as the same lines.
proof fn lemma_lines_of_unlines(ls: Seq<Seq<u8>>)
    requires
        forall|k: int, i: int| 0 <= k < ls.len() && 0 <= i < ls[k].len() ==> #[trigger] ls[k][i] != NEWLINE,
    ensures
        lines_of(unlines(ls)) == ls,
    decreases ls.len(),
{
    if ls.len() == 0 {
        assert(lines_of(unlines(ls)) =~= ls);
    } else {
        let rest = ls.drop_first();
        assert forall|k: int, i: int| 0 <= k < rest.len() && 0 <= i < rest[k].len() implies #[trigger] rest[k][i] != NEWLINE by {
            assert(rest[k] == ls[k + 1]);
        }
        lemma_lines_of_unlines(rest);
        let b = unlines(ls);
        let n = ls[0].len() as int;
        assert(b == ls[0] + seq![NEWLINE] + unlines(rest));
        lemma_line_end(b, 0);
        let j = line_end(b, 0);
        assert(b[n] == NEWLINE);
        if j < n {
            assert(b[j] == ls[0][j]);
        }
        assert(j == n);
        assert(b.subrange(0, n) =~= ls[0]);
        assert(b.subrange(n + 1, b.len() as int) =~= unlines(rest));
        assert(lines_of(b) =~= ls);
    }
}

/// Filtering twice with one predicate keeps what filtering once kept.
proof fn lemma_filter_twice<A>(s: Seq<A>, pred: spec_fn(A) -> bool)
    ensures
        s.filter(pred).filter(pred) == s.filter(pred),
    decreases s.len(),
{
    reveal(Seq::filter);
    if s.len() > 0 {
        lemma_filter_twice(s.drop_last(), pred);
        let sub = s.drop_last().filter(pred);
        if pred(s.last()) {
            assert(sub.push(s.last()).drop_last() =~= sub);
        }
    }
}

/// Filtering again what the filter returned, written out as lines of text,
/// with the same query and mode, returns it unchanged.
pub proof fn lemma_filter_idempotent(query: Seq<u8>, content: Seq<u8>, case_sensitive: bool)
    ensures
        filtered(query, unlines(filtered(query, content, case_sensitive)), case_sensitive)
            == filtered(query, content, case_sensitive),
{
    let pred = |l: Seq<u8>| line_matches(query, l, case_sensitive);
    let ls = lines_of(content);
    let f = ls.filter(pred);
    let idx = lemma_filter_positions(ls, pred);
    lemma_lines_hold_no_newline(content);
    assert forall|k: int, i: int| 0 <= k < f.len() && 0 <= i < f[k].len() implies #[trigger] f[k][i] != NEWLINE by {
        assert(f[k] == ls[idx[k]]);
        assert(ls[idx[k]][i] != NEWLINE);
    }
    lemma_lines_of_unlines(f);
    lemma_filter_twice(ls, pred);
}

} // verus!
