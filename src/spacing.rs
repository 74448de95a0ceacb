//! Blanks between tokens: inserting them at a token boundary changes nothing
//! that the scanner reports.
use vstd::prelude::*;

use crate::lexer::{
    byte_at, digits_end, is_blank, is_digit_byte, is_letter_byte, letters_end, lemma_blanks_skipped,
    lemma_runs_bounded, lemma_scan_bounds,
    scan, skip_blanks, tokens, TokenKind,
};

verus! {

/// `s` with the bytes `w` inserted at position `k`.
pub open spec fn insert_at(s: Seq<u8>, k: int, w: Seq<u8>) -> Seq<u8> {
    s.take(k) + w + s.skip(k)
}

pub open spec fn all_blank(w: Seq<u8>) -> bool {
    forall|i: int| 0 <= i < w.len() ==> is_blank(#[trigger] w[i])
}

/// Position `k` lies between two tokens of the stream that starts at `p`:
/// it is inside the blanks before a token, or after a token that ends at or
/// before it and from whose end `k` is again such a position.
pub open spec fn is_boundary(s: Seq<u8>, p: int, k: int) -> bool
    decreases k - p,
{
    if k <= skip_blanks(s, p) {
        p <= k
    } else {
        let n = scan(s, p).1;
        p < n <= k && is_boundary(s, n, k)
    }
}

proof fn lemma_bytes(s: Seq<u8>, k: int, w: Seq<u8>)
    requires
        0 <= k <= s.len(),
    ensures
        forall|i: int| 0 <= i < k ==> #[trigger] byte_at(insert_at(s, k, w), i) == byte_at(s, i),
        forall|i: int|
            k <= i < k + w.len() ==> #[trigger] byte_at(insert_at(s, k, w), i) == w[i - k],
        forall|i: int|
            k <= i ==> #[trigger] byte_at(insert_at(s, k, w), i + w.len()) == byte_at(s, i),
        insert_at(s, k, w).len() == s.len() + w.len(),
{
    let t = insert_at(s, k, w);
    assert forall|i: int| k <= i implies #[trigger] byte_at(t, i + w.len()) == byte_at(s, i) by {
        if i < s.len() {
            assert(t[i + w.len()] == s.skip(k)[i - k]);
        }
    }
}

proof fn lemma_runs_shift(s: Seq<u8>, k: int, w: Seq<u8>, i: int)
    requires
        0 <= k <= i <= s.len(),
    ensures
        skip_blanks(insert_at(s, k, w), i + w.len()) == skip_blanks(s, i) + w.len(),
        letters_end(insert_at(s, k, w), i + w.len()) == letters_end(s, i) + w.len(),
        digits_end(insert_at(s, k, w), i + w.len()) == digits_end(s, i) + w.len(),
    decreases s.len() - i,
{
    lemma_bytes(s, k, w);
    let t = insert_at(s, k, w);
    assert(byte_at(t, i + w.len()) == byte_at(s, i));
    if i < s.len() {
        lemma_runs_shift(s, k, w, i + 1);
    }
}

proof fn lemma_runs_before(s: Seq<u8>, k: int, w: Seq<u8>, i: int)
    requires
        0 <= i <= k <= s.len(),
        all_blank(w),
    ensures
        letters_end(s, i) <= k ==> letters_end(insert_at(s, k, w), i) == letters_end(s, i),
        digits_end(s, i) <= k ==> digits_end(insert_at(s, k, w), i) == digits_end(s, i),
        skip_blanks(s, i) < k ==> skip_blanks(insert_at(s, k, w), i) == skip_blanks(s, i),
        skip_blanks(s, i) >= k ==> skip_blanks(insert_at(s, k, w), i) == skip_blanks(s, k)
            + w.len() && skip_blanks(s, i) == skip_blanks(s, k),
    decreases k - i + w.len(),
{
    lemma_bytes(s, k, w);
    let t = insert_at(s, k, w);
    lemma_runs_shift(s, k, w, k);
    if i < k {
        assert(byte_at(t, i) == byte_at(s, i));
        lemma_runs_before(s, k, w, i + 1);
        lemma_runs_bounded(s, i + 1);
    } else {
        lemma_blanks_through(s, k, w, 0);
        lemma_runs_bounded(s, k);
        if w.len() == 0 {
            assert(t =~= s);
        }
    }
}

proof fn lemma_blanks_through(s: Seq<u8>, k: int, w: Seq<u8>, j: int)
    requires
        0 <= k <= s.len(),
        0 <= j <= w.len(),
        all_blank(w),
    ensures
        skip_blanks(insert_at(s, k, w), k + j) == skip_blanks(s, k) + w.len(),
        w.len() > 0 ==> letters_end(insert_at(s, k, w), k) == k,
        w.len() > 0 ==> digits_end(insert_at(s, k, w), k) == k,
    decreases w.len() - j,
{
    lemma_bytes(s, k, w);
    lemma_runs_shift(s, k, w, k);
    let t = insert_at(s, k, w);
    if j < w.len() {
        assert(byte_at(t, k + j) == w[j]);
        lemma_blanks_through(s, k, w, j + 1);
    }
    if w.len() > 0 {
        assert(byte_at(t, k) == w[0]);
    }
}

proof fn lemma_text_same(s: Seq<u8>, k: int, w: Seq<u8>, q: int, e: int)
    requires
        0 <= q <= e <= k <= s.len(),
    ensures
        insert_at(s, k, w).subrange(q, e) == s.subrange(q, e),
{
    assert(insert_at(s, k, w).subrange(q, e) =~= s.subrange(q, e));
}

proof fn lemma_text_shift(s: Seq<u8>, k: int, w: Seq<u8>, q: int, e: int)
    requires
        0 <= k <= q <= e <= s.len(),
    ensures
        insert_at(s, k, w).subrange(q + w.len(), e + w.len()) == s.subrange(q, e),
{
    lemma_bytes(s, k, w);
    let t = insert_at(s, k, w);
    assert forall|i: int| 0 <= i < e - q implies #[trigger] t.subrange(
        q + w.len(),
        e + w.len(),
    )[i] == s.subrange(q, e)[i] by {
        assert(byte_at(t, q + i + w.len()) == byte_at(s, q + i));
    }
    assert(t.subrange(q + w.len(), e + w.len()) =~= s.subrange(q, e));
}

/// After the insertion point, the scanner reads the same tokens, shifted.
proof fn lemma_scan_shift(s: Seq<u8>, k: int, w: Seq<u8>, p: int)
    requires
        0 <= k <= p <= s.len(),
    ensures
        scan(insert_at(s, k, w), p + w.len()).0 == scan(s, p).0,
        scan(insert_at(s, k, w), p + w.len()).1 == scan(s, p).1 + w.len(),
{
    lemma_bytes(s, k, w);
    lemma_runs_shift(s, k, w, p);
    lemma_scan_bounds(s, p);
    let q = skip_blanks(s, p);
    lemma_runs_bounded(s, p);
    lemma_runs_shift(s, k, w, q);
    let t = insert_at(s, k, w);
    assert(byte_at(t, q + w.len()) == byte_at(s, q));
    assert(byte_at(t, q + 1 + w.len()) == byte_at(s, q + 1));
    if is_letter_byte(byte_at(s, q)) {
        lemma_runs_bounded(s, q);
        lemma_text_shift(s, k, w, q, letters_end(s, q));
    }
    if is_digit_byte(byte_at(s, q)) {
        lemma_runs_bounded(s, q);
        lemma_text_shift(s, k, w, q, digits_end(s, q));
    }
}

proof fn lemma_tokens_shift(s: Seq<u8>, k: int, w: Seq<u8>, p: int)
    requires
        0 <= k <= p <= s.len(),
    ensures
        tokens(insert_at(s, k, w), p + w.len()) == tokens(s, p),
    decreases s.len() - p,
{
    lemma_bytes(s, k, w);
    lemma_scan_shift(s, k, w, p);
    lemma_scan_bounds(s, p);
    lemma_scan_bounds(insert_at(s, k, w), p + w.len());
    let (t, n) = scan(s, p);
    if t.kind != TokenKind::EoF {
        lemma_tokens_shift(s, k, w, n);
    }
}

/// Before the insertion point, a token that ends at or before it is read
/// the same.
proof fn lemma_scan_before(s: Seq<u8>, k: int, w: Seq<u8>, p: int)
    requires
        0 <= p <= k <= s.len(),
        all_blank(w),
        skip_blanks(s, p) < k,
        scan(s, p).1 <= k,
    ensures
        scan(insert_at(s, k, w), p) == scan(s, p),
{
    lemma_bytes(s, k, w);
    lemma_runs_before(s, k, w, p);
    let q = skip_blanks(s, p);
    lemma_runs_bounded(s, p);
    lemma_runs_before(s, k, w, q);
    lemma_runs_bounded(s, q);
    let t = insert_at(s, k, w);
    assert(byte_at(t, q) == byte_at(s, q));
    if q + 1 < k {
        assert(byte_at(t, q + 1) == byte_at(s, q + 1));
    } else if w.len() > 0 {
        assert(byte_at(t, k) == w[0]);
    } else {
        lemma_runs_shift(s, k, w, k);
        assert(byte_at(t, k + w.len()) == byte_at(s, k));
    }
    if is_letter_byte(byte_at(s, q)) {
        lemma_text_same(s, k, w, q, letters_end(s, q));
    }
    if is_digit_byte(byte_at(s, q)) {
        lemma_text_same(s, k, w, q, digits_end(s, q));
    }
}

proof fn lemma_tokens_skip_blanks(s: Seq<u8>, p: int)
    requires
        0 <= p <= s.len(),
    ensures
        tokens(s, p) == tokens(s, skip_blanks(s, p)),
{
    lemma_blanks_skipped(s, p);
}

/// Blanks inserted at a boundary between tokens leave the token stream as it
/// was: `let x=5;` and `let   x = 5;` read alike.
pub proof fn lemma_blanks_between_tokens(s: Seq<u8>, k: int, w: Seq<u8>)
    requires
        0 <= k <= s.len(),
        all_blank(w),
        is_boundary(s, 0, k),
    ensures
        tokens(insert_at(s, k, w), 0) == tokens(s, 0),
{
    lemma_blanks_between_from(s, k, w, 0);
}

proof fn lemma_blanks_between_from(s: Seq<u8>, k: int, w: Seq<u8>, p: int)
    requires
        0 <= p <= k <= s.len(),
        all_blank(w),
        is_boundary(s, p, k),
    ensures
        tokens(insert_at(s, k, w), p) == tokens(s, p),
    decreases k - p,
{
    let t = insert_at(s, k, w);
    lemma_bytes(s, k, w);
    lemma_runs_before(s, k, w, p);
    lemma_runs_bounded(s, p);
    lemma_scan_bounds(s, p);
    if k <= skip_blanks(s, p) {
        lemma_runs_bounded(s, k);
        lemma_tokens_skip_blanks(s, p);
        lemma_tokens_skip_blanks(s, k);
        lemma_tokens_skip_blanks(t, p);
        lemma_tokens_skip_blanks(t, k + w.len());
        lemma_runs_shift(s, k, w, k);
        lemma_tokens_shift(s, k, w, k);
    } else {
        let (tok, n) = scan(s, p);
        lemma_scan_before(s, k, w, p);
        lemma_scan_bounds(t, p);
        if tok.kind != TokenKind::EoF {
            lemma_blanks_between_from(s, k, w, n);
        }
    }
}

} // verus!
