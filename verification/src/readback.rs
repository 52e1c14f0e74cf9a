//! A reader for the intermediate format, and the round-trip law.
//!
//! Words go into the document unescaped, so a reader can only be exact for
//! words free of the two delimiter bytes, newline and comma; for those,
//! serializing and reading back recovers every pair, in order.

use vstd::prelude::*;
use vstd::arithmetic::div_mod::lemma_fundamental_div_mod;
use vstd::arithmetic::div_mod::lemma_mod_division_less_than_divisor;
use crate::parse::first_idx;
use crate::parse::lemma_first_idx_is;
use crate::parse::is_count_digits;
use crate::parse::digits_val;
use crate::parse::split_lines;
use crate::render::dec_rep;
use crate::render::line_core;
use crate::render::line_bytes;
use crate::render::doc_bytes;

verus! {

/// A word that the line format can carry exactly: no newline, no comma.
pub open spec fn word_clean(w: Seq<u8>) -> bool {
    forall|j: int| 0 <= j < w.len() ==> #[trigger] w[j] != 10 && w[j] != 44
}

/// Reads one line (without its newline) back into a pair.
pub open spec fn read_line(line: Seq<u8>) -> Option<(Seq<u8>, nat)> {
    if line.len() < 6 || line.take(6) != seq![32u8, 119u8, 111u8, 114u8, 100u8, 61u8] {
        None
    } else {
        let body = line.skip(6);
        let ci = first_idx(body, 44) as int;
        if ci == body.len() {
            None
        } else {
            let word = body.take(ci);
            let after = body.skip(ci + 1);
            if after.len() >= 2 && after[0] == 102 && after[1] == 61 && is_count_digits(
                after.skip(2),
            ) {
                Some((word, digits_val(after.skip(2))))
            } else {
                None
            }
        }
    }
}

/// Reads a sequence of lines back into pairs; any bad line spoils all.
pub open spec fn read_lines(lines: Seq<Seq<u8>>) -> Option<Seq<(Seq<u8>, nat)>>
    decreases lines.len(),
{
    if lines.len() == 0 {
        Some(Seq::empty())
    } else {
        match read_line(lines[0]) {
            None => None,
            Some(p) => match read_lines(lines.skip(1)) {
                None => None,
                Some(r) => Some(seq![p] + r),
            },
        }
    }
}

/// Reads a whole document body back into pairs.
pub open spec fn read_doc(doc: Seq<u8>) -> Option<Seq<(Seq<u8>, nat)>> {
    let lines = split_lines(doc);
    if lines.last().len() == 0 {
        read_lines(lines.drop_last())
    } else {
        None
    }
}

/// The lines a pair sequence renders to, without their newlines.
pub open spec fn line_cores(pairs: Seq<(Seq<u8>, nat)>) -> Seq<Seq<u8>> {
    pairs.map_values(|p: (Seq<u8>, nat)| line_core(p.0, p.1))
}

/// The decimal digits of a number are digits, denote it, and contain no
/// delimiter.
proof fn lemma_dec_rep_digits(n: nat)
    ensures
        is_count_digits(dec_rep(n)),
        digits_val(dec_rep(n)) == n,
    decreases n,
{
    if n < 10 {
        let s = dec_rep(n);
        assert(s.drop_last() =~= Seq::<u8>::empty());
        assert(digits_val(Seq::<u8>::empty()) == 0);
    } else {
        lemma_dec_rep_digits(n / 10);
        let s = dec_rep(n);
        assert(s.drop_last() =~= dec_rep(n / 10));
        assert(s.last() == (48 + n % 10) as u8);
        lemma_fundamental_div_mod(n as int, 10);
        lemma_mod_division_less_than_divisor(n as int, 10);
        assert forall|j: int| 0 <= j < s.len() implies 48 <= #[trigger] s[j] <= 57 by {
            if j < s.len() - 1 {
                assert(s[j] == dec_rep(n / 10)[j]);
            }
        }
    }
}

/// The first occurrence of `c` in `a + b` is at `a.len()` when `a` avoids
/// `c` and `b` opens with it.
proof fn lemma_first_idx_concat(a: Seq<u8>, b: Seq<u8>, c: u8)
    requires
        forall|j: int| 0 <= j < a.len() ==> #[trigger] a[j] != c,
        b.len() > 0,
        b[0] == c,
    ensures
        first_idx(a + b, c) == a.len(),
{
    let s = a + b;
    assert forall|j: int| 0 <= j < a.len() implies s[j] != c by {
        assert(s[j] == a[j]);
    }
    assert(s[a.len() as int] == b[0]);
    lemma_first_idx_is(s, c, a.len());
}

/// A rendered line core holds no newline.
proof fn lemma_line_core_no_newline(w: Seq<u8>, s: nat)
    requires
        word_clean(w),
    ensures
        forall|j: int| 0 <= j < line_core(w, s).len() ==> #[trigger] line_core(w, s)[j] != 10,
{
    lemma_dec_rep_digits(s);
    let lc = line_core(w, s);
    assert forall|j: int| 0 <= j < lc.len() implies #[trigger] lc[j] != 10 by {
        if j < 6 {
        } else if j < 6 + w.len() {
            assert(lc[j] == w[j - 6]);
        } else if j < 6 + w.len() + 3 {
        } else {
            assert(lc[j] == dec_rep(s)[j - 6 - w.len() - 3]);
        }
    }
}

/// Reading back one rendered line core recovers its pair.
proof fn lemma_read_line(w: Seq<u8>, s: nat)
    requires
        word_clean(w),
    ensures
        read_line(line_core(w, s)) == Some((w, s)),
{
    lemma_dec_rep_digits(s);
    let lc = line_core(w, s);
    assert(lc.take(6) =~= seq![32u8, 119u8, 111u8, 114u8, 100u8, 61u8]);
    let body = lc.skip(6);
    let tail = seq![44u8, 102u8, 61u8] + dec_rep(s);
    assert(body =~= w + tail);
    lemma_first_idx_concat(w, tail, 44);
    let ci = first_idx(body, 44) as int;
    assert(ci == w.len());
    assert(body.take(ci) =~= w);
    let after = body.skip(ci + 1);
    assert(after =~= seq![102u8, 61u8] + dec_rep(s));
    assert(after[0] == 102 && after[1] == 61);
    assert(after.skip(2) =~= dec_rep(s));
}

/// Splitting a rendered document yields the line cores and a final empty
/// line.
proof fn lemma_split_doc(pairs: Seq<(Seq<u8>, nat)>)
    requires
        forall|i: int| 0 <= i < pairs.len() ==> word_clean((#[trigger] pairs[i]).0),
    ensures
        split_lines(doc_bytes(pairs)) == line_cores(pairs) + seq![Seq::<u8>::empty()],
    decreases pairs.len(),
{
    if pairs.len() == 0 {
        assert(doc_bytes(pairs) == Seq::<u8>::empty());
        assert(first_idx(Seq::<u8>::empty(), 10) == 0);
        assert(split_lines(doc_bytes(pairs)) =~= line_cores(pairs) + seq![Seq::<u8>::empty()]);
    } else {
        let p = pairs[0];
        let lc = line_core(p.0, p.1);
        let rest = pairs.skip(1);
        let doc = doc_bytes(pairs);
        let rest_doc = doc_bytes(rest);
        assert(doc == line_bytes(p.0, p.1) + rest_doc);
        assert(doc =~= lc + (seq![10u8] + rest_doc));
        lemma_line_core_no_newline(p.0, p.1);
        lemma_first_idx_concat(lc, seq![10u8] + rest_doc, 10);
        let i = first_idx(doc, 10) as int;
        assert(i == lc.len());
        assert(doc.take(i) =~= lc);
        assert(doc.skip(i + 1) =~= rest_doc);
        assert forall|k: int| 0 <= k < rest.len() implies word_clean(
            (#[trigger] rest[k]).0,
        ) by {
            assert(rest[k] == pairs[k + 1]);
        }
        lemma_split_doc(rest);
        assert(split_lines(doc) == seq![lc] + (line_cores(rest) + seq![Seq::<u8>::empty()]));
        assert forall|k: int| 0 <= k < rest.len() implies line_cores(rest)[k] == line_cores(
            pairs,
        )[k + 1] by {
            assert(rest[k] == pairs[k + 1]);
        }
        assert(seq![lc] + (line_cores(rest) + seq![Seq::<u8>::empty()]) =~= line_cores(pairs)
            + seq![Seq::<u8>::empty()]);
    }
}

/// Reading back the rendered line cores recovers all pairs.
proof fn lemma_read_lines(pairs: Seq<(Seq<u8>, nat)>)
    requires
        forall|i: int| 0 <= i < pairs.len() ==> word_clean((#[trigger] pairs[i]).0),
    ensures
        read_lines(line_cores(pairs)) == Some(pairs),
    decreases pairs.len(),
{
    let lines = line_cores(pairs);
    if pairs.len() == 0 {
        assert(lines.len() == 0);
    } else {
        let p = pairs[0];
        assert(lines[0] == line_core(p.0, p.1));
        lemma_read_line(p.0, p.1);
        let rest = pairs.skip(1);
        assert forall|k: int| 0 <= k < rest.len() implies word_clean(
            (#[trigger] rest[k]).0,
        ) by {
            assert(rest[k] == pairs[k + 1]);
        }
        lemma_read_lines(rest);
        assert(lines.skip(1) =~= line_cores(rest)) by {
            assert forall|k: int| 0 <= k < rest.len() implies lines.skip(1)[k] == line_cores(
                rest,
            )[k] by {
                assert(rest[k] == pairs[k + 1]);
                assert(lines.skip(1)[k] == lines[k + 1]);
            }
        }
        assert(seq![p] + rest =~= pairs);
    }
}

/// Round trip: serializing pairs whose words are free of newline and comma
/// and reading the document back recovers the same pairs in the same order.
pub proof fn lemma_round_trip(pairs: Seq<(Seq<u8>, nat)>)
    requires
        forall|i: int| 0 <= i < pairs.len() ==> word_clean((#[trigger] pairs[i]).0),
    ensures
        read_doc(doc_bytes(pairs)) == Some(pairs),
{
    lemma_split_doc(pairs);
    let lines = split_lines(doc_bytes(pairs));
    assert(lines.last().len() == 0);
    assert(lines.drop_last() =~= line_cores(pairs));
    lemma_read_lines(pairs);
}

} // verus!
