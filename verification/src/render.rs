//! Serialization into the intermediate text format.
//!
//! The document is an optional header line followed by one line per entry,
//! of the exact form ` word=<word>,f=<score>` (leading single space), each
//! ended by a newline, in entry order.

use vstd::prelude::*;
use vstd::arithmetic::div_mod::lemma_fundamental_div_mod;
use crate::parse::FreqError;
use crate::parse::FrequencyEntry;
use crate::parse::entry_views;
use crate::scale::scale_spec;
use crate::scale::divide_and_scale;

verus! {

/// Decimal digits of `n`, most significant first.
pub open spec fn dec_rep(n: nat) -> Seq<u8>
    decreases n,
{
    if n < 10 {
        seq![(48 + n) as u8]
    } else {
        dec_rep(n / 10).push((48 + n % 10) as u8)
    }
}

/// Renders a number in decimal.
pub fn u_to_dec(n: usize) -> (r: Vec<u8>)
    ensures
        r@ == dec_rep(n as nat),
    decreases n,
{
    if n < 10 {
        let mut r: Vec<u8> = Vec::new();
        r.push(48 + n as u8);
        proof {
            assert(r@ =~= dec_rep(n as nat));
        }
        r
    } else {
        let mut r = u_to_dec(n / 10);
        r.push(48 + (n % 10) as u8);
        proof {
            assert(r@ =~= dec_rep(n as nat));
        }
        r
    }
}

/// One line of the document, without its newline.
pub open spec fn line_core(word: Seq<u8>, score: nat) -> Seq<u8> {
    seq![32u8, 119u8, 111u8, 114u8, 100u8, 61u8] + word + seq![44u8, 102u8, 61u8] + dec_rep(
        score,
    )
}

/// One line of the document: ` word=<word>,f=<score>` and a newline.
pub open spec fn line_bytes(word: Seq<u8>, score: nat) -> Seq<u8> {
    line_core(word, score) + seq![10u8]
}

/// The document body: one line per pair, in order.
pub open spec fn doc_bytes(pairs: Seq<(Seq<u8>, nat)>) -> Seq<u8>
    decreases pairs.len(),
{
    if pairs.len() == 0 {
        Seq::empty()
    } else {
        line_bytes(pairs[0].0, pairs[0].1) + doc_bytes(pairs.skip(1))
    }
}

/// Appending a pair appends its line.
pub proof fn lemma_doc_bytes_push(pairs: Seq<(Seq<u8>, nat)>, p: (Seq<u8>, nat))
    ensures
        doc_bytes(pairs.push(p)) == doc_bytes(pairs) + line_bytes(p.0, p.1),
    decreases pairs.len(),
{
    if pairs.len() == 0 {
        assert(pairs.push(p)[0] == p);
        assert(pairs.push(p).skip(1) =~= Seq::<(Seq<u8>, nat)>::empty());
        assert(doc_bytes(Seq::<(Seq<u8>, nat)>::empty()) == Seq::<u8>::empty());
        assert(doc_bytes(pairs.push(p)) =~= doc_bytes(pairs) + line_bytes(p.0, p.1));
    } else {
        assert(pairs.push(p)[0] == pairs[0]);
        assert(pairs.push(p).skip(1) =~= pairs.skip(1).push(p));
        lemma_doc_bytes_push(pairs.skip(1), p);
        assert(line_bytes(pairs[0].0, pairs[0].1) + (doc_bytes(pairs.skip(1)) + line_bytes(
            p.0,
            p.1,
        )) =~= (line_bytes(pairs[0].0, pairs[0].1) + doc_bytes(pairs.skip(1))) + line_bytes(
            p.0,
            p.1,
        ));
    }
}

/// The entries' words, paired with their scores against total `total`.
pub open spec fn scaled_views(entries: Seq<(Seq<u8>, nat)>, total: nat) -> Seq<(Seq<u8>, nat)> {
    entries.map_values(|p: (Seq<u8>, nat)| (p.0, scale_spec(p.1, total)))
}

/// Sum of the raw counts.
pub open spec fn total_of(entries: Seq<(Seq<u8>, nat)>) -> nat
    decreases entries.len(),
{
    if entries.len() == 0 {
        0
    } else {
        total_of(entries.drop_last()) + entries.last().1
    }
}

/// A prefix never sums to more than the whole.
proof fn lemma_total_prefix_le(entries: Seq<(Seq<u8>, nat)>, i: int)
    requires
        0 <= i <= entries.len(),
    ensures
        total_of(entries.take(i)) <= total_of(entries),
    decreases entries.len() - i,
{
    if i == entries.len() {
        assert(entries.take(i) =~= entries);
    } else {
        lemma_total_prefix_le(entries, i + 1);
        let t = entries.take(i + 1);
        assert(t.drop_last() =~= entries.take(i));
        assert(t.last() == entries[i]);
    }
}

/// No single count exceeds the total.
proof fn lemma_total_elem_le(entries: Seq<(Seq<u8>, nat)>, i: int)
    requires
        0 <= i < entries.len(),
    ensures
        entries[i].1 <= total_of(entries),
    decreases entries.len(),
{
    if i == entries.len() - 1 {
        assert(entries.last() == entries[i]);
    } else {
        lemma_total_elem_le(entries.drop_last(), i);
        assert(entries.drop_last()[i] == entries[i]);
    }
}

/// The optional header, as bytes.
pub open spec fn opt_view(h: Option<&Vec<u8>>) -> Option<Seq<u8>> {
    match h {
        Some(v) => Some(v@),
        None => None,
    }
}

/// The document's leading bytes: the header line, if one was supplied.
pub open spec fn header_bytes(h: Option<Seq<u8>>) -> Seq<u8> {
    match h {
        Some(s) => s + seq![10u8],
        None => Seq::empty(),
    }
}

/// Appends all of `src` to `out`.
#[verifier::loop_isolation(false)]
fn append_bytes(out: &mut Vec<u8>, src: &Vec<u8>)
    ensures
        final(out)@ == old(out)@ + src@,
{
    let mut j: usize = 0;
    proof {
        assert(out@ =~= old(out)@ + src@.take(0));
    }
    while j < src.len()
        invariant
            j <= src@.len(),
            out@ == old(out)@ + src@.take(j as int),
        decreases src@.len() - j,
    {
        out.push(src[j]);
        proof {
            assert((old(out)@ + src@.take(j as int)).push(src@[j as int]) =~= old(out)@
                + src@.take(j + 1));
        }
        j = j + 1;
    }
    proof {
        assert(src@.take(src@.len() as int) =~= src@);
    }
}

/// Appends one document line for `word` with `score`.
#[verifier::rlimit(100)]
fn push_line(out: &mut Vec<u8>, word: &Vec<u8>, score: usize)
    ensures
        final(out)@ == old(out)@ + line_bytes(word@, score as nat),
{
    out.push(32);
    out.push(119);
    out.push(111);
    out.push(114);
    out.push(100);
    out.push(61);
    append_bytes(out, word);
    out.push(44);
    out.push(102);
    out.push(61);
    let digs = u_to_dec(score);
    append_bytes(out, &digs);
    out.push(10);
    proof {
        assert(out@ =~= old(out)@ + line_bytes(word@, score as nat));
    }
}

/// Renders the intermediate document: the optional header line, then one
/// line per entry, each count scored against the total of all counts.
///
/// The total must fit the machine word and reach at least 2, and every
/// count must be at least 1; otherwise the run fails with the matching
/// error and nothing is rendered.
#[verifier::loop_isolation(false)]
pub fn render_document(entries: &Vec<FrequencyEntry>, header: Option<&Vec<u8>>) -> (r: Result<
    Vec<u8>,
    FreqError,
>)
    ensures
        ({
            let ev = entry_views(entries@);
            match r {
                Ok(out) => 2 <= total_of(ev) <= usize::MAX as nat && (forall|i: int|
                    0 <= i < ev.len() ==> (#[trigger] ev[i]).1 >= 1) && out@ == header_bytes(
                    opt_view(header),
                ) + doc_bytes(scaled_views(ev, total_of(ev))),
                Err(e) => {
                    ||| (e == FreqError::TotalOverflow && total_of(ev) > usize::MAX as nat)
                    ||| (e == FreqError::Domain && total_of(ev) <= usize::MAX as nat && (
                    total_of(ev) <= 1 || exists|i: int|
                        0 <= i < ev.len() && (#[trigger] ev[i]).1 == 0))
                },
            }
        }),
{
    let ghost ev = entry_views(entries@);
    let mut tot: usize = 0;
    let mut i: usize = 0;
    proof {
        assert(ev.take(0) =~= Seq::<(Seq<u8>, nat)>::empty());
    }
    while i < entries.len()
        invariant
            i <= entries@.len(),
            tot == total_of(ev.take(i as int)),
        decreases entries@.len() - i,
    {
        let c = entries[i].count;
        proof {
            let t = ev.take(i + 1);
            assert(t.drop_last() =~= ev.take(i as int));
            assert(t.last() == ev[i as int]);
            assert(ev[i as int].1 == c);
        }
        if c > usize::MAX - tot {
            proof {
                lemma_total_prefix_le(ev, i + 1);
            }
            return Err(FreqError::TotalOverflow);
        }
        tot = tot + c;
        i = i + 1;
    }
    proof {
        assert(ev.take(entries@.len() as int) =~= ev);
    }
    if tot < 2 {
        return Err(FreqError::Domain);
    }
    let mut out: Vec<u8> = Vec::new();
    match header {
        Some(h) => {
            append_bytes(&mut out, h);
            out.push(10);
            proof {
                assert(out@ =~= header_bytes(opt_view(header)));
            }
        },
        None => {
            proof {
                assert(out@ =~= header_bytes(opt_view(header)));
            }
        },
    }
    let ghost sv = scaled_views(ev, tot as nat);
    let mut i: usize = 0;
    proof {
        assert(sv.take(0) =~= Seq::<(Seq<u8>, nat)>::empty());
        assert(out@ =~= header_bytes(opt_view(header)) + doc_bytes(sv.take(0)));
    }
    while i < entries.len()
        invariant
            i <= entries@.len(),
            forall|t: int| 0 <= t < i ==> (#[trigger] ev[t]).1 >= 1,
            out@ == header_bytes(opt_view(header)) + doc_bytes(sv.take(i as int)),
        decreases entries@.len() - i,
    {
        let c = entries[i].count;
        proof {
            assert(ev[i as int].1 == c);
        }
        if c == 0 {
            return Err(FreqError::Domain);
        }
        proof {
            lemma_total_elem_le(ev, i as int);
        }
        let score = divide_and_scale(c, tot);
        push_line(&mut out, &entries[i].word, score);
        proof {
            assert(sv[i as int] == (ev[i as int].0, scale_spec(c as nat, tot as nat)));
            assert(sv.take(i + 1) =~= sv.take(i as int).push(sv[i as int]));
            lemma_doc_bytes_push(sv.take(i as int), sv[i as int]);
            assert(out@ =~= header_bytes(opt_view(header)) + doc_bytes(sv.take(i + 1)));
        }
        i = i + 1;
    }
    proof {
        assert(sv.take(entries@.len() as int) =~= sv);
    }
    Ok(out)
}

} // verus!
