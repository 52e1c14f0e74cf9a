//! Parsing and filtering of the raw corpus.
//!
//! The corpus is newline-separated lines of `<word><space><count>`.  A line
//! whose word is empty — or, when a reference set is supplied, whose word is
//! not in that set — is dropped silently.  A kept line that lacks a count
//! field, or whose count field is not a number fitting the machine word, is
//! a fatal input-format error.

use vstd::prelude::*;
use vstd::arithmetic::div_mod::lemma_fundamental_div_mod;
use vstd::arithmetic::div_mod::lemma_mod_division_less_than_divisor;

verus! {

/// The fatal errors of the pipeline.  I/O failures and the downstream
/// compiler invocation happen outside the library and are reported there.
#[derive(Debug, PartialEq, Eq, Structural, Clone, Copy)]
pub enum FreqError {
    /// A kept corpus line cannot be split into word and count, or its count
    /// is not a decimal number that fits the machine word.
    InputFormat,
    /// Scaling would take an undefined logarithm: a zero raw count, or a
    /// corpus total of at most one.
    Domain,
    /// The corpus counts sum past the machine word.
    TotalOverflow,
}

/// One parsed corpus entry.
#[derive(Debug, PartialEq, Eq)]
pub struct FrequencyEntry {
    pub word: Vec<u8>,
    pub count: usize,
}

impl View for FrequencyEntry {
    type V = (Seq<u8>, nat);

    open spec fn view(&self) -> (Seq<u8>, nat) {
        (self.word@, self.count as nat)
    }
}

/// The entries of a vector, as their mathematical views.
pub open spec fn entry_views(v: Seq<FrequencyEntry>) -> Seq<(Seq<u8>, nat)> {
    v.map_values(|e: FrequencyEntry| e@)
}

/// The optional reference set, as a sequence of words.
pub open spec fn ref_view(refset: Option<&Vec<Vec<u8>>>) -> Option<Seq<Seq<u8>>> {
    match refset {
        Some(v) => Some(v@.map_values(|w: Vec<u8>| w@)),
        None => None,
    }
}

/// Index of the first occurrence of `b` in `s`, or `s.len()` if absent.
pub open spec fn first_idx(s: Seq<u8>, b: u8) -> nat
    decreases s.len(),
{
    if s.len() == 0 {
        0
    } else if s[0] == b {
        0
    } else {
        1 + first_idx(s.skip(1), b)
    }
}

/// What `first_idx` returns: the position of the first hit.
pub proof fn lemma_first_idx(s: Seq<u8>, b: u8)
    ensures
        first_idx(s, b) <= s.len(),
        forall|j: int| 0 <= j < first_idx(s, b) ==> s[j] != b,
        first_idx(s, b) < s.len() ==> s[first_idx(s, b) as int] == b,
    decreases s.len(),
{
    if s.len() == 0 {
    } else if s[0] == b {
    } else {
        lemma_first_idx(s.skip(1), b);
        assert forall|j: int| 0 <= j < first_idx(s, b) implies s[j] != b by {
            if j > 0 {
                assert(s.skip(1)[j - 1] == s[j]);
            }
        }
        if first_idx(s, b) < s.len() {
            assert(s.skip(1)[first_idx(s.skip(1), b) as int] == s[first_idx(s, b) as int]);
        }
    }
}

/// A position before which `b` does not occur, and at which it does (or the
/// end), is exactly `first_idx`.
pub proof fn lemma_first_idx_is(s: Seq<u8>, b: u8, i: nat)
    requires
        i <= s.len(),
        forall|j: int| 0 <= j < i ==> s[j] != b,
        i < s.len() ==> s[i as int] == b,
    ensures
        first_idx(s, b) == i,
    decreases s.len(),
{
    if s.len() == 0 {
    } else if s[0] == b {
        if i > 0 {
            assert(s[0] != b);
        }
    } else {
        assert(i > 0) by {
            if i == 0 {
                assert(s[0] == b);
            }
        }
        assert forall|j: int| 0 <= j < i - 1 implies s.skip(1)[j] != b by {
            assert(s.skip(1)[j] == s[j + 1]);
        }
        if i - 1 < s.len() - 1 {
            assert(s.skip(1)[i - 1] == s[i as int]);
        }
        lemma_first_idx_is(s.skip(1), b, (i - 1) as nat);
    }
}

/// The corpus, split at every newline; a trailing newline yields a final
/// empty line, as the line-oriented text format has it.
pub open spec fn split_lines(s: Seq<u8>) -> Seq<Seq<u8>>
    decreases s.len(),
{
    let i = first_idx(s, 10) as int;
    if i == s.len() {
        seq![s]
    } else {
        proof {
            lemma_first_idx(s, 10);
        }
        seq![s.take(i)] + split_lines(s.skip(i + 1))
    }
}

/// The word of a line: everything before the first space.
pub open spec fn line_word(line: Seq<u8>) -> Seq<u8> {
    line.take(first_idx(line, 32) as int)
}

/// Whether a line survives filtering: its word is non-empty and, when a
/// reference set is given, a member of it.
pub open spec fn line_kept(line: Seq<u8>, rs: Option<Seq<Seq<u8>>>) -> bool {
    line_word(line).len() > 0 && match rs {
        Some(r) => r.contains(line_word(line)),
        None => true,
    }
}

/// The count field of a line: between the first space and the next space or
/// the end; absent when the line has no space at all.
pub open spec fn line_count_field(line: Seq<u8>) -> Option<Seq<u8>> {
    let i = first_idx(line, 32) as int;
    if i == line.len() {
        None
    } else {
        let rest = line.skip(i + 1);
        Some(rest.take(first_idx(rest, 32) as int))
    }
}

/// A non-empty run of decimal digits.
pub open spec fn is_count_digits(s: Seq<u8>) -> bool {
    s.len() > 0 && forall|j: int| 0 <= j < s.len() ==> 48 <= #[trigger] s[j] <= 57
}

/// The number denoted by a run of decimal digits.
pub open spec fn digits_val(s: Seq<u8>) -> nat
    decreases s.len(),
{
    if s.len() == 0 {
        0
    } else {
        digits_val(s.drop_last()) * 10 + (s.last() - 48) as nat
    }
}

/// Whether a kept line parses: it has a count field of digits whose value
/// fits the machine word.
pub open spec fn line_ok(line: Seq<u8>) -> bool {
    match line_count_field(line) {
        Some(cf) => is_count_digits(cf) && digits_val(cf) <= usize::MAX as nat,
        None => false,
    }
}

/// The entry a kept, well-formed line denotes.
pub open spec fn line_entry(line: Seq<u8>) -> (Seq<u8>, nat) {
    (line_word(line), digits_val(line_count_field(line).unwrap()))
}

/// The entries of the kept lines, in line order.
pub open spec fn freq_entries(lines: Seq<Seq<u8>>, rs: Option<Seq<Seq<u8>>>) -> Seq<
    (Seq<u8>, nat),
>
    decreases lines.len(),
{
    if lines.len() == 0 {
        Seq::empty()
    } else {
        let rest = freq_entries(lines.skip(1), rs);
        if line_kept(lines[0], rs) {
            seq![line_entry(lines[0])] + rest
        } else {
            rest
        }
    }
}

/// Every kept line parses.
pub open spec fn lines_ok(lines: Seq<Seq<u8>>, rs: Option<Seq<Seq<u8>>>) -> bool {
    forall|i: int|
        0 <= i < lines.len() && line_kept(#[trigger] lines[i], rs) ==> line_ok(lines[i])
}

/// Stability of filtering: a further corpus line appends its entry, if the
/// line is kept, and touches nothing else — so the entries stand in input
/// line order, whatever the counts are.
pub proof fn lemma_entries_stable(lines: Seq<Seq<u8>>, rs: Option<Seq<Seq<u8>>>, l: Seq<u8>)
    ensures
        freq_entries(lines.push(l), rs) == if line_kept(l, rs) {
            freq_entries(lines, rs).push(line_entry(l))
        } else {
            freq_entries(lines, rs)
        },
    decreases lines.len(),
{
    if lines.len() == 0 {
        assert(lines.push(l)[0] == l);
        assert(lines.push(l).skip(1) =~= Seq::<Seq<u8>>::empty());
        assert(freq_entries(Seq::<Seq<u8>>::empty(), rs) == Seq::<(Seq<u8>, nat)>::empty());
        if line_kept(l, rs) {
            assert(freq_entries(lines.push(l), rs) =~= freq_entries(lines, rs).push(
                line_entry(l),
            ));
        }
    } else {
        assert(lines.push(l)[0] == lines[0]);
        assert(lines.push(l).skip(1) =~= lines.skip(1).push(l));
        lemma_entries_stable(lines.skip(1), rs, l);
        if line_kept(lines[0], rs) && line_kept(l, rs) {
            assert(seq![line_entry(lines[0])] + freq_entries(lines.skip(1), rs).push(
                line_entry(l),
            ) =~= (seq![line_entry(lines[0])] + freq_entries(lines.skip(1), rs)).push(
                line_entry(l),
            ));
        }
    }
}

/// Peeling the first line off `freq_entries` and `lines_ok`.
proof fn lemma_entries_cons(l: Seq<u8>, rest: Seq<Seq<u8>>, rs: Option<Seq<Seq<u8>>>)
    ensures
        line_kept(l, rs) ==> freq_entries(seq![l] + rest, rs) == seq![line_entry(l)]
            + freq_entries(rest, rs),
        !line_kept(l, rs) ==> freq_entries(seq![l] + rest, rs) == freq_entries(rest, rs),
        lines_ok(seq![l] + rest, rs) <==> ((line_kept(l, rs) ==> line_ok(l)) && lines_ok(
            rest,
            rs,
        )),
{
    let ls = seq![l] + rest;
    assert(ls[0] == l);
    assert(ls.skip(1) =~= rest);
    if lines_ok(ls, rs) {
        assert(line_kept(l, rs) ==> line_ok(l)) by {
            assert(ls[0] == l);
        }
        assert forall|i: int| 0 <= i < rest.len() && line_kept(#[trigger] rest[i], rs) implies
            line_ok(rest[i]) by {
            assert(ls[i + 1] == rest[i]);
        }
    }
    if (line_kept(l, rs) ==> line_ok(l)) && lines_ok(rest, rs) {
        assert forall|i: int| 0 <= i < ls.len() && line_kept(#[trigger] ls[i], rs) implies line_ok(
            ls[i],
        ) by {
            if i == 0 {
                assert(ls[0] == l);
            } else {
                assert(ls[i] == rest[i - 1]);
            }
        }
    }
}

/// A digit prefix never denotes more than the whole run.
proof fn lemma_digits_prefix_le(s: Seq<u8>, i: int)
    requires
        0 <= i <= s.len(),
    ensures
        digits_val(s.take(i)) <= digits_val(s),
    decreases s.len() - i,
{
    if i == s.len() {
        assert(s.take(i) =~= s);
    } else {
        lemma_digits_prefix_le(s, i + 1);
        let t = s.take(i + 1);
        assert(t.drop_last() =~= s.take(i));
        assert(t.last() == s[i]);
    }
}

/// Mapping to views commutes with appending an entry.
proof fn lemma_entry_views_push(v: Seq<FrequencyEntry>, e: FrequencyEntry)
    ensures
        entry_views(v.push(e)) == entry_views(v).push(e@),
{
    assert(entry_views(v.push(e)) =~= entry_views(v).push(e@));
}

/// First position of `b` in `v[from..to]`, or `to` if absent there.
fn find_byte(v: &Vec<u8>, from: usize, to: usize, b: u8) -> (r: usize)
    requires
        from <= to <= v@.len(),
    ensures
        from <= r <= to,
        r - from == first_idx(v@.subrange(from as int, to as int), b),
{
    let mut j = from;
    while j < to && v[j] != b
        invariant
            from <= j <= to,
            to <= v@.len(),
            forall|t: int| from <= t < j ==> v@[t] != b,
        decreases to - j,
    {
        j = j + 1;
    }
    proof {
        let sub = v@.subrange(from as int, to as int);
        assert forall|t: int| 0 <= t < j - from implies sub[t] != b by {
            assert(sub[t] == v@[from + t]);
        }
        if j < to {
            assert(sub[j - from] == v@[j as int]);
        }
        lemma_first_idx_is(sub, b, (j - from) as nat);
    }
    j
}

/// A fresh copy of `v[from..to]`.
fn subvec(v: &Vec<u8>, from: usize, to: usize) -> (r: Vec<u8>)
    requires
        from <= to <= v@.len(),
    ensures
        r@ == v@.subrange(from as int, to as int),
{
    let mut r: Vec<u8> = Vec::new();
    let mut j = from;
    proof {
        assert(r@ =~= v@.subrange(from as int, from as int));
    }
    while j < to
        invariant
            from <= j <= to,
            to <= v@.len(),
            r@ == v@.subrange(from as int, j as int),
        decreases to - j,
    {
        r.push(v[j]);
        proof {
            assert(r@ =~= v@.subrange(from as int, j + 1));
        }
        j = j + 1;
    }
    r
}

/// Whether `a` equals `v[from..to]` byte for byte.
#[verifier::loop_isolation(false)]
fn range_eq(a: &Vec<u8>, v: &Vec<u8>, from: usize, to: usize) -> (r: bool)
    requires
        from <= to <= v@.len(),
    ensures
        r == (a@ == v@.subrange(from as int, to as int)),
{
    let ghost sub = v@.subrange(from as int, to as int);
    if a.len() != to - from {
        return false;
    }
    let mut j: usize = 0;
    while j < a.len()
        invariant
            j <= a@.len(),
            a@.len() == to - from,
            from <= to <= v@.len(),
            forall|t: int| 0 <= t < j ==> a@[t] == v@[from + t],
        decreases a@.len() - j,
    {
        if a[j] != v[from + j] {
            proof {
                assert(sub[j as int] == v@[from + j]);
            }
            return false;
        }
        j = j + 1;
    }
    proof {
        assert forall|t: int| 0 <= t < sub.len() implies a@[t] == sub[t] by {
            assert(sub[t] == v@[from + t]);
        }
        assert(a@ =~= sub);
    }
    true
}

/// Whether any word of the set equals `v[from..to]`.
fn set_contains(set: &Vec<Vec<u8>>, v: &Vec<u8>, from: usize, to: usize) -> (r: bool)
    requires
        from <= to <= v@.len(),
    ensures
        r == (exists|k: int|
            0 <= k < set@.len() && set@[k]@ == v@.subrange(from as int, to as int)),
{
    let mut k: usize = 0;
    while k < set.len()
        invariant
            k <= set@.len(),
            from <= to <= v@.len(),
            forall|t: int|
                0 <= t < k ==> set@[t]@ != v@.subrange(from as int, to as int),
        decreases set@.len() - k,
    {
        if range_eq(&set[k], v, from, to) {
            return true;
        }
        k = k + 1;
    }
    false
}

/// Parses and filters the corpus into its kept entries, in line order.
///
/// Returns the entries of every kept line exactly when each kept line
/// parses; the first kept line that does not parse is a fatal input-format
/// error.  Dropped lines are never inspected past their word.
#[verifier::loop_isolation(false)]
#[verifier::rlimit(100)]
pub fn parse_freqs(corpus: &Vec<u8>, refset: Option<&Vec<Vec<u8>>>) -> (r: Result<
    Vec<FrequencyEntry>,
    FreqError,
>)
    ensures
        match r {
            Ok(v) => lines_ok(split_lines(corpus@), ref_view(refset)) && entry_views(v@)
                == freq_entries(split_lines(corpus@), ref_view(refset)),
            Err(e) => e == FreqError::InputFormat && !lines_ok(
                split_lines(corpus@),
                ref_view(refset),
            ),
        },
{
    let ghost rs = ref_view(refset);
    let n = corpus.len();
    let mut result: Vec<FrequencyEntry> = Vec::new();
    let mut pos: usize = 0;
    let mut finished = false;
    proof {
        assert(corpus@.skip(0) =~= corpus@);
        assert(entry_views(result@) =~= Seq::<(Seq<u8>, nat)>::empty());
        assert(entry_views(result@) + freq_entries(split_lines(corpus@), rs) =~= freq_entries(
            split_lines(corpus@),
            rs,
        ));
    }
    while !finished
        invariant
            pos <= n,
            !finished ==> freq_entries(split_lines(corpus@), rs) == entry_views(result@)
                + freq_entries(split_lines(corpus@.skip(pos as int)), rs),
            !finished ==> (lines_ok(split_lines(corpus@), rs) <==> lines_ok(
                split_lines(corpus@.skip(pos as int)),
                rs,
            )),
            finished ==> freq_entries(split_lines(corpus@), rs) == entry_views(result@),
            finished ==> lines_ok(split_lines(corpus@), rs),
        decreases n - pos + (if finished { 0int } else { 1int }),
    {
        let j = find_byte(corpus, pos, n, 10);
        let ghost suffix = corpus@.skip(pos as int);
        let ghost line = corpus@.subrange(pos as int, j as int);
        let ghost rest_lines = if j < n {
            split_lines(corpus@.skip(j + 1))
        } else {
            Seq::<Seq<u8>>::empty()
        };
        proof {
            assert(corpus@.subrange(pos as int, n as int) =~= suffix);
            assert(first_idx(suffix, 10) == j - pos);
            assert(line =~= suffix.take((j - pos) as int));
            if j < n {
                assert(suffix.skip((j - pos) + 1) =~= corpus@.skip(j + 1));
                assert(split_lines(suffix) == seq![line] + rest_lines);
            } else {
                assert(line =~= suffix);
                assert(split_lines(suffix) == seq![suffix]);
                assert(seq![line] + rest_lines =~= seq![line]);
                assert(split_lines(suffix) == seq![line] + rest_lines);
            }
            lemma_entries_cons(line, rest_lines, rs);
        }
        let sp = find_byte(corpus, pos, j, 32);
        proof {
            assert(first_idx(line, 32) == sp - pos);
            assert(line_word(line) =~= corpus@.subrange(pos as int, sp as int));
        }
        let kept: bool = match refset {
            None => sp > pos,
            Some(rv) => {
                if sp > pos {
                    set_contains(rv, corpus, pos, sp)
                } else {
                    false
                }
            },
        };
        proof {
            let w = line_word(line);
            assert(w.len() == sp - pos);
            match refset {
                Some(rv) => {
                    let rseq = rv@.map_values(|x: Vec<u8>| x@);
                    assert(rs == Some(rseq));
                    if kept {
                        let kk = choose|kk: int|
                            0 <= kk < rv@.len() && rv@[kk]@ == corpus@.subrange(
                                pos as int,
                                sp as int,
                            );
                        assert(rseq[kk] == w);
                        assert(rseq.contains(w));
                        assert(line_kept(line, rs));
                    } else {
                        if sp > pos {
                            if rseq.contains(w) {
                                let ii = choose|ii: int|
                                    0 <= ii < rseq.len() && rseq[ii] == w;
                                assert(rv@[ii]@ == w);
                                assert(false);
                            }
                        }
                        assert(!line_kept(line, rs));
                    }
                },
                None => {
                    assert(kept == line_kept(line, rs));
                },
            }
            assert(kept == line_kept(line, rs));
        }
        if kept {
            if sp == j {
                proof {
                    assert(first_idx(line, 32) == line.len());
                    assert(!line_ok(line));
                    assert(!lines_ok(split_lines(suffix), rs));
                }
                return Err(FreqError::InputFormat);
            }
            let cf_start = sp + 1;
            let cf_end = find_byte(corpus, cf_start, j, 32);
            let ghost cf = corpus@.subrange(cf_start as int, cf_end as int);
            proof {
                let i = first_idx(line, 32) as int;
                let rest = line.skip(i + 1);
                assert(rest =~= corpus@.subrange(cf_start as int, j as int));
                assert(first_idx(rest, 32) == cf_end - cf_start);
                assert(rest.take(first_idx(rest, 32) as int) =~= cf);
                assert(line_count_field(line) == Some(cf));
            }
            if cf_end == cf_start {
                proof {
                    assert(cf.len() == 0);
                    assert(!is_count_digits(cf));
                    assert(!line_ok(line));
                    assert(!lines_ok(split_lines(suffix), rs));
                }
                return Err(FreqError::InputFormat);
            }
            let mut acc: usize = 0;
            let mut k = cf_start;
            proof {
                assert(corpus@.subrange(cf_start as int, cf_start as int)
                    =~= Seq::<u8>::empty());
                assert(digits_val(Seq::<u8>::empty()) == 0);
            }
            while k < cf_end
                invariant
                    cf_start <= k <= cf_end,
                    acc == digits_val(corpus@.subrange(cf_start as int, k as int)),
                    forall|t: int| cf_start <= t < k ==> 48 <= #[trigger] corpus@[t] <= 57,
                decreases cf_end - k,
            {
                let c = corpus[k];
                if c < 48 || c > 57 {
                    proof {
                        assert(cf[k - cf_start] == corpus@[k as int]);
                        assert(!is_count_digits(cf));
                        assert(!line_ok(line));
                        assert(!lines_ok(split_lines(suffix), rs));
                    }
                    return Err(FreqError::InputFormat);
                }
                let d = (c - 48) as usize;
                proof {
                    lemma_fundamental_div_mod((usize::MAX - d) as int, 10);
                    lemma_mod_division_less_than_divisor((usize::MAX - d) as int, 10);
                    assert(corpus@.subrange(cf_start as int, k + 1).drop_last()
                        =~= corpus@.subrange(cf_start as int, k as int));
                    assert(corpus@.subrange(cf_start as int, k + 1).last()
                        == corpus@[k as int]);
                }
                if acc > (usize::MAX - d) / 10 {
                    proof {
                        assert(digits_val(corpus@.subrange(cf_start as int, k + 1))
                            > usize::MAX);
                        lemma_digits_prefix_le(cf, k + 1 - cf_start);
                        assert(cf.take(k + 1 - cf_start) =~= corpus@.subrange(
                            cf_start as int,
                            k + 1,
                        ));
                        assert(digits_val(cf) > usize::MAX);
                        assert(!line_ok(line));
                        assert(!lines_ok(split_lines(suffix), rs));
                    }
                    return Err(FreqError::InputFormat);
                }
                acc = acc * 10 + d;
                k = k + 1;
            }
            proof {
                assert forall|t: int| 0 <= t < cf.len() implies 48 <= #[trigger] cf[t]
                    <= 57 by {
                    assert(cf[t] == corpus@[cf_start + t]);
                }
                assert(is_count_digits(cf));
                assert(line_ok(line));
            }
            let word = subvec(corpus, pos, sp);
            let e = FrequencyEntry { word, count: acc };
            let ghost old_views = entry_views(result@);
            proof {
                assert(e@ == line_entry(line));
                lemma_entry_views_push(result@, e);
            }
            result.push(e);
            proof {
                assert(entry_views(result@) + freq_entries(rest_lines, rs) =~= old_views + (
                seq![line_entry(line)] + freq_entries(rest_lines, rs)));
            }
        } else {
        }
        if j == n {
            proof {
                assert(rest_lines.len() == 0);
                assert(freq_entries(rest_lines, rs) == Seq::<(Seq<u8>, nat)>::empty());
                assert(entry_views(result@) + freq_entries(rest_lines, rs) =~= entry_views(
                    result@,
                ));
            }
            finished = true;
        } else {
            pos = j + 1;
        }
    }
    Ok(result)
}

} // verus!
