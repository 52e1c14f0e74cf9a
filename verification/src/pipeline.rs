//! The whole run, from corpus bytes to intermediate document bytes.

use vstd::prelude::*;
use crate::parse::FreqError;
use crate::parse::parse_freqs;
use crate::parse::ref_view;
use crate::parse::split_lines;
use crate::parse::lines_ok;
use crate::parse::freq_entries;
use crate::render::render_document;
use crate::render::total_of;
use crate::render::doc_bytes;
use crate::render::scaled_views;
use crate::render::header_bytes;
use crate::render::opt_view;

verus! {

/// Parses and filters the corpus, scales every kept count against the
/// corpus total, and renders the intermediate document.
///
/// Succeeds exactly when every kept line parses, the total fits the
/// machine word and reaches at least 2, and no kept count is zero; each
/// failure names its error.
pub fn build_intermediate(
    corpus: &Vec<u8>,
    refset: Option<&Vec<Vec<u8>>>,
    header: Option<&Vec<u8>>,
) -> (r: Result<Vec<u8>, FreqError>)
    ensures
        ({
            let rs = ref_view(refset);
            let ev = freq_entries(split_lines(corpus@), rs);
            let parsed = lines_ok(split_lines(corpus@), rs);
            match r {
                Ok(out) => parsed && 2 <= total_of(ev) <= usize::MAX as nat && (forall|i: int|
                    0 <= i < ev.len() ==> (#[trigger] ev[i]).1 >= 1) && out@ == header_bytes(
                    opt_view(header),
                ) + doc_bytes(scaled_views(ev, total_of(ev))),
                Err(e) => {
                    ||| (e == FreqError::InputFormat && !parsed)
                    ||| (e == FreqError::TotalOverflow && parsed && total_of(ev)
                        > usize::MAX as nat)
                    ||| (e == FreqError::Domain && parsed && total_of(ev) <= usize::MAX as nat
                        && (total_of(ev) <= 1 || exists|i: int|
                        0 <= i < ev.len() && (#[trigger] ev[i]).1 == 0))
                },
            }
        }),
{
    let entries = match parse_freqs(corpus, refset) {
        Ok(v) => v,
        Err(e) => {
            return Err(e);
        },
    };
    render_document(&entries, header)
}

} // verus!
