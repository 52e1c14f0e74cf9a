use freqdict::parse::parse_freqs;
use freqdict::parse::FreqError;
use freqdict::pipeline::build_intermediate;
use freqdict::render::render_document;
use freqdict::render::u_to_dec;
use freqdict::parse::FrequencyEntry;
use freqdict::scale::divide_and_scale;

fn words(list: &[&str]) -> Vec<Vec<u8>> {
    list.iter().map(|w| w.as_bytes().to_vec()).collect()
}

#[test]
fn scale_bottom_of_range() {
    // log(1)/log(2) = 0, so round(0 * 239) + 15 + 1 = 16
    assert_eq!(divide_and_scale(1, 2), 16);
    assert_eq!(divide_and_scale(1, 1000), 16);
}

#[test]
fn scale_single_entry_tops_range() {
    // log(t)/log(t) = 1, so round(239) + 15 + 1 = 255
    assert_eq!(divide_and_scale(2, 2), 255);
    assert_eq!(divide_and_scale(5, 5), 255);
    assert_eq!(divide_and_scale(123456789, 123456789), 255);
}

#[test]
fn scale_known_values() {
    // log(10)/log(15) * 239 = 203.215..., log(5)/log(15) * 239 = 142.04...
    assert_eq!(divide_and_scale(10, 15), 219);
    assert_eq!(divide_and_scale(5, 15), 158);
}

#[test]
fn scale_monotonic_in_count() {
    let total = 1000;
    let mut prev = 0;
    for freq in 1..=total {
        let s = divide_and_scale(freq, total);
        assert!(s >= prev);
        prev = s;
    }
}

#[test]
fn decimal_rendering() {
    assert_eq!(u_to_dec(0), b"0".to_vec());
    assert_eq!(u_to_dec(7), b"7".to_vec());
    assert_eq!(u_to_dec(254), b"254".to_vec());
    assert_eq!(u_to_dec(1000), b"1000".to_vec());
}

#[test]
fn filter_reference_set() {
    let corpus = b"cat 10\ndog 5\nbird 3".to_vec();
    let refset = words(&["cat", "dog"]);
    let entries = parse_freqs(&corpus, Some(&refset)).unwrap();
    let got: Vec<(&[u8], usize)> = entries.iter().map(|e| (&e.word[..], e.count)).collect();
    assert_eq!(got, vec![(&b"cat"[..], 10), (&b"dog"[..], 5)]);
}

#[test]
fn filter_preserves_input_order() {
    // order follows the lines, not the counts
    let corpus = b"small 1\nbig 900\nmid 30".to_vec();
    let entries = parse_freqs(&corpus, None).unwrap();
    let got: Vec<&[u8]> = entries.iter().map(|e| &e.word[..]).collect();
    assert_eq!(got, vec![&b"small"[..], &b"big"[..], &b"mid"[..]]);
}

#[test]
fn absent_reference_set_drops_empty_word() {
    // the third line has an empty word: dropped, not fatal
    let corpus = b"a 1\nb 2\n 0".to_vec();
    let entries = parse_freqs(&corpus, None).unwrap();
    let got: Vec<(&[u8], usize)> = entries.iter().map(|e| (&e.word[..], e.count)).collect();
    assert_eq!(got, vec![(&b"a"[..], 1), (&b"b"[..], 2)]);
}

#[test]
fn malformed_count_is_fatal() {
    let corpus = b"a 1\nb x".to_vec();
    assert_eq!(parse_freqs(&corpus, None), Err(FreqError::InputFormat));
}

#[test]
fn missing_count_is_fatal() {
    let corpus = b"a 1\nword".to_vec();
    assert_eq!(parse_freqs(&corpus, None), Err(FreqError::InputFormat));
}

#[test]
fn malformed_line_outside_reference_set_is_dropped() {
    // a bad count on a line the filter drops is no error
    let corpus = b"cat 10\nbird x".to_vec();
    let refset = words(&["cat"]);
    let entries = parse_freqs(&corpus, Some(&refset)).unwrap();
    assert_eq!(entries.len(), 1);
}

#[test]
fn empty_reference_set_keeps_nothing() {
    let corpus = b"cat 10\ndog 5".to_vec();
    let refset: Vec<Vec<u8>> = Vec::new();
    let entries = parse_freqs(&corpus, Some(&refset)).unwrap();
    assert_eq!(entries.len(), 0);
}

#[test]
fn zero_count_is_domain_error() {
    let entries = vec![
        FrequencyEntry { word: b"a".to_vec(), count: 0 },
        FrequencyEntry { word: b"b".to_vec(), count: 5 },
    ];
    assert_eq!(render_document(&entries, None), Err(FreqError::Domain));
}

#[test]
fn tiny_total_is_domain_error() {
    let corpus = b"a 1".to_vec();
    assert_eq!(build_intermediate(&corpus, None, None), Err(FreqError::Domain));
    let empty = Vec::new();
    assert_eq!(build_intermediate(&empty, None, None), Err(FreqError::Domain));
}

#[test]
fn total_overflow_detected() {
    let max = usize::MAX.to_string();
    let corpus = format!("a {max}\nb 2").into_bytes();
    assert_eq!(build_intermediate(&corpus, None, None), Err(FreqError::TotalOverflow));
}

#[test]
fn render_exact_document() {
    // log(1)/log(2) = 0 for both entries: both scores are 16
    let corpus = b"x 1\ny 1".to_vec();
    let out = build_intermediate(&corpus, None, None).unwrap();
    assert_eq!(out, b" word=x,f=16\n word=y,f=16\n".to_vec());
}

#[test]
fn render_single_entry_document() {
    let corpus = b"w 5".to_vec();
    let out = build_intermediate(&corpus, None, None).unwrap();
    assert_eq!(out, b" word=w,f=255\n".to_vec());
}

#[test]
fn render_with_header() {
    let corpus = b"x 1\ny 1".to_vec();
    let header = b"dictionary=main:en".to_vec();
    let out = build_intermediate(&corpus, None, Some(&header)).unwrap();
    assert_eq!(out, b"dictionary=main:en\n word=x,f=16\n word=y,f=16\n".to_vec());
}

#[test]
fn filtered_scores_against_filtered_total() {
    let corpus = b"cat 10\ndog 5\nbird 3".to_vec();
    let refset = words(&["cat", "dog"]);
    let out = build_intermediate(&corpus, Some(&refset), None).unwrap();
    assert_eq!(out, b" word=cat,f=219\n word=dog,f=158\n".to_vec());
}

#[test]
fn round_trip_recovers_pairs() {
    let corpus = b"alpha 7\nbeta 21\ngamma 14".to_vec();
    let out = build_intermediate(&corpus, None, None).unwrap();
    let text = String::from_utf8(out).unwrap();
    let mut pairs: Vec<(String, usize)> = Vec::new();
    for line in text.lines() {
        let rest = line.strip_prefix(" word=").unwrap();
        let (word, score) = rest.split_once(",f=").unwrap();
        pairs.push((word.to_string(), score.parse().unwrap()));
    }
    let total = 42;
    let expected: Vec<(String, usize)> = vec![
        ("alpha".to_string(), divide_and_scale(7, total)),
        ("beta".to_string(), divide_and_scale(21, total)),
        ("gamma".to_string(), divide_and_scale(14, total)),
    ];
    assert_eq!(pairs, expected);
}
