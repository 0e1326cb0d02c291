use sfw_tools::counting::{word_count, num_newlines, CharType, Counts, FluxMay};

#[test]
fn test_word_count_over_byte_string() {
    let num_words1 = word_count("testing one\ntwo three".as_bytes());
    assert_eq!(num_words1, 4);
    let num_words2 = word_count("testing one\ntwo three\n".as_bytes());
    assert_eq!(num_words2, 4);
    let num_words3 = word_count("\ntesting one\ntwo three".as_bytes());
    assert_eq!(num_words3, 4);
    let num_words4 = word_count(" testing one  two three\n  ".as_bytes());
    assert_eq!(num_words4, 4);
}

#[test]
fn test_flux_may_from() {
    assert_eq!(
        FluxMay::from_bytes("testing one two three ".as_bytes()),
        FluxMay::new(CharType::NotSpace, 22, 4, 0, CharType::IsSpace)
    );
}

#[test]
fn test_flux_may_combine() {
    let flux_l = FluxMay::from_bytes("testing on".as_bytes());
    let flux_r = FluxMay::from_bytes("e two three".as_bytes());

    assert_eq!(
        flux_l.combine(flux_r),
        FluxMay::new(CharType::NotSpace, 21, 4, 0, CharType::NotSpace)
    );
}

#[test]
fn test_flux_may_combine_space() {
    let flux_l = FluxMay::from_bytes("testing one ".as_bytes());
    let flux_r = FluxMay::from_bytes(" two three".as_bytes());

    assert_eq!(
        flux_l.combine(flux_r),
        FluxMay::new(CharType::NotSpace, 22, 4, 0, CharType::NotSpace)
    );
}

#[test]
fn test_flux_may_combine_with_empty() {
    let flux = FluxMay::from_bytes("words here".as_bytes());
    assert_eq!(FluxMay::empty().combine(flux), flux);
    assert_eq!(flux.combine(FluxMay::empty()), flux);
    assert_eq!(FluxMay::from_bytes("".as_bytes()), FluxMay::FluxEmpty);
}

#[test]
fn test_num_newlines() {
    assert_eq!(num_newlines(b""), 0);
    assert_eq!(num_newlines(b"no newline"), 0);
    assert_eq!(num_newlines(b"a\nb\n\nc"), 3);
}

#[test]
fn test_counts_format() {
    let counts = Counts::new(22, 4, 1);
    assert_eq!(counts.format(), "1 4 22");
    let only_lines = Counts::null().lines(7);
    assert_eq!(only_lines.format(), "7  ");
    assert_eq!(Counts::null().format(), "  ");
    assert_eq!(Counts::empty().format(), "0 0 0");
}

#[test]
fn test_flux_counts() {
    let flux = FluxMay::from_bytes("one two\nthree".as_bytes());
    let counts = flux.counts();
    assert_eq!(counts.bytes, Some(13));
    assert_eq!(counts.words, Some(3));
    assert_eq!(counts.lines, Some(1));
    let empty_counts = FluxMay::empty().counts();
    assert_eq!(empty_counts, Counts::new(0, 0, 0));
}
