use chunkgrep::glob::lined_glob;

#[test]
fn test_oneline() {
    let text = [1, 2, 3];
    let pat_1 = [1, 2];
    let pat = vec![&pat_1[..]];
    let eol = [0];
    assert_eq!(lined_glob(&text, &pat, &eol), Some((0, 3)));
}

#[test]
fn test_eol_simple() {
    let text = [1, 2, 0, 3, 4];
    let pat_1 = [1, 2];
    let pat = vec![&pat_1[..]];
    let eol = [0];
    assert_eq!(lined_glob(&text, &pat, &eol[..]), Some((0, 3)));
}

#[test]
fn test_eol_addchars() {
    let text = [1, 2, 3, 4, 0, 3];
    let pat_1 = [1, 2];
    let pat = vec![&pat_1[..]];
    let eol = [0];
    assert_eq!(lined_glob(&text, &pat, &eol[..]), Some((0, 5)));
}

#[test]
fn test_eol_nextline() {
    let text = [1, 1, 0, 1, 2, 0, 3];
    let pat_1 = [1, 2];
    let pat = vec![&pat_1[..]];
    let eol = [0];
    assert_eq!(lined_glob(&text, &pat, &eol[..]), Some((3, 6)));
}

#[test]
fn test_two_pattern_without_gap() {
    let text = [1, 1, 0, 1, 1, 1, 2, 0, 3];
    let pat_1 = [1, 1];
    let pat_2 = [1, 2];
    let pat = vec![&pat_1[..], &pat_2[..]];
    let eol = [0];
    assert_eq!(lined_glob(&text, &pat, &eol[..]), Some((3, 8)));
}

#[test]
fn test_two_pattern_with_gap() {
    let text = [1, 1, 0, 1, 1, 5, 6, 7, 1, 2, 0, 3];
    let pat_1 = [1, 1];
    let pat_2 = [1, 2];
    let pat = vec![&pat_1[..], &pat_2[..]];
    let eol = [0];
    assert_eq!(lined_glob(&text, &pat, &eol[..]), Some((3, 11)));
}

#[test]
fn test_two_fragments_span_whole_text() {
    let text = b"abbabababcdef";
    let pat_1 = b"abc";
    let pat_2 = b"def";
    let pat = vec![&pat_1[..], &pat_2[..]];
    let eol = [0x0d, 0x0a];
    assert_eq!(lined_glob(&text[..], &pat, &eol[..]), Some((0, 13)));
}

#[test]
fn test_fragment_across_reset_never_matches() {
    let text = [1, 2, 0, 3, 4];
    let pat_1 = [2, 3];
    let pat = vec![&pat_1[..]];
    let eol = [0];
    assert_eq!(lined_glob(&text, &pat, &eol[..]), None);
}

#[test]
fn test_fragment_within_line_matches() {
    let text = [1, 2, 3, 4, 0, 3];
    let pat_1 = [2, 3];
    let pat = vec![&pat_1[..]];
    let eol = [0];
    assert_eq!(lined_glob(&text, &pat, &eol[..]), Some((0, 5)));
}

#[test]
fn test_empty_text_no_match() {
    let text: [u8; 0] = [];
    let pat_1 = [1];
    let pat = vec![&pat_1[..]];
    let eol = [0];
    assert_eq!(lined_glob(&text, &pat, &eol[..]), None);
}

#[test]
fn test_first_match_wins() {
    let text = [7, 7, 0, 7, 7, 0];
    let pat_1 = [7, 7];
    let pat = vec![&pat_1[..]];
    let eol = [0];
    assert_eq!(lined_glob(&text, &pat, &eol[..]), Some((0, 3)));
}

#[test]
fn test_line_end_is_text_end_without_eol() {
    let text = [5, 6, 7, 8];
    let pat_1 = [6, 7];
    let pat = vec![&pat_1[..]];
    let eol = [0];
    assert_eq!(lined_glob(&text, &pat, &eol[..]), Some((0, 4)));
}
