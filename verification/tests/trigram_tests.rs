use fuzzy_match::score_parts;

/// Cosine similarity reconstructed from its verified integer parts.
fn score(a: &str, b: &str) -> f32 {
    let (d, sa, sb) = score_parts(a, b).unwrap();
    if d == 0 {
        0.0
    } else {
        ((d as f64) / ((sa as f64) * (sb as f64)).sqrt()) as f32
    }
}

#[test]
fn identity() {
    assert!((1.0 - score("abcd", "abcd")) < 1e-5);
}

#[test]
fn empty_string() {
    assert_eq!(0.0, score("", ""));
    assert_eq!(0.0, score("", "abc"));
    assert_eq!(0.0, score("abc", ""));
    assert_eq!(0.0, score("abc", "ef"));
}

#[test]
fn symmetry() {
    let s1 = "abc";
    let s2 = "bcef";
    assert_eq!(score(s1, s2), score(s2, s1));
}

#[test]
fn unigram() {
    let a4 = "aaaa";
    assert!(score("abc", a4) < score("aba", a4));
    assert_eq!(score("abac", a4), score("baca", a4));
}

#[test]
fn bigram() {
    let a4 = "abcd";
    assert!(score("baaa", a4) < score("aaab", a4));
}

#[test]
fn trigram() {
    let a4 = "abcd";
    assert!(score("ecba", a4) < score("eabc", a4));
}

#[test]
fn identity_parts_are_exact() {
    // a non-empty string against itself: the dot product equals both
    // squared norms, so the score is exactly one before any rounding
    let (d, sa, sb) = score_parts("Student Q", "Student Q").unwrap();
    assert_eq!(d, sa);
    assert_eq!(d, sb);
    assert!(d >= 1);
}

#[test]
fn case_folding() {
    let (d, sa, sb) = score_parts("ABCD", "abcd").unwrap();
    assert_eq!(d, sa);
    assert_eq!(d, sb);
    assert!((1.0 - score("ABCD", "abcd")) < 1e-5);
}

#[test]
fn exact_components() {
    // "ab" vs "ab": unigrams a, b and bigram ab all match once
    let (d, sa, sb) = score_parts("ab", "ab").unwrap();
    assert_eq!((d, sa, sb), (3, 3, 3));
    // "aa" has unigram a twice (weight 2*2 = 4) and bigram aa once
    let (d, sa, sb) = score_parts("aa", "aa").unwrap();
    assert_eq!((d, sa, sb), (5, 5, 5));
    // "ab" vs "ba": the two unigrams match, the bigrams do not
    let (d, _, _) = score_parts("ab", "ba").unwrap();
    assert_eq!(d, 2);
    // no shared n-grams at all
    let (d, _, _) = score_parts("abc", "ef").unwrap();
    assert_eq!(d, 0);
}

#[test]
fn extra_characters_penalized() {
    // both match one character of "abcd", but "ce" carries dead weight
    assert!(score("a", "abcd") > score("ce", "abcd"));
    assert_eq!(score("a", "abcd"), score("c", "abcd"));
    assert!(score("a", "abcd") < score("cb", "abcd"));
    assert!(score("cb", "abcd") < score("bc", "abcd"));
    assert_eq!(score("bc", "abcd"), score("cd", "abcd"));
}
