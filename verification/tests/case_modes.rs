use moenster::{stringmatch, stringmatch_bytes, Case};

#[test]
fn letters_fold_only_without_regard_to_case() {
    assert!(stringmatch_bytes(b"ABC", b"abc", Case::Insensitive));
    assert!(!stringmatch_bytes(b"ABC", b"abc", Case::Sensitive));
    assert!(!stringmatch("ABC", "abc"));
    assert!(stringmatch_bytes(b"abc", b"ABC", Case::Insensitive));
    assert!(stringmatch_bytes(b"aBc", b"AbC", Case::Insensitive));
    assert!(!stringmatch_bytes(b"abc", b"abd", Case::Insensitive));
    assert!(!stringmatch_bytes(b"abc", b"ab", Case::Insensitive));
}

#[test]
fn string_entry_agrees_with_the_byte_entry() {
    let cases = [
        ("m*nster", "mønster"),
        ("m[oei]enster", "moenster"),
        ("m[bcd]enster", "moenster"),
        ("moenster?", "moenster"),
        ("[^]", "a"),
        ("*", ""),
    ];
    for (pattern, subject) in cases {
        assert_eq!(
            stringmatch(pattern, subject),
            stringmatch_bytes(pattern.as_bytes(), subject.as_bytes(), Case::Sensitive)
        );
    }
}

#[test]
fn only_ascii_letters_fold() {
    assert!(stringmatch_bytes(b"Z", b"z", Case::Insensitive));
    assert!(stringmatch_bytes(b"A", b"a", Case::Insensitive));
    assert!(!stringmatch_bytes(b"@", b"`", Case::Insensitive));
    assert!(!stringmatch_bytes(b"\\[", b"{", Case::Insensitive));
    assert!(!stringmatch_bytes(b"1", b"Q", Case::Insensitive));
    assert!(!stringmatch_bytes(&[0xc3, 0x98], &[0xc3, 0xb8], Case::Insensitive));
    assert!(stringmatch_bytes(&[0xc3, 0x98], &[0xc3, 0x98], Case::Insensitive));
}

#[test]
fn escaped_byte_folds_too() {
    assert!(stringmatch_bytes(b"\\a", b"A", Case::Insensitive));
    assert!(!stringmatch_bytes(b"\\a", b"A", Case::Sensitive));
    assert!(stringmatch_bytes(b"[\\a]", b"A", Case::Insensitive));
    assert!(!stringmatch_bytes(b"[\\a]", b"A", Case::Sensitive));
}

#[test]
fn class_member_is_equal_after_folding() {
    assert!(stringmatch_bytes(b"[abc]", b"B", Case::Insensitive));
    assert!(stringmatch_bytes(b"[ABC]", b"b", Case::Insensitive));
    assert!(stringmatch_bytes(b"[abc]", b"b", Case::Insensitive));
    assert!(!stringmatch_bytes(b"[abc]", b"D", Case::Insensitive));
    assert!(!stringmatch_bytes(b"[abc]", b"d", Case::Insensitive));
    assert!(!stringmatch_bytes(b"[abc]", b"B", Case::Sensitive));
}

#[test]
fn negated_class_folds_before_it_negates() {
    assert!(!stringmatch_bytes(b"[^abc]", b"B", Case::Insensitive));
    assert!(stringmatch_bytes(b"[^abc]", b"B", Case::Sensitive));
    assert!(stringmatch_bytes(b"[^abc]", b"D", Case::Insensitive));
}

#[test]
fn range_folds_both_ends_and_the_subject() {
    assert!(stringmatch_bytes(b"[a-c]", b"B", Case::Insensitive));
    assert!(stringmatch_bytes(b"[A-C]", b"b", Case::Insensitive));
    assert!(stringmatch_bytes(b"[C-A]", b"b", Case::Insensitive));
    assert!(!stringmatch_bytes(b"[a-c]", b"D", Case::Insensitive));
    assert!(!stringmatch_bytes(b"[a-c]", b"B", Case::Sensitive));
}

#[test]
fn range_ends_are_ordered_before_they_fold() {
    assert!(stringmatch_bytes(b"[Z-a]", b"a", Case::Sensitive));
    assert!(stringmatch_bytes(b"[Z-a]", b"^", Case::Sensitive));
    assert!(!stringmatch_bytes(b"[Z-a]", b"a", Case::Insensitive));
    assert!(!stringmatch_bytes(b"[Z-a]", b"^", Case::Insensitive));
}

#[test]
fn wildcards_work_in_both_modes() {
    assert!(stringmatch_bytes(b"M*R", b"moenster", Case::Insensitive));
    assert!(!stringmatch_bytes(b"M*R", b"moenster", Case::Sensitive));
    assert!(stringmatch_bytes(b"m?E*", b"MOenster", Case::Insensitive));
    assert!(stringmatch_bytes(b"*", b"", Case::Insensitive));
    assert!(stringmatch_bytes(b"", b"", Case::Insensitive));
    assert!(!stringmatch_bytes(b"", b"a", Case::Insensitive));
}

#[test]
fn case_of_the_subject_makes_no_difference() {
    let patterns: [&[u8]; 6] = [b"m*R", b"[a-c]?", b"[^XY]*", b"\\Mo*", b"[Z-a]", b"moenster"];
    let subjects: [(&[u8], &[u8]); 5] = [
        (b"MoEnStEr", b"moenster"),
        (b"Bx", b"bx"),
        (b"A", b"a"),
        (b"^", b"^"),
        (b"", b""),
    ];
    for pattern in patterns {
        for (subject, folded) in subjects {
            assert_eq!(
                stringmatch_bytes(pattern, subject, Case::Insensitive),
                stringmatch_bytes(pattern, folded, Case::Insensitive)
            );
        }
    }
    assert!(stringmatch_bytes(b"m*R", b"MoEnStEr", Case::Insensitive));
    assert!(stringmatch_bytes(b"moenster", b"MoEnStEr", Case::Insensitive));
}

#[test]
fn case_can_be_copied_and_compared() {
    let case = Case::Insensitive;
    let copy = case;
    assert_eq!(case, copy);
    assert_ne!(case, Case::Sensitive);
    assert_eq!(format!("{:?}", Case::Sensitive), "Sensitive");
}
