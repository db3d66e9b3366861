use moenster::stringmatch;

#[test]
fn plain_string() {
    assert!(stringmatch("moenster", "moenster"));
}

#[test]
fn escaped() {
    assert!(stringmatch("moenste\\r", "moenster"));
}

#[test]
fn questionmark() {
    assert!(stringmatch("mo?nster", "moenster"));
    assert!(stringmatch("m??nster", "moenster"));
    assert!(stringmatch("mo?nst?r", "moenster"));
    assert!(!stringmatch("moenster?", "moenster"));
}

#[test]
fn wildcard() {
    assert!(stringmatch("*", "moenster"));
    assert!(stringmatch("*****", "moenster"));
}

#[test]
fn wildcard_and_more() {
    assert!(stringmatch("m*oenster", "moenster"));
    assert!(stringmatch("m*", "moenster"));
    assert!(stringmatch("*r", "moenster"));
}

#[test]
fn bracketed_chars() {
    assert!(stringmatch("m[oei]enster", "moenster"));
    assert!(!stringmatch("m[bcd]enster", "moenster"));
}

#[test]
fn not_bracketed_chars() {
    assert!(stringmatch("m[^bcd]enster", "moenster"));
    assert!(!stringmatch("m[^oei]enster", "moenster"));
}

#[test]
fn bracketed_range() {
    assert!(stringmatch("m[n-p]enster", "moenster"));
    assert!(!stringmatch("m[a-c]enster", "moenster"));
}

#[test]
fn not_bracketed_range() {
    assert!(stringmatch("m[^a-c]enster", "moenster"));
    assert!(!stringmatch("m[^n-p]enster", "moenster"));
}

#[test]
fn wrong_bracket() {
    assert!(stringmatch("m[n-p", "mo"));
    assert!(!stringmatch("m[n-pt", "mot"));
}

#[test]
fn escaped_in_bracket() {
    assert!(stringmatch("m[\\].;]o", "m]o"));
    assert!(stringmatch("m[\\].;]o", "m;o"));
    assert!(stringmatch("m[\\].;]o", "m.o"));
}

#[test]
fn empty_bracket() {
    assert!(!stringmatch("m[]", "m"));
}
