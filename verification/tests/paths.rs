use weighted_code_coverage::paths::{join, normalize};
use weighted_code_coverage::text::{bytes_eq, bytes_lt, copy_bytes};

#[test]
fn normal_form_of_paths() {
    assert_eq!(normalize(b"src/a.rs"), b"src/a.rs".to_vec());
    assert_eq!(normalize(b"./src/a.rs"), b"src/a.rs".to_vec());
    assert_eq!(normalize(b"././src/a.rs"), b"src/a.rs".to_vec());
    assert_eq!(normalize(b".\\src\\a.rs"), b"src/a.rs".to_vec());
    assert_eq!(normalize(b"src/./a.rs"), b"src/./a.rs".to_vec());
    assert_eq!(normalize(b"../a.rs"), b"../a.rs".to_vec());
    assert_eq!(normalize(b"/abs/a.rs"), b"/abs/a.rs".to_vec());
    assert_eq!(normalize(b""), Vec::<u8>::new());
    assert_eq!(normalize(b"."), b".".to_vec());
    assert_eq!(normalize(b"./"), Vec::<u8>::new());
    assert_eq!(normalize(b".a"), b".a".to_vec());
}

#[test]
fn normal_form_is_stable() {
    for p in [&b"./a\\b"[..], b"", b"././x", b"a/./b", b"\\"] {
        let once = normalize(p);
        assert_eq!(normalize(&once), once);
    }
}

#[test]
fn joined_paths() {
    assert_eq!(join(b"", b"a.rs"), b"a.rs".to_vec());
    assert_eq!(join(b"src", b"a.rs"), b"src/a.rs".to_vec());
    assert_eq!(join(b"src/deep", b""), b"src/deep/".to_vec());
}

#[test]
fn byte_strings_compare() {
    assert!(bytes_eq(b"", b""));
    assert!(bytes_eq(b"abc", b"abc"));
    assert!(!bytes_eq(b"abc", b"abd"));
    assert!(!bytes_eq(b"abc", b"ab"));
    assert!(bytes_lt(b"", b"a"));
    assert!(!bytes_lt(b"", b""));
    assert!(!bytes_lt(b"a", b""));
    assert!(bytes_lt(b"a", b"b"));
    assert!(bytes_lt(b"ab", b"abc"));
    assert!(!bytes_lt(b"abc", b"ab"));
    assert!(bytes_lt(b"abc", b"abd"));
    assert!(!bytes_lt(b"abd", b"abc"));
    assert!(bytes_lt(b"Z", b"a"));
    assert!(!bytes_lt(b"abc", b"abc"));
}

#[test]
fn byte_order_agrees_with_the_order_of_slices() {
    let all: Vec<&[u8]> = vec![b"", b"a", b"ab", b"abc", b"b", b"ba", b"\xff", b"a\x00"];
    for a in &all {
        for b in &all {
            assert_eq!(bytes_lt(a, b), a < b);
            assert_eq!(bytes_eq(a, b), a == b);
        }
    }
}

#[test]
fn copies_are_equal() {
    let v = b"src/a.rs".to_vec();
    assert_eq!(copy_bytes(&v), v);
    assert_eq!(copy_bytes(&Vec::new()), Vec::<u8>::new());
}
