use rustdiscordbot::bytes::{bytes_eq, copy_range, find_pair_in, parse_dec_bytes, to_lower};
use rustdiscordbot::headers::HeaderMap;
use rustdiscordbot::url::Url;

#[test]
fn split_url_without_path() {
    let u = Url::split_url(b"wss://gateway.discord.gg").expect("splits");
    assert_eq!(u.protocol, b"wss".to_vec());
    assert_eq!(u.host, b"gateway.discord.gg".to_vec());
    assert_eq!(u.path, b"/".to_vec());
}

#[test]
fn split_url_with_path() {
    let u = Url::split_url(b"https://example.com/a/b").expect("splits");
    assert_eq!(u.protocol, b"https".to_vec());
    assert_eq!(u.host, b"example.com".to_vec());
    assert_eq!(u.path, b"a/b".to_vec());
}

#[test]
fn split_url_without_scheme_separator() {
    assert!(Url::split_url(b"example.com/a").is_none());
}

#[test]
fn header_map_last_write_wins() {
    let mut m = HeaderMap::new();
    m.insert(b"x".to_vec(), b"a".to_vec());
    m.insert(b"y".to_vec(), b"1".to_vec());
    m.insert(b"x".to_vec(), b"b".to_vec());
    assert_eq!(m.get(b"x").map(|v| v.as_slice()), Some(b"b".as_slice()));
    assert_eq!(m.get(b"y").map(|v| v.as_slice()), Some(b"1".as_slice()));
    assert!(m.get(b"z").is_none());
    assert!(m.contains(b"x"));
    assert!(!m.contains(b"z"));
}

#[test]
fn parse_dec_bytes_cases() {
    assert_eq!(parse_dec_bytes(b"0"), Some(0));
    assert_eq!(parse_dec_bytes(b"123"), Some(123));
    assert_eq!(parse_dec_bytes(b"007"), Some(7));
    assert_eq!(parse_dec_bytes(b""), None);
    assert_eq!(parse_dec_bytes(b"12a"), None);
    assert_eq!(parse_dec_bytes(b"-1"), None);
    assert_eq!(parse_dec_bytes(b" 5"), None);
    assert_eq!(parse_dec_bytes(b"99999999999999999999999999"), None);
    assert_eq!(parse_dec_bytes(usize::MAX.to_string().as_bytes()), Some(usize::MAX));
}

#[test]
fn to_lower_maps_ascii_only() {
    assert_eq!(to_lower(b"Content-LENGTH"), b"content-length".to_vec());
    assert_eq!(to_lower(b"a-z AZ @[ 09"), b"a-z az @[ 09".to_vec());
}

#[test]
fn bytes_eq_cases() {
    assert!(bytes_eq(b"abc", b"abc"));
    assert!(!bytes_eq(b"abc", b"abd"));
    assert!(!bytes_eq(b"abc", b"ab"));
    assert!(bytes_eq(b"", b""));
}

#[test]
fn find_pair_in_finds_first_occurrence() {
    let v = b"ab\r\ncd\r\n".to_vec();
    assert_eq!(find_pair_in(&v, 0, v.len(), 13, 10), Some(2));
    assert_eq!(find_pair_in(&v, 4, v.len(), 13, 10), Some(2));
    assert_eq!(find_pair_in(&v, 0, 3, 13, 10), None);
    assert_eq!(find_pair_in(&v, 0, v.len(), 58, 32), None);
}

#[test]
fn copy_range_copies_the_exact_slice() {
    let v = b"hello world".to_vec();
    assert_eq!(copy_range(&v, 0, 5), b"hello".to_vec());
    assert_eq!(copy_range(&v, 6, 11), b"world".to_vec());
    assert_eq!(copy_range(&v, 3, 3), Vec::<u8>::new());
}
