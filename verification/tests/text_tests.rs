use dvion_vpn::keygen::{generate_key, key_from_indices};
use dvion_vpn::text::{char_is_whitespace, chars_of, split_bounds, token_bounds, trim_bounds};

#[test]
fn whitespace_matches_std() {
    for u in 0u32..0x3100 {
        if let Some(c) = char::from_u32(u) {
            assert_eq!(char_is_whitespace(c), c.is_whitespace(), "U+{u:04X}");
        }
    }
}

#[test]
fn trim_matches_std() {
    for s in ["", "  ", " a ", "\u{3000}x y\u{a0}", "\tq\r\n", "abc"] {
        let cs = chars_of(s);
        let (a, b) = trim_bounds(&cs, 0, cs.len());
        let got: String = cs[a..b].iter().collect();
        assert_eq!(got, s.trim());
    }
}

#[test]
fn split_matches_std() {
    for s in ["", ":", "a:b", "a::b:", "::"] {
        let cs = chars_of(s);
        let got: Vec<String> =
            split_bounds(&cs, ':').iter().map(|&(a, b)| cs[a..b].iter().collect()).collect();
        let want: Vec<String> = s.split(':').map(|x| x.to_string()).collect();
        assert_eq!(got, want);
    }
}

#[test]
fn tokens_match_std() {
    for s in ["", "  a  b ", "default via 1.2.3.4 dev eth0\n", "x"] {
        let cs = chars_of(s);
        let got: Vec<String> =
            token_bounds(&cs).iter().map(|&(a, b)| cs[a..b].iter().collect()).collect();
        let want: Vec<String> = s.split_whitespace().map(|x| x.to_string()).collect();
        assert_eq!(got, want);
    }
}

#[test]
fn keys() {
    assert_eq!(key_from_indices(&[0, 9, 10, 35]), "dvion-09az");
    let k = generate_key();
    assert_eq!(k.len(), 38);
    assert!(k.starts_with("dvion-"));
    assert!(k[6..].chars().all(|c| c.is_ascii_digit() || c.is_ascii_lowercase()));
    assert_ne!(generate_key(), k);
}
