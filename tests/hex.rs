use fork_state::hex::{hex_fmt_many, HexDisplay};

#[test]
fn short_bytes_in_full() {
    assert_eq!(HexDisplay::from(&[0x00, 0x0f, 0xab, 0xff]).to_string(), "000fabff");
    assert_eq!(HexDisplay::from(&[]).to_string(), "");
}

#[test]
fn long_bytes_keep_both_ends() {
    let mut b = vec![0x11u8; 1027];
    b[0] = 0xab;
    b[1026] = 0xcd;
    let s = HexDisplay::from(&b).to_string();
    assert_eq!(s.len(), 1024 + 3 + 1024);
    assert!(s.starts_with("ab1111"));
    assert!(s.ends_with("1111cd"));
    assert_eq!(&s[1024..1027], "...");
}

#[test]
fn just_below_the_limit_is_not_shortened() {
    let b = vec![0x01u8; 1026];
    assert_eq!(HexDisplay::from(&b).to_string().len(), 2052);
}

#[test]
fn debug_form_never_shortens() {
    let b = vec![0x01u8; 2000];
    assert_eq!(HexDisplay::from(&b).debug_string().len(), 4000);
}

#[test]
fn many_joined_with_commas() {
    assert_eq!(hex_fmt_many(&[vec![0x01, 0x02], vec![], vec![0xff]]), "0102, , ff");
    assert_eq!(hex_fmt_many(&[]), "");
    assert_eq!(hex_fmt_many(&[vec![0xde, 0xad]]), "dead");
}
