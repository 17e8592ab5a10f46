use deentry::text::{is_alnum, is_ascii, is_control, is_whitespace};

#[test]
fn character_classes_agree_with_std() {
    for u in 0u32..=0x10FFFF {
        if let Some(c) = char::from_u32(u) {
            assert_eq!(is_whitespace(c), c.is_whitespace(), "whitespace {:?}", c);
            assert_eq!(is_ascii(c), c.is_ascii(), "ascii {:?}", c);
            assert_eq!(is_control(c), c.is_ascii_control(), "control {:?}", c);
            assert_eq!(is_alnum(c), c.is_ascii_alphanumeric(), "alphanumeric {:?}", c);
        }
    }
}
