use repl_editor::{is_whitespace, utf8_len};

#[test]
fn whitespace_is_the_unicode_property() {
    for v in 0..=0x10ffffu32 {
        if let Some(c) = char::from_u32(v) {
            assert_eq!(is_whitespace(c), c.is_whitespace(), "{:x}", v);
            assert_eq!(utf8_len(c), c.len_utf8(), "{:x}", v);
        }
    }
}
