use yunzhi::text::char_is_whitespace;

#[test]
fn whitespace_agrees_with_std() {
    for u in 0u32..0x11_0000 {
        if let Some(c) = char::from_u32(u) {
            assert_eq!(char_is_whitespace(c), c.is_whitespace(), "code point {:#x}", u);
        }
    }
}
