use camos::text::{append_decimal, append_hexadecimal};

#[test]
fn numbers_are_written() {
    let mut text = String::from("n = ");
    append_decimal(&mut text, 0);
    text.push(' ');
    append_decimal(&mut text, 1050);
    text.push(' ');
    append_decimal(&mut text, u64::MAX);
    text.push(' ');
    append_hexadecimal(&mut text, 0);
    text.push(' ');
    append_hexadecimal(&mut text, 0xFFFF_8800_0000_1A2B);

    assert_eq!(
        text,
        format!("n = {} {} {} {:#X} {:#X}", 0, 1050, u64::MAX, 0, 0xFFFF_8800_0000_1A2Bu64)
    );
}
