use term_chat::input::{interpret, Command, PAGE_LINES};

fn text_of(data: &[u8]) -> String {
    match interpret(data) {
        Command::AppendText(t) => t,
        _ => panic!("expected text"),
    }
}

#[test]
fn known_keys_are_classified() {
    assert!(matches!(interpret(&[3]), Command::Disconnect));
    assert!(matches!(interpret(&[13]), Command::Submit));
    assert!(matches!(interpret(&[127]), Command::DeleteLastChar));
    assert!(matches!(interpret(&[8]), Command::DeleteLastChar));
    assert!(matches!(interpret(&[27, 91, 65]), Command::ScrollBack(1)));
    assert!(matches!(interpret(&[27, 91, 66]), Command::ScrollForward(1)));
    assert!(matches!(interpret(&[27, 91, 53, 126]), Command::ScrollBack(10)));
    assert!(matches!(interpret(&[27, 91, 54, 126]), Command::ScrollForward(10)));
    assert_eq!(PAGE_LINES, 10);
}

#[test]
fn other_bytes_become_text() {
    assert_eq!(text_of(b"hi"), "hi");
    assert_eq!(text_of(&[3, 3]), "");
    assert_eq!(text_of(b"\x1b[1mbold\x1b[0m!"), "bold!");
}

#[test]
fn malformed_bytes_are_replaced() {
    assert_eq!(text_of(&[0x61, 0xff, 0x62]), "a\u{FFFD}b");
    assert_eq!(text_of(&[]), "");
}
