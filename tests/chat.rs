use russh_keys::key::{KeyPair, PublicKey};
use russh_keys::PublicKeyBase64;
use term_chat::chat::{Chat, ChatError, Frame, Reaction};
use term_chat::history::HistoryLog;

fn new_key() -> PublicKey {
    KeyPair::generate_ed25519().unwrap().clone_public_key().unwrap()
}

fn join(chat: &mut Chat, name: &str, width: u16, height: u16) -> u64 {
    let id = chat.issue_id().unwrap();
    chat.record_auth(id, name.to_string(), new_key().public_key_bytes());
    chat.open_session(id, width, height).unwrap();
    id
}

fn frames(r: Result<Reaction, ChatError>) -> Vec<Frame> {
    match r.unwrap() {
        Reaction::Frames(fs) => fs,
        Reaction::Close => panic!("expected frames"),
    }
}

fn type_text(chat: &mut Chat, id: u64, text: &str) -> Vec<Frame> {
    frames(chat.handle_data(id, text.as_bytes()))
}

fn submit(chat: &mut Chat, id: u64, text: &str) -> Vec<Frame> {
    type_text(chat, id, text);
    frames(chat.handle_data(id, &[13]))
}

fn bias(chat: &Chat, id: u64) -> i128 {
    chat.session(id).unwrap().scroll_bias
}

#[test]
fn submit_is_seen_by_every_session() {
    let mut chat = Chat::new();
    let alice = join(&mut chat, "alice", 80, 24);
    let bob = join(&mut chat, "bob", 80, 24);
    type_text(&mut chat, alice, "h");
    type_text(&mut chat, alice, "i");
    let fs = frames(chat.handle_data(alice, &[13]));
    let alice_fp = chat.session(alice).unwrap().fingerprint.clone();
    let expected = vec![alice_fp, "alice: hi".to_string(), String::new()];
    assert_eq!(chat.history_log().snapshot(), expected);
    assert_eq!(fs.len(), 2);
    let to_bob: Vec<&Frame> = fs.iter().filter(|f| f.session == bob).collect();
    assert_eq!(to_bob.len(), 1);
    assert_eq!(to_bob[0].history, expected);
    assert_eq!(chat.session(alice).unwrap().input, "");
    assert_eq!(chat.session(bob).unwrap().input, "");
}

#[test]
fn backspace_on_empty_input_is_a_no_op() {
    let mut chat = Chat::new();
    let id = join(&mut chat, "alice", 80, 24);
    let fs = frames(chat.handle_data(id, &[8]));
    assert_eq!(fs.len(), 1);
    assert_eq!(fs[0].input, "");
    assert_eq!(chat.session(id).unwrap().input, "");
    let fs = frames(chat.handle_data(id, &[127]));
    assert_eq!(fs[0].input, "");
}

#[test]
fn backspace_removes_one_character() {
    let mut chat = Chat::new();
    let id = join(&mut chat, "alice", 80, 24);
    type_text(&mut chat, id, "añ");
    let fs = frames(chat.handle_data(id, &[127]));
    assert_eq!(fs[0].input, "a");
    let fs = frames(chat.handle_data(id, &[8]));
    assert_eq!(fs[0].input, "");
}

fn overflowing_by_five() -> (Chat, u64) {
    let mut chat = Chat::new();
    let id = join(&mut chat, "alice", 80, 10);
    submit(&mut chat, id, "hi");
    submit(&mut chat, id, "hi");
    submit(
        &mut chat,
        id,
        "aaaaaaaaaa bbbbbbbbbb cccccccccc dddddddddd eeeeeeeeee ffffffffff gggggggggg hhhhhhhhhh iiiiiiiiii",
    );
    (chat, id)
}

#[test]
fn scroll_back_is_clamped_at_the_overflow() {
    let (mut chat, id) = overflowing_by_five();
    let fs = frames(chat.handle_data(id, &[8]));
    assert_eq!(fs[0].scroll_offset, 5);
    assert_eq!(bias(&chat, id), 0);
    for _ in 0..20 {
        let fs = frames(chat.handle_data(id, &[27, 91, 65]));
        assert!(fs[0].scroll_offset <= 5);
    }
    assert_eq!(bias(&chat, id), -5);
    let fs = frames(chat.handle_data(id, &[27, 91, 65]));
    assert_eq!(bias(&chat, id), -5);
    assert_eq!(fs[0].scroll_offset, 0);
}

#[test]
fn scroll_forward_stops_at_the_bottom() {
    let (mut chat, id) = overflowing_by_five();
    frames(chat.handle_data(id, &[27, 91, 65]));
    frames(chat.handle_data(id, &[27, 91, 65]));
    assert_eq!(bias(&chat, id), -2);
    let fs = frames(chat.handle_data(id, &[27, 91, 66]));
    assert_eq!(bias(&chat, id), -1);
    assert_eq!(fs[0].scroll_offset, 4);
    let fs = frames(chat.handle_data(id, &[27, 91, 54, 126]));
    assert_eq!(bias(&chat, id), 0);
    assert_eq!(fs[0].scroll_offset, 5);
}

#[test]
fn page_up_scrolls_ten_lines_within_bounds() {
    let mut chat = Chat::new();
    let id = join(&mut chat, "alice", 80, 10);
    for _ in 0..10 {
        submit(&mut chat, id, "hi");
    }
    let fs = frames(chat.handle_data(id, &[8]));
    let overflow = fs[0].scroll_offset;
    assert!(overflow > 10);
    let fs = frames(chat.handle_data(id, &[27, 91, 53, 126]));
    assert_eq!(bias(&chat, id), -10);
    assert_eq!(fs[0].scroll_offset, overflow - 10);
}

#[test]
fn ctrl_c_removes_the_session() {
    let mut chat = Chat::new();
    let alice = join(&mut chat, "alice", 80, 24);
    let bob = join(&mut chat, "bob", 80, 24);
    let carol = join(&mut chat, "carol", 80, 24);
    let r = chat.handle_data(bob, &[3]).unwrap();
    assert!(matches!(r, Reaction::Close));
    assert!(chat.session(bob).is_none());
    assert!(chat.session(alice).is_some());
    assert!(chat.session(carol).is_some());
    assert_eq!(chat.session_count(), 2);
    assert_eq!(chat.handle_data(bob, &[13]).err(), Some(ChatError::SessionNotFound));
}

#[test]
fn resize_rewraps_the_history() {
    let mut chat = Chat::new();
    let id = join(&mut chat, "alice", 80, 10);
    submit(&mut chat, id, "hi");
    submit(&mut chat, id, "hi");
    submit(&mut chat, id, "hi");
    let fs = frames(chat.handle_data(id, &[27, 91, 65]));
    let fs2 = frames(chat.handle_data(id, &[27, 91, 65]));
    assert_eq!(bias(&chat, id), -2);
    assert_eq!(fs[0].scroll_offset, 3);
    assert_eq!(fs2[0].scroll_offset, 2);
    let f = chat.resize(id, 20, 10).unwrap();
    assert_eq!(bias(&chat, id), -2);
    assert_eq!(f.scroll_offset, 8);
    let f = chat.resize(id, 80, 10).unwrap();
    assert_eq!(f.scroll_offset, 2);
    assert_eq!(chat.resize(99, 80, 10).err(), Some(ChatError::SessionNotFound));
}

#[test]
fn resize_reclamps_a_bias_past_the_new_overflow() {
    let mut chat = Chat::new();
    let id = join(&mut chat, "alice", 20, 10);
    submit(&mut chat, id, "hi");
    submit(&mut chat, id, "hi");
    submit(&mut chat, id, "hi");
    for _ in 0..20 {
        frames(chat.handle_data(id, &[27, 91, 65]));
    }
    assert_eq!(bias(&chat, id), -10);
    let f = chat.resize(id, 80, 10).unwrap();
    assert_eq!(bias(&chat, id), -4);
    assert_eq!(f.scroll_offset, 0);
}

#[test]
fn empty_submit_changes_nothing() {
    let mut chat = Chat::new();
    let alice = join(&mut chat, "alice", 80, 24);
    join(&mut chat, "bob", 80, 24);
    let fs = frames(chat.handle_data(alice, &[13]));
    assert_eq!(fs.len(), 1);
    assert_eq!(fs[0].session, alice);
    assert_eq!(chat.history_log().len(), 0);
}

#[test]
fn history_only_grows() {
    let mut chat = Chat::new();
    let alice = join(&mut chat, "alice", 80, 24);
    let bob = join(&mut chat, "bob", 80, 24);
    submit(&mut chat, alice, "one");
    let first = chat.history_log().snapshot();
    frames(chat.handle_data(bob, &[27, 91, 65]));
    chat.handle_data(bob, &[3]).unwrap();
    submit(&mut chat, alice, "two");
    let second = chat.history_log().snapshot();
    assert_eq!(second.len(), 6);
    assert_eq!(&second[..3], &first[..]);
    assert_eq!(second[4], "alice: two");
}

#[test]
fn open_without_auth_is_refused() {
    let mut chat = Chat::new();
    let id = chat.issue_id().unwrap();
    assert_eq!(chat.open_session(id, 80, 24).err(), Some(ChatError::AuthRecordMissing));
    assert!(chat.session(id).is_none());
}

#[test]
fn an_auth_record_is_used_once() {
    let mut chat = Chat::new();
    let id = chat.issue_id().unwrap();
    chat.record_auth(id, "alice".to_string(), new_key().public_key_bytes());
    assert!(chat.open_session(id, 80, 24).is_ok());
    assert_eq!(chat.open_session(id, 80, 24).err(), Some(ChatError::AuthRecordMissing));
}

#[test]
fn a_second_auth_record_replaces_the_first() {
    let mut chat = Chat::new();
    let id = chat.issue_id().unwrap();
    chat.record_auth(id, "alice".to_string(), new_key().public_key_bytes());
    chat.record_auth(id, "bob".to_string(), new_key().public_key_bytes());
    chat.open_session(id, 80, 24).unwrap();
    assert_eq!(chat.session(id).unwrap().identity, "bob");
}

#[test]
fn ids_are_issued_in_order() {
    let mut chat = Chat::new();
    assert_eq!(chat.issue_id(), Some(0));
    assert_eq!(chat.issue_id(), Some(1));
    assert_eq!(chat.issue_id(), Some(2));
}

#[test]
fn fingerprint_is_the_key_digest() {
    let mut chat = Chat::new();
    let key = new_key();
    let expected = key.fingerprint();
    let id = chat.issue_id().unwrap();
    chat.record_auth(id, "alice".to_string(), key.public_key_bytes());
    let f = chat.open_session(id, 80, 24).unwrap();
    assert_eq!(f.session, id);
    assert_eq!(f.input, "");
    let s = chat.session(id).unwrap();
    assert_eq!(s.fingerprint, expected);
    assert_eq!(s.fingerprint.chars().count(), 43);
    assert_eq!(s.identity, "alice");
    assert_eq!((s.width, s.height, s.scroll_bias), (80, 24, 0));
}

#[test]
fn typed_escapes_are_stripped() {
    let mut chat = Chat::new();
    let id = join(&mut chat, "alice", 80, 24);
    let fs = frames(chat.handle_data(id, b"\x1b[31mred\x1b[0m"));
    assert_eq!(fs[0].input, "red");
}

#[test]
fn history_log_appends_message_blocks() {
    let mut log = HistoryLog::new();
    assert_eq!(log.len(), 0);
    log.append_message(&"alice-fp".to_string(), &"alice".to_string(), &"hello".to_string());
    assert_eq!(log.snapshot(), vec!["alice-fp".to_string(), "alice: hello".to_string(), String::new()]);
    log.append_message(&"bob-fp".to_string(), &"bob".to_string(), &"yo".to_string());
    assert_eq!(log.len(), 6);
    assert_eq!(log.snapshot()[4], "bob: yo");
}

#[test]
fn a_record_that_holds_no_key_is_refused() {
    let mut chat = Chat::new();
    let id = chat.issue_id().unwrap();
    chat.record_auth(id, "mallory".to_string(), vec![0, 0, 0, 3, 1, 2, 3]);
    assert_eq!(chat.open_session(id, 80, 24).err(), Some(ChatError::InvalidCredential));
    assert!(chat.session(id).is_none());
}

#[test]
fn each_session_shows_its_own_key() {
    let mut chat = Chat::new();
    let first_key = new_key();
    let second_key = new_key();
    let a = chat.issue_id().unwrap();
    let b = chat.issue_id().unwrap();
    chat.record_auth(a, "alice".to_string(), first_key.public_key_bytes());
    chat.record_auth(b, "bob".to_string(), second_key.public_key_bytes());
    chat.open_session(b, 80, 24).unwrap();
    chat.open_session(a, 80, 24).unwrap();
    assert_eq!(chat.session(a).unwrap().fingerprint, first_key.fingerprint());
    assert_eq!(chat.session(b).unwrap().fingerprint, second_key.fingerprint());
    assert_ne!(first_key.fingerprint(), second_key.fingerprint());
}
