use rshell::readline::{completion_step, LineEditor, Reader};

fn strings(v: &[&str]) -> Vec<String> {
    v.iter().map(|s| s.to_string()).collect()
}

fn reader() -> Reader {
    let mut r = Reader::new();
    r.update_trie(&strings(&["echo", "exit", "clear-fbo", "clear-fbo-scissor", "clear-fbo-tex"]));
    r
}

fn type_text(r: &Reader, e: &mut LineEditor, text: &str) {
    for b in text.bytes() {
        r.handle_key(e, "$ ", b);
    }
}

#[test]
fn typing_echoes_and_enter_finishes() {
    let r = reader();
    let mut e = LineEditor::new();
    let resp = r.handle_key(&mut e, "$ ", b'l');
    assert_eq!(resp.output, b"l".to_vec());
    assert!(!resp.finish);
    let resp = r.handle_key(&mut e, "$ ", b'\r');
    assert!(resp.finish);
    assert_eq!(resp.output, b"\n".to_vec());
    assert_eq!(e.line(), "l");
}

#[test]
fn delete_erases_last_byte() {
    let r = reader();
    let mut e = LineEditor::new();
    assert!(r.handle_key(&mut e, "$ ", 0x7f).output.is_empty());
    type_text(&r, &mut e, "ab");
    let resp = r.handle_key(&mut e, "$ ", 0x7f);
    assert_eq!(resp.output, vec![8, b' ', 8]);
    assert_eq!(e.line(), "a");
}

#[test]
fn tab_single_candidate_completes_with_space() {
    let r = reader();
    let mut e = LineEditor::new();
    type_text(&r, &mut e, "ec");
    let resp = r.handle_key(&mut e, "$ ", b'\t');
    assert_eq!(resp.output, b"ho ".to_vec());
    assert_eq!(e.line(), "echo ");
}

#[test]
fn tab_without_candidates_rings() {
    let r = reader();
    let mut e = LineEditor::new();
    type_text(&r, &mut e, "zz");
    assert_eq!(r.handle_key(&mut e, "$ ", b'\t').output, vec![7]);
    let mut empty = LineEditor::new();
    assert_eq!(r.handle_key(&mut empty, "$ ", b'\t').output, vec![7]);
}

#[test]
fn tab_extends_to_common_prefix_then_latches_then_lists() {
    let r = reader();
    let mut e = LineEditor::new();
    type_text(&r, &mut e, "clear-");
    let resp = r.handle_key(&mut e, "$ ", b'\t');
    assert_eq!(resp.output, b"fbo".to_vec());
    assert_eq!(e.line(), "clear-fbo");
    let resp = r.handle_key(&mut e, "$ ", b'\t');
    assert_eq!(resp.output, vec![7]);
    assert!(e.ambiguous);
    type_text(&r, &mut e, "x");
    r.handle_key(&mut e, "$ ", 0x7f);
    let resp = r.handle_key(&mut e, "$ ", b'\t');
    assert_eq!(
        String::from_utf8(resp.output).unwrap(),
        "\nclear-fbo  clear-fbo-scissor  clear-fbo-tex  \n$ clear-fbo"
    );
    assert_eq!(e.line(), "clear-fbo");
}

#[test]
fn completion_step_cases() {
    let one = completion_step("ex", &strings(&["exit"]), false, "$ ");
    assert_eq!(one.append, b"it ".to_vec());
    assert!(!one.ambiguous);
    let two = completion_step("e", &strings(&["echo", "exit"]), false, "$ ");
    assert_eq!(two.output, vec![7]);
    assert!(two.append.is_empty());
    assert!(two.ambiguous);
    let listed = completion_step("e", &strings(&["echo", "exit"]), true, "> ");
    assert_eq!(String::from_utf8(listed.output).unwrap(), "\necho  exit  \n> e");
}

#[test]
fn listing_is_sorted_whatever_the_insertion_order() {
    let mut r = Reader::new();
    r.update_trie(&strings(&["cab", "caa"]));
    let mut e = LineEditor::new();
    type_text(&r, &mut e, "ca");
    assert_eq!(r.handle_key(&mut e, "$ ", b'\t').output, vec![7]);
    let resp = r.handle_key(&mut e, "$ ", b'\t');
    assert_eq!(String::from_utf8(resp.output).unwrap(), "\ncaa  cab  \n$ ca");
}

#[test]
fn non_ascii_byte_is_shown_as_its_character() {
    let r = reader();
    let mut e = LineEditor::new();
    let resp = r.handle_key(&mut e, "$ ", 0xe9);
    assert_eq!(resp.output, "\u{e9}".as_bytes().to_vec());
    assert_eq!(e.buffer, vec![0xe9]);
    assert_eq!(e.line(), "\u{fffd}");
}

#[test]
fn latched_tab_still_extends_to_common_prefix() {
    let mut r = Reader::new();
    r.update_trie(&strings(&["pqrs1", "pqrs2", "pz"]));
    let mut e = LineEditor::new();
    type_text(&r, &mut e, "p");
    assert_eq!(r.handle_key(&mut e, "$ ", b'\t').output, vec![7]);
    assert!(e.ambiguous);
    type_text(&r, &mut e, "q");
    let resp = r.handle_key(&mut e, "$ ", b'\t');
    assert_eq!(resp.output, b"rs".to_vec());
    assert_eq!(e.line(), "pqrs");
    let resp = r.handle_key(&mut e, "$ ", b'\t');
    assert_eq!(String::from_utf8(resp.output).unwrap(), "\npqrs1  pqrs2  \n$ pqrs");
}
