use kernel_mm::console::{echo, getshell, line_key, shell_key, wait_step};

#[test]
fn backspace_and_delete_erase_on_the_line() {
    assert_eq!(echo(8), vec![8, 32, 8]);
    assert_eq!(echo(127), vec![8, 32, 8]);
    assert_eq!(echo(b'a'), vec![b'a']);
    assert_eq!(echo(b'\n'), vec![b'\n']);
    assert_eq!(echo(0), vec![0]);
}

#[test]
fn line_ends_at_a_line_feed_or_a_carriage_return() {
    let mut line = Vec::new();
    assert!(!line_key(&mut line, b'l'));
    assert!(!line_key(&mut line, b's'));
    // a backspace is a character like any other
    assert!(!line_key(&mut line, 8));
    assert!(line_key(&mut line, b'\n'));
    assert_eq!(line, vec![b'l', b's', 8]);
    assert!(line_key(&mut line, b'\r'));
    assert_eq!(line, vec![b'l', b's', 8]);
}

#[test]
fn shell_erases_the_last_character() {
    let mut line = Vec::new();
    assert!(!shell_key(&mut line, 8));
    assert!(!shell_key(&mut line, 127));
    assert_eq!(line, Vec::<u8>::new());
    for &key in b"forx" {
        assert!(!shell_key(&mut line, key));
    }
    assert!(!shell_key(&mut line, 127));
    assert!(!shell_key(&mut line, b'k'));
    assert_eq!(line, b"fork".to_vec());
    assert!(shell_key(&mut line, b'\r'));
    assert_eq!(line, b"fork".to_vec());
}

#[test]
fn shell_reads_up_to_the_end_of_the_line() {
    assert_eq!(getshell(b"exec\nfork\n"), (b"exec".to_vec(), 5));
    assert_eq!(getshell(b"gte\x08\x08et\rrest"), (b"get".to_vec(), 8));
    assert_eq!(getshell(b"\n"), (vec![], 1));
    assert_eq!(getshell(b""), (vec![], 0));
    // no end of line: all keys are used up
    assert_eq!(getshell(b"ab\x7f"), (b"a".to_vec(), 3));
}

#[test]
fn parent_asks_again_while_no_child_has_ended() {
    assert_eq!(wait_step(-2), None);
    assert_eq!(wait_step(-1), Some(-1));
    assert_eq!(wait_step(0), Some(0));
    assert_eq!(wait_step(7), Some(7));
}
