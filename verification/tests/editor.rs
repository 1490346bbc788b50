use bed::buffer::Buffer;
use bed::engine::process_input;
use bed::engine::Outcome;

fn feed(buf: &mut Buffer, line: &str) -> Outcome {
    process_input(buf, String::from(line))
}

fn keys(buf: &Buffer) -> Vec<usize> {
    let mut out = Vec::new();
    let mut i: usize = 0;
    while i < buf.len() {
        out.push(buf.key_at(i));
        i += 1;
    }
    out
}

fn texts(buf: &Buffer) -> Vec<String> {
    let mut out = Vec::new();
    let mut i: usize = 0;
    while i < buf.len() {
        out.push(buf.text_at(i).clone());
        i += 1;
    }
    out
}

#[test]
fn inserts_iterate_in_ascending_key_order() {
    let mut buf = Buffer::new();
    feed(&mut buf, "30 END");
    feed(&mut buf, "10 LET X = 1");
    feed(&mut buf, "20 PRINT X");
    assert_eq!(keys(&buf), vec![10, 20, 30]);
    assert_eq!(texts(&buf), vec!["10 LET X = 1", "20 PRINT X", "30 END"]);
}

#[test]
fn insert_overwrites_existing_key() {
    let mut buf = Buffer::new();
    feed(&mut buf, "10 LET A = 1");
    feed(&mut buf, "10 LET B = 2");
    assert_eq!(buf.len(), 1);
    assert_eq!(texts(&buf), vec!["10 LET B = 2"]);
}

#[test]
fn renumber_rekeys_to_multiples_of_ten() {
    let mut buf = Buffer::new();
    feed(&mut buf, "5 LET X = 1");
    feed(&mut buf, "100 PRINT X");
    let out = feed(&mut buf, "r");
    assert!(matches!(out, Outcome::Renumbered));
    assert_eq!(keys(&buf), vec![10, 20]);
    assert_eq!(texts(&buf), vec!["10 LET X = 1", "20 PRINT X"]);
}

#[test]
fn renumber_is_idempotent() {
    let mut buf = Buffer::new();
    feed(&mut buf, "10 LET X = 1");
    feed(&mut buf, "20 PRINT X");
    feed(&mut buf, "30 END");
    feed(&mut buf, "r");
    let once_keys = keys(&buf);
    let once_texts = texts(&buf);
    feed(&mut buf, "r");
    assert_eq!(keys(&buf), once_keys);
    assert_eq!(texts(&buf), once_texts);
}

#[test]
fn print_round_trips_buffer_text() {
    let mut buf = Buffer::new();
    feed(&mut buf, "10 LET X = 1");
    feed(&mut buf, "20 PRINT X");
    feed(&mut buf, "30 END");
    let out = feed(&mut buf, "p");
    match out {
        Outcome::Print(toks) => {
            let mut joined = String::new();
            for t in &toks {
                joined.push_str(&t.text);
            }
            assert_eq!(joined, "10 LET X = 1\n20 PRINT X\n30 END");
        }
        _ => panic!("expected a print outcome"),
    }
}

#[test]
fn save_carries_joined_buffer_content() {
    let mut buf = Buffer::new();
    feed(&mut buf, "10 LET X = 1");
    feed(&mut buf, "20 PRINT X");
    let out = feed(&mut buf, "w out.txt");
    match out {
        Outcome::Save(path, content) => {
            assert_eq!(path, "out.txt");
            assert_eq!(content, "10 LET X = 1\n20 PRINT X");
        }
        _ => panic!("expected a save outcome"),
    }
    assert_eq!(buf.len(), 2);
}

#[test]
fn unknown_input_leaves_buffer_unchanged() {
    let mut buf = Buffer::new();
    feed(&mut buf, "10 LET X = 1");
    let out = feed(&mut buf, "xyz");
    assert!(matches!(out, Outcome::Unknown));
    assert_eq!(keys(&buf), vec![10]);
    assert_eq!(texts(&buf), vec!["10 LET X = 1"]);
}

#[test]
fn bare_number_inserts_and_renumbers() {
    let mut buf = Buffer::new();
    feed(&mut buf, "7");
    assert_eq!(keys(&buf), vec![7]);
    assert_eq!(texts(&buf), vec!["7"]);
    feed(&mut buf, "r");
    assert_eq!(keys(&buf), vec![10]);
    assert_eq!(texts(&buf), vec!["10"]);
}

#[test]
fn overflowing_number_falls_through_to_unknown() {
    let mut buf = Buffer::new();
    let out = feed(&mut buf, "18446744073709551616 X");
    assert!(matches!(out, Outcome::Unknown));
    assert_eq!(buf.len(), 0);
}

#[test]
fn glued_number_prefix_is_no_insert() {
    let mut buf = Buffer::new();
    let out = feed(&mut buf, "10x stuff");
    assert!(matches!(out, Outcome::Unknown));
    assert_eq!(buf.len(), 0);
}

#[test]
fn leading_whitespace_before_number_still_inserts() {
    let mut buf = Buffer::new();
    feed(&mut buf, "  7 PRINT");
    assert_eq!(keys(&buf), vec![7]);
    assert_eq!(texts(&buf), vec!["  7 PRINT"]);
}

#[test]
fn commands_match_after_trimming() {
    let mut buf = Buffer::new();
    feed(&mut buf, "5 END");
    let out = feed(&mut buf, "  r  ");
    assert!(matches!(out, Outcome::Renumbered));
    assert_eq!(keys(&buf), vec![10]);
    let out = feed(&mut buf, " p ");
    assert!(matches!(out, Outcome::Print(_)));
}

#[test]
fn save_without_path_is_unknown() {
    let mut buf = Buffer::new();
    assert!(matches!(feed(&mut buf, "w"), Outcome::Unknown));
    assert!(matches!(feed(&mut buf, "w   "), Outcome::Unknown));
}

#[test]
fn save_path_is_first_word_only() {
    let mut buf = Buffer::new();
    feed(&mut buf, "10 END");
    let out = feed(&mut buf, "w out.txt backup");
    match out {
        Outcome::Save(path, _) => assert_eq!(path, "out.txt"),
        _ => panic!("expected a save outcome"),
    }
}

#[test]
fn empty_buffer_commands() {
    let mut buf = Buffer::new();
    assert!(matches!(feed(&mut buf, "r"), Outcome::Renumbered));
    assert_eq!(buf.len(), 0);
    match feed(&mut buf, "p") {
        Outcome::Print(toks) => assert_eq!(toks.len(), 0),
        _ => panic!("expected a print outcome"),
    }
    match feed(&mut buf, "w empty.txt") {
        Outcome::Save(path, content) => {
            assert_eq!(path, "empty.txt");
            assert_eq!(content, "");
        }
        _ => panic!("expected a save outcome"),
    }
}

#[test]
fn insert_is_highest_priority_dispatch() {
    let mut buf = Buffer::new();
    // Begins with a number, so it is an insert, never a command.
    feed(&mut buf, "10 r");
    assert_eq!(keys(&buf), vec![10]);
    assert_eq!(texts(&buf), vec!["10 r"]);
}
