use tools::input::{parse_input, try_parse_input, Input};
use tools::output::{parse_output, read};

fn text_instance() -> Input {
    Input { D: 3, rs: vec![(2, 2)], ts: vec![3, 1, 0, 4, 6, 5, 2] }
}

#[test]
fn instance_text() {
    assert_eq!(text_instance().to_string(), "3 1\n2 2\n3\n1\n0\n4\n6\n5\n2\n");
}

#[test]
fn instance_text_reads_back() {
    let input = Input { D: 4, rs: vec![(3, 0), (2, 3), (10, 11)], ts: (0..12).rev().collect() };
    let back = parse_input(&input.to_string());
    assert_eq!(back.D, input.D);
    assert_eq!(back.rs, input.rs);
    assert_eq!(back.ts, input.ts);
}

#[test]
fn instance_tokens_may_be_spread_anyhow() {
    let input = parse_input("  3\t1 2\n\n 2 +3 1\r\n0 4 6 5 2  extra tokens");
    assert_eq!(input.D, 3);
    assert_eq!(input.rs, vec![(2, 2)]);
    assert_eq!(input.ts, vec![3, 1, 0, 4, 6, 5, 2]);
}

#[test]
fn malformed_instances_do_not_read() {
    assert!(try_parse_input("3 1\n2 2\n3\n").is_none());
    assert!(try_parse_input("0 0").is_none());
    assert!(try_parse_input("2 4 0 0 0 0 0 0 0 0").is_none());
    assert!(try_parse_input("3 x").is_none());
    assert!(try_parse_input("3 -1").is_none());
    assert!(try_parse_input("").is_none());
    assert!(try_parse_input("99999999999999999999999 0").is_none());
    assert!(try_parse_input("1 0").is_some());
}

#[test]
fn read_tokens() {
    assert_eq!(read(Some("3"), 0, 5), Ok(3));
    assert_eq!(read(Some("+0"), 0, 5), Ok(0));
    assert_eq!(read(Some("7"), 0, 5), Err("Out of range: 7".to_owned()));
    assert_eq!(read(Some("x1"), 0, 5), Err("Parse error: x1".to_owned()));
    assert_eq!(read(Some(""), 0, 5), Err("Parse error: ".to_owned()));
    assert_eq!(read(None, 0, 5), Err("Unexpected EOF".to_owned()));
    assert_eq!(read(Some("2"), 3, 5), Err("Out of range: 2".to_owned()));
}

#[test]
fn answer_with_comments() {
    let out = parse_output(&text_instance(), "# hello\n2 0\n\n  #  #c\n 2 1 \n# dropped\n").unwrap();
    assert_eq!(out.actions, vec![(2, 0), (2, 1)]);
    assert_eq!(out.comments, vec![" hello\n".to_owned(), "  #c\n".to_owned()]);
}

#[test]
fn answer_errors() {
    let s = text_instance();
    assert_eq!(parse_output(&s, "1\n").err(), Some("Unexpected EOF".to_owned()));
    assert_eq!(parse_output(&s, "a 1\n").err(), Some("Parse error: a".to_owned()));
    assert_eq!(parse_output(&s, "1 4\n").err(), Some("Out of range: 4".to_owned()));
    assert_eq!(parse_output(&s, " 1 2 3 \n").err(), Some("Illegal output: 1 2 3".to_owned()));
    assert_eq!(parse_output(&s, "-1 0\n").err(), Some("Parse error: -1".to_owned()));
    let one = Input { D: 1, rs: vec![], ts: vec![] };
    assert_eq!(parse_output(&one, "0 0\n").err(), Some("Too many output".to_owned()));
    assert!(parse_output(&one, "\n\n# nothing\n").unwrap().actions.is_empty());
}

#[test]
fn answer_coordinates_may_equal_the_size() {
    let out = parse_output(&text_instance(), "3 3\r\n+1 0").unwrap();
    assert_eq!(out.actions, vec![(3, 3), (1, 0)]);
    assert_eq!(out.comments, vec![String::new(), String::new()]);
}
