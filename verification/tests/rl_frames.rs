use kfire_client::rl::frames::take_frame;

#[test]
fn one_whole_object_is_taken() {
    let (obj, rest) = take_frame(br#"{"a":1}tail"#).unwrap();
    assert_eq!(obj, br#"{"a":1}"#);
    assert_eq!(rest, b"tail");
}

#[test]
fn nothing_is_taken_from_an_incomplete_object() {
    assert!(take_frame(br#"{"a":"#).is_none());
}

#[test]
fn nested_objects_are_counted() {
    let src = br#"{"a":{"b":{"c":1}}}"#;
    let (obj, rest) = take_frame(src).unwrap();
    assert_eq!(obj, src);
    assert!(rest.is_empty());
}

#[test]
fn a_brace_inside_a_string_does_not_count() {
    let src = br#"{"a":"}{"}"#;
    let (obj, rest) = take_frame(src).unwrap();
    assert_eq!(obj, src);
    assert!(rest.is_empty());
}

#[test]
fn an_escaped_quote_does_not_close_the_string() {
    let src = br#"{"a":"say \" }"}"#;
    let (obj, rest) = take_frame(src).unwrap();
    assert_eq!(obj, src);
    assert!(rest.is_empty());
}

#[test]
fn an_escaped_backslash_does_not_escape_the_next_quote() {
    let src = br#"{"a":"c:\\"}"#;
    let (obj, rest) = take_frame(src).unwrap();
    assert_eq!(obj, src);
    assert!(rest.is_empty());
}

#[test]
fn leading_noise_before_the_first_brace_is_skipped() {
    let (obj, _) = take_frame(br#"  \r\n{"a":1}"#).unwrap();
    assert_eq!(obj, br#"{"a":1}"#);
}

#[test]
fn two_objects_are_taken_one_after_the_other() {
    let mut buf: Vec<u8> = br#"{"a":1}{"b":2}"#.to_vec();
    let (first, rest) = take_frame(&buf).unwrap();
    assert_eq!(first, br#"{"a":1}"#);
    buf = rest.to_vec();
    let (second, rest) = take_frame(&buf).unwrap();
    assert_eq!(second, br#"{"b":2}"#);
    assert!(rest.is_empty());
}

#[test]
fn an_object_split_across_two_reads_is_taken_once_whole() {
    let mut buf: Vec<u8> = br#"{"Event":"Update"#.to_vec();
    assert!(take_frame(&buf).is_none());
    buf.extend_from_slice(br#"State","Data":{}}"#);
    let (obj, rest) = take_frame(&buf).unwrap();
    assert_eq!(obj, br#"{"Event":"UpdateState","Data":{}}"#);
    assert!(rest.is_empty());
}

#[test]
fn a_stream_cut_at_every_possible_offset_still_yields_every_object() {
    let stream = br#"{"Event":"A","Data":{"x":"}{"}}{"Event":"B","Data":"{\"y\":1}"}"#;
    let first: &[u8] = br#"{"Event":"A","Data":{"x":"}{"}}"#;
    let second: &[u8] = br#"{"Event":"B","Data":"{\"y\":1}"}"#;
    for cut in 0..stream.len() {
        let mut buf: Vec<u8> = Vec::new();
        let mut frames: Vec<Vec<u8>> = Vec::new();
        for chunk in [&stream[..cut], &stream[cut..]] {
            buf.extend_from_slice(chunk);
            while let Some((obj, rest)) = take_frame(&buf) {
                let obj = obj.to_vec();
                let rest = rest.to_vec();
                frames.push(obj);
                buf = rest;
            }
        }
        assert_eq!(frames, vec![first.to_vec(), second.to_vec()], "cut at byte {cut}");
    }
}
