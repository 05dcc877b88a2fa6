use aoclib::segments::{decode_outputs, find_configuration, get_easies, parse_text, Digit,
    Segment};

#[test]
fn wires_parse_in_order() {
    let d = Digit::new("ab");
    assert_eq!(d.segments, vec![Segment::A, Segment::B]);
    assert_eq!(Segment::to_bitmap(&d.segments), 3);
    assert_eq!(Segment::to_bitmap(&[Segment::G]), 64);
}

#[test]
fn entries_split_at_the_bar() {
    let lines = vec!["be cfbegad | fdgacbe cefdb".to_string()];
    let parsed = parse_text(&lines);
    assert_eq!(parsed.len(), 1);
    assert_eq!(parsed[0].uniques.len(), 2);
    assert_eq!(parsed[0].uniques[0].segments, vec![Segment::B, Segment::E]);
    assert_eq!(parsed[0].output.len(), 2);
    assert_eq!(parsed[0].output[1].segments.len(), 5);
}

#[test]
fn easies_are_the_unique_sizes() {
    let lines = vec!["be cfbegad | be cefdb gad cefabdg".to_string()];
    let parsed = parse_text(&lines);
    let easies = get_easies(&parsed);
    // lengths 2, 3 and 7 qualify; the length-5 digit does not
    assert_eq!(easies.len(), 3);
    assert_eq!(easies[0].segments, vec![Segment::B, Segment::E]);
}

#[test]
fn scrambled_entry_decodes() {
    let lines = vec![
        "acedgfb cdfbe gcdfa fbcad dab cefabd cdfgeb eafb cagedb ab | cdfeb fcadb cdfeb cdbaf"
            .to_string(),
    ];
    let parsed = parse_text(&lines);
    let config = find_configuration(&parsed[0].uniques);
    assert_eq!(config.len(), 128);
    // the 1 is the two-wire pattern `ab`
    let one = Segment::to_bitmap(&Digit::new("ab").segments);
    assert_eq!(config[one], Some(1));
    let eight = Segment::to_bitmap(&Digit::new("acedgfb").segments);
    assert_eq!(config[eight], Some(8));
    let five = Segment::to_bitmap(&Digit::new("cdfbe").segments);
    assert_eq!(config[five], Some(5));
    let decoded = decode_outputs(&parsed);
    assert_eq!(decoded, vec![5353]);
}
