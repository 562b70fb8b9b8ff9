use visual_asm::parser::{is_float, parse, ParseErrorKind};

fn chars(s: &str) -> Vec<char> {
    s.chars().collect()
}

#[test]
fn empty_text_gives_one_empty_block() {
    let r = parse("").unwrap();
    assert_eq!(r.len(), 1);
    assert!(r[0].pos.is_none());
    assert_eq!(r[0].block.text, "");
    assert!(r[0].block.next.is_none());
}

#[test]
fn plain_text_is_one_block() {
    let r = parse("mov eax, 1\r\n\nret").unwrap();
    assert_eq!(r.len(), 1);
    assert!(r[0].pos.is_none());
    assert_eq!(r[0].block.text, "mov eax, 1\n\nret");
}

#[test]
fn block_lines_start_blocks() {
    let r = parse(";#codeblock,1,2,\nx\n;#codeblock,3.5,-4,\ny\nz").unwrap();
    assert_eq!(r.len(), 2);
    assert_eq!(r[0].pos, Some(("1".to_string(), "2".to_string())));
    assert_eq!(r[0].block.text, "x");
    assert_eq!(r[0].block.next, Some(1));
    assert_eq!(r[1].pos, Some(("3.5".to_string(), "-4".to_string())));
    assert_eq!(r[1].block.text, "y\nz");
    assert_eq!(r[1].block.next, None);
    assert_eq!(r[1].block.next_branch, None);
}

#[test]
fn text_before_the_first_block_line_is_kept() {
    let r = parse("pre\n;#codeblock,1,2,\nx").unwrap();
    assert_eq!(r.len(), 2);
    assert!(r[0].pos.is_none());
    assert_eq!(r[0].block.text, "pre");
    assert_eq!(r[0].block.next, Some(1));
    assert_eq!(r[1].block.text, "x");
}

#[test]
fn block_with_no_text_is_dropped() {
    let r = parse(";#codeblock,1,2,\n;#codeblock,3,4,\nz").unwrap();
    assert_eq!(r.len(), 1);
    assert_eq!(r[0].pos, Some(("3".to_string(), "4".to_string())));
    assert_eq!(r[0].block.text, "z");
}

#[test]
fn dropping_a_block_unlinks_the_one_before() {
    let r = parse("a\n;#codeblock,1,2,\n;#codeblock,3,4,\nz").unwrap();
    assert_eq!(r.len(), 2);
    assert_eq!(r[0].block.text, "a");
    assert_eq!(r[0].block.next, None);
    assert_eq!(r[1].block.text, "z");
}

#[test]
fn last_block_with_no_text_stays() {
    let r = parse("a\n;#codeblock,7,8,").unwrap();
    assert_eq!(r.len(), 2);
    assert_eq!(r[0].block.next, Some(1));
    assert_eq!(r[1].pos, Some(("7".to_string(), "8".to_string())));
    assert_eq!(r[1].block.text, "");
}

#[test]
fn empty_lines_at_the_start_of_a_block_are_lost() {
    let r = parse(";#codeblock,0,0,\n\n\nnop\n").unwrap();
    assert_eq!(r[0].block.text, "nop");
}

#[test]
fn too_few_parameters() {
    let e = parse("a\n;#codeblock,1").unwrap_err();
    assert_eq!(e.kind, ParseErrorKind::NotEnoughParameters);
    assert_eq!(e.line, 1);
    assert_eq!(e.text, ";#codeblock,1");
    assert_eq!(e.desc(), "Not enough parameters");
    assert_eq!(
        e.message(),
        "File can not be parsed: Not enough parameters\nError occured on line 2:\n;#codeblock,1"
    );
}

#[test]
fn coordinate_that_is_not_a_number() {
    let e = parse(";#codeblock,1,2,\nx\n;#codeblock,1x,2,").unwrap_err();
    assert_eq!(e.kind, ParseErrorKind::InvalidNumber);
    assert_eq!(e.line, 2);
    assert_eq!(e.desc(), "Not a valid number parameter");
    let e = parse(";#codeblock,1, 2,").unwrap_err();
    assert_eq!(e.kind, ParseErrorKind::InvalidNumber);
    assert_eq!(e.line, 0);
}

#[test]
fn unknown_metadata() {
    let e = parse("x\ny\n;#other,1,2").unwrap_err();
    assert_eq!(e.kind, ParseErrorKind::UnknownMetadata);
    assert_eq!(e.line, 2);
    assert_eq!(e.text, ";#other,1,2");
    assert_eq!(
        e.message(),
        "File can not be parsed: Unknown metadata type\nError occured on line 3:\n;#other,1,2"
    );
    assert_eq!(e.description(), "description() is deprecated; use Display");
}

#[test]
fn the_first_error_is_reported() {
    let e = parse(";#x\n;#codeblock").unwrap_err();
    assert_eq!(e.kind, ParseErrorKind::UnknownMetadata);
    assert_eq!(e.line, 0);
}

#[test]
fn numbers_as_f64_reads_them() {
    let cases = [
        "0", "12", "-3", "+4", "1.5", "1.", ".5", ".", "-.5", "+.", "1e5", "1E-5", "1e+5", "1e",
        "e5", "1.5e3", "inf", "-inf", "+Infinity", "NaN", "nan", "infin", "", "+", "-", "1 ",
        " 1", "1,2", "0x10", "1_000", "١", "12a", "1e5.5", "--1", "∞",
    ];
    for c in cases.iter() {
        assert_eq!(is_float(&chars(c)), c.parse::<f64>().is_ok(), "{:?}", c);
    }
}
