use visual_asm::codeblock::CodeBlock;
use visual_asm::linker::can_link;
use visual_asm::splitter::split;

fn block(text: &str) -> CodeBlock {
    CodeBlock { text: text.to_string(), ..Default::default() }
}

fn texts(code: &[CodeBlock]) -> Vec<String> {
    code.iter().map(|b| b.text.clone()).collect()
}

fn nexts(code: &[CodeBlock]) -> Vec<Option<usize>> {
    code.iter().map(|b| b.next).collect()
}

#[test]
fn a_second_label_starts_a_new_block() {
    let mut code = vec![block(
        "mylabel:\nxor eax, eax    ;set eax to 0\nmov ebx, 10     ;set ebx to 10\nmysecondlabel:",
    )];
    let origins = split(&mut code);
    assert_eq!(
        texts(&code),
        vec![
            "mylabel:\nxor eax, eax    ;set eax to 0\nmov ebx, 10     ;set ebx to 10\n".to_string(),
            "mysecondlabel:".to_string(),
        ]
    );
    assert_eq!(nexts(&code), vec![Some(1), None]);
    assert_eq!(origins, vec![0]);
}

#[test]
fn each_label_gets_its_block_last_piece_first() {
    let mut code = vec![block("l1:\nx\nl2:\ny\nl3:\nz")];
    let origins = split(&mut code);
    assert_eq!(
        texts(&code),
        vec!["l1:\nx\n".to_string(), "l3:\nz".to_string(), "l2:\ny\n".to_string()]
    );
    assert_eq!(nexts(&code), vec![Some(2), None, Some(1)]);
    assert_eq!(origins, vec![0, 0]);
}

#[test]
fn a_label_below_code_starts_a_new_block() {
    let mut code = vec![block("mov eax, 1\nl:\nret")];
    let origins = split(&mut code);
    assert_eq!(texts(&code), vec!["mov eax, 1\n".to_string(), "l:\nret".to_string()]);
    assert_eq!(nexts(&code), vec![Some(1), None]);
    assert_eq!(origins, vec![0]);
    for b in code.iter() {
        for l in b.label() {
            assert_eq!(l.offset, 0);
        }
    }
}

#[test]
fn jumps_end_blocks() {
    let mut code = vec![block("a\njmp x\nb\njne y\nc\nje z\nd")];
    let origins = split(&mut code);
    assert_eq!(
        texts(&code),
        vec!["a\njmp x\n".to_string(), "je z\nd".to_string(), "b\njne y\nc\n".to_string()]
    );
    assert_eq!(nexts(&code), vec![Some(2), None, Some(1)]);
    assert_eq!(origins, vec![0, 0]);
}

#[test]
fn new_pieces_lead_where_the_block_led() {
    let mut code = vec![
        CodeBlock { text: "a:\nnop\nb:\nnop".to_string(), next: Some(1), ..Default::default() },
        block("c"),
    ];
    let origins = split(&mut code);
    assert_eq!(texts(&code), vec!["a:\nnop\n".to_string(), "c".to_string(), "b:\nnop".to_string()]);
    assert_eq!(nexts(&code), vec![Some(2), None, Some(1)]);
    assert_eq!(origins, vec![0]);
}

#[test]
fn labels_then_jumps_with_origins() {
    let mut code = vec![block("x:\njmp y\nz\ny:\nret"), block("nop\njmp x\nnop")];
    let origins = split(&mut code);
    assert_eq!(
        texts(&code),
        vec![
            "x:\njmp y\n".to_string(),
            "nop\njmp x\n".to_string(),
            "y:\nret".to_string(),
            "z\n".to_string(),
            "nop".to_string(),
        ]
    );
    assert_eq!(origins, vec![0, 0, 1]);
    assert_eq!(nexts(&code), vec![Some(3), Some(4), None, Some(2), None]);
}

#[test]
fn split_blocks_have_the_shape_and_can_be_linked() {
    let mut code = vec![
        block("s:\ncmp eax, 0\nje a\nje b\njmp s\nmov eax, 1\nt:\nu:"),
        block("jmp a\nnop\njne q"),
    ];
    assert!(!can_link(&code));
    split(&mut code);
    assert!(can_link(&code));
    for b in code.iter() {
        let jumps = b.text.lines().filter(|l| l.trim_start().starts_with("jmp")).count();
        assert!(jumps <= 1);
        assert!(b.label().len() <= 1);
    }
}

#[test]
fn every_jump_after_a_jump_gets_its_block() {
    let mut code = vec![block("jmp a\njmp b\njmp c")];
    split(&mut code);
    assert_eq!(texts(&code), vec!["jmp a\n".to_string(), "jmp c".to_string(), "jmp b\n".to_string()]);
    assert_eq!(nexts(&code), vec![Some(2), None, Some(1)]);
    assert!(can_link(&code));
}

#[test]
fn conditional_jumps_after_a_jump_are_looked_at() {
    let mut code = vec![block("jmp x\nje a\nje b")];
    split(&mut code);
    assert_eq!(texts(&code), vec!["jmp x\n".to_string(), "je b".to_string(), "je a\n".to_string()]);
    assert!(can_link(&code));
}

#[test]
fn blocks_of_the_shape_stay_as_they_are() {
    let before = vec![
        CodeBlock { text: "l:\ncmp eax, 0\nje l\njmp m".to_string(), next: Some(1), ..Default::default() },
        block("m: ret"),
        block(""),
    ];
    let mut code = before.clone();
    let origins = split(&mut code);
    assert!(origins.is_empty());
    assert_eq!(texts(&code), texts(&before));
    assert_eq!(nexts(&code), nexts(&before));
}

#[test]
fn pieces_give_back_the_code() {
    let before = vec![
        CodeBlock {
            text: "s:\ncmp eax, 0\nje a\nje b\njmp s\nmov eax, 1\nt:\nu:\nret".to_string(),
            next: Some(1),
            ..Default::default()
        },
        block("jmp a\nnop\njne q\nx:\nnop"),
        block("plain"),
    ];
    let mut code = before.clone();
    split(&mut code);
    let n = before.len();
    for j in 0..n {
        let mut text = code[j].text.clone();
        let mut at = j;
        while let Some(t) = code[at].next {
            if t < n {
                break;
            }
            text.push_str(&code[t].text);
            at = t;
        }
        assert_eq!(text, before[j].text);
        assert_eq!(code[at].next, before[j].next);
    }
}

#[test]
fn labels_end_up_on_first_lines() {
    let mut code = vec![block("a:\nnop\nb:\njmp a\nc:\nd:\nje a\nje b\nnop")];
    split(&mut code);
    assert_eq!(code.len(), 5);
    for b in code.iter() {
        for l in b.label() {
            assert_eq!(l.offset, 0);
        }
    }
}

#[test]
fn splitting_again_changes_nothing() {
    let mut code = vec![
        block("s:\ncmp eax, 0\nje a\nje b\njmp s\nmov eax, 1\nt:\nu:\nret"),
        block("jmp a\nnop\njne q\nx:\nnop"),
    ];
    split(&mut code);
    let once = (texts(&code), nexts(&code));
    let origins = split(&mut code);
    assert!(origins.is_empty());
    assert_eq!((texts(&code), nexts(&code)), once);
}
