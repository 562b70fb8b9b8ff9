use visual_asm::codeblock::{remove_block, CodeBlock, CodeBlocks};

#[test]
fn label_works() {
    let str = "\
        fff:;ffffad\n\
        label :dsffsd\n\
        label2:\n\
        label3:\n\
        somecode;asd:asf\n\
        ff\n\
        ";

    let c = CodeBlock {
        text: str.to_string(),
        ..Default::default()
    };

    let mut vec = c.label();

    assert!(vec.drain(..).map(|e| e.label).collect::<Vec<String>>() == vec!["fff", "label2", "label3"]);
}

#[test]
fn label_offsets_are_byte_offsets_of_lines() {
    let c = CodeBlock {
        text: "é: nop\n  x:\r\nnop\ny:".to_string(),
        ..Default::default()
    };
    let labels = c.label();
    let got: Vec<(String, usize)> = labels.into_iter().map(|l| (l.label, l.offset)).collect();
    assert_eq!(got, vec![("é".to_string(), 0), ("x".to_string(), 8), ("y".to_string(), 18)]);
}

#[test]
fn block_text_has_header() {
    let c = CodeBlock {
        text: "mov eax, 1".to_string(),
        ..Default::default()
    };
    assert_eq!(c.to_text(-12, 300), ";#codeblock,-12,300,\nmov eax, 1");
}

#[test]
fn code_text_follows_control_flow() {
    let a = CodeBlock { text: "a".to_string(), next: Some(2), ..Default::default() };
    let b = CodeBlock { text: "b".to_string(), ..Default::default() };
    let c = CodeBlock { text: "c".to_string(), next: Some(1), ..Default::default() };
    let code = CodeBlocks::new(vec![a, b, c]);
    let text = code.to_text(&vec![(0, 0), (1, 1), (2, 2)]);
    assert_eq!(text, ";#codeblock,0,0,\na\n;#codeblock,2,2,\nc\n;#codeblock,1,1,\nb\n");
}

#[test]
fn code_text_writes_a_cycle() {
    let a = CodeBlock { text: "l: jmp l".to_string(), next: Some(0), ..Default::default() };
    let code = CodeBlocks::new(vec![a]);
    assert_eq!(code.to_text(&vec![(5, 5)]), ";#codeblock,5,5,\nl: jmp l\n");
}

#[test]
fn code_text_writes_every_block_of_cycles() {
    let a = CodeBlock { text: "a".to_string(), next: Some(1), ..Default::default() };
    let b = CodeBlock { text: "b".to_string(), next: Some(0), ..Default::default() };
    let c = CodeBlock { text: "c".to_string(), next: Some(2), ..Default::default() };
    let code = CodeBlocks::new(vec![a, b, c]);
    assert_eq!(
        code.to_text(&vec![(0, 0), (1, 1), (2, 2)]),
        ";#codeblock,0,0,\na\n;#codeblock,1,1,\nb\n;#codeblock,2,2,\nc\n"
    );
}

#[test]
fn removing_a_block_unlinks_it() {
    let a = CodeBlock { text: "a".to_string(), next: Some(1), ..Default::default() };
    let b = CodeBlock { text: "b".to_string(), next: Some(2), next_branch: Some(0), ..Default::default() };
    let c = CodeBlock { text: "c".to_string(), next_branch: Some(1), next_branch_line: 3, ..Default::default() };
    let d = CodeBlock { text: "d".to_string(), next: Some(2), next_branch: Some(3), ..Default::default() };
    let mut code = vec![a, b, c, d];
    remove_block(&mut code, 1);
    let got: Vec<(String, Option<usize>, Option<usize>, usize)> = code
        .iter()
        .map(|x| (x.text.clone(), x.next, x.next_branch, x.next_branch_line))
        .collect();
    assert_eq!(
        got,
        vec![
            ("a".to_string(), None, None, 0),
            ("c".to_string(), None, None, 3),
            ("d".to_string(), Some(1), Some(2), 0),
        ]
    );
}
