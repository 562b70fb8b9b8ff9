use visual_asm::codeblock::CodeBlock;
use visual_asm::linker::{can_link, link, split_and_link};
use visual_asm::splitter::split;

fn block(text: &str) -> CodeBlock {
    CodeBlock { text: text.to_string(), ..Default::default() }
}

#[test]
fn jumps_lead_to_the_blocks_of_their_labels() {
    let mut code = vec![block("start:\ncmp eax, 0\nje done\njmp start\ndone:\nret")];
    split(&mut code);
    assert_eq!(code.len(), 2);
    assert_eq!(code[0].text, "start:\ncmp eax, 0\nje done\njmp start\n");
    assert_eq!(code[1].text, "done:\nret");
    assert!(can_link(&code));
    link(&mut code);
    assert_eq!(code[0].next, Some(0));
    assert_eq!(code[0].next_branch, Some(1));
    assert_eq!(code[0].next_branch_line, 2);
    assert_eq!(code[0].next_branch_line_offset, 18);
    assert_eq!(code[1].next, None);
    assert_eq!(code[1].next_branch, None);
}

#[test]
fn jump_to_an_unknown_label_keeps_the_block_as_it_was() {
    let mut code = vec![
        CodeBlock { text: "jmp nowhere".to_string(), next: Some(1), ..Default::default() },
        block("jne elsewhere"),
    ];
    link(&mut code);
    assert_eq!(code[0].next, Some(1));
    assert_eq!(code[1].next_branch, None);
    assert_eq!(code[1].next_branch_line, 0);
}

#[test]
fn the_first_block_with_the_label_is_taken() {
    let mut code = vec![block("jmp l"), block("l:\nnop"), block("l: ret")];
    link(&mut code);
    assert_eq!(code[0].next, Some(1));
}

#[test]
fn branch_offset_counts_bytes() {
    let mut code = vec![block("é:\n; ünïcode\njz é"), block("x:")];
    link(&mut code);
    assert_eq!(code[0].next_branch, Some(0));
    assert_eq!(code[0].next_branch_line, 2);
    assert_eq!(code[0].next_branch_line_offset, "é:\n; ünïcode\n".len());
}

#[test]
fn blocks_that_link_cannot_take() {
    assert!(!can_link(&vec![block("jmp a\njmp b")]));
    assert!(!can_link(&vec![block("jz a\njnz b")]));
    assert!(!can_link(&vec![block("a:\nb:")]));
    assert!(can_link(&vec![block("a:\njz a\njmp a"), block("")]));
    assert!(can_link(&Vec::new()));
}

#[test]
fn linking_again_changes_nothing() {
    let mut code = vec![block("start:\ncmp eax, 0\nje done\njmp start\n"), block("done:\nret")];
    link(&mut code);
    let once: Vec<(Option<usize>, Option<usize>, usize, usize)> = code
        .iter()
        .map(|b| (b.next, b.next_branch, b.next_branch_line, b.next_branch_line_offset))
        .collect();
    assert!(can_link(&code));
    link(&mut code);
    let twice: Vec<(Option<usize>, Option<usize>, usize, usize)> = code
        .iter()
        .map(|b| (b.next, b.next_branch, b.next_branch_line, b.next_branch_line_offset))
        .collect();
    assert_eq!(once, twice);
    assert_eq!(code[0].text, "start:\ncmp eax, 0\nje done\njmp start\n");
}

#[test]
fn split_and_link_takes_any_code() {
    let mut code = vec![block("top:\njmp a\njmp top\nje top\nje b\nnop\na:\nb: ret")];
    let origins = split_and_link(&mut code);
    assert_eq!(origins.len() + 1, code.len());
    assert!(can_link(&code));
    let texts: Vec<&str> = code.iter().map(|b| b.text.as_str()).collect();
    assert_eq!(texts, vec!["top:\njmp a\n", "b: ret", "a:\n", "je b\nnop\n", "je top\n", "jmp top\n"]);
    assert_eq!(origins, vec![0, 0, 0, 0, 0]);
    assert_eq!(code[0].next, Some(2));
    assert_eq!(code[2].next, Some(1));
    assert_eq!(code[5].next, Some(0));
    assert_eq!(code[4].next_branch, Some(0));
    assert_eq!(code[3].next_branch, Some(1));
}
