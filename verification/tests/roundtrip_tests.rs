use visual_asm::codeblock::{CodeBlock, CodeBlocks};
use visual_asm::linker::link;
use visual_asm::parser::parse;
use visual_asm::splitter::split;

#[test]
fn written_blocks_read_back() {
    let mut code = vec![CodeBlock {
        text: "myfunc:\nadd ecx, ebx\nxor eax, eax\nloop:\ncmp ebx, ecx\nje end\nmovzx edx, byte [ebc]\nadd eax, edx\ninc ebx\njmp loop\nend:\nret".to_string(),
        ..Default::default()
    }];
    split(&mut code);
    link(&mut code);
    let texts: Vec<String> = code.iter().map(|b| b.text.clone()).collect();
    let positions: Vec<(i32, i32)> = (0..code.len() as i32).map(|i| (10 * i, -3 * i)).collect();
    let blocks = CodeBlocks::new(code);
    let text = blocks.to_text(&positions);
    let read = parse(&text).unwrap();
    assert_eq!(texts.len(), 3);
    // Written in control-flow order: myfunc, the loop, then end.
    let order: Vec<usize> = vec![0, 2, 1];
    assert_eq!(read.len(), order.len());
    for (k, &i) in order.iter().enumerate() {
        assert_eq!(read[k].block.text, texts[i]);
        assert_eq!(
            read[k].pos,
            Some((positions[i].0.to_string(), positions[i].1.to_string()))
        );
        assert_eq!(read[k].block.next, if k + 1 < order.len() { Some(k + 1) } else { None });
    }
}

#[test]
fn nothing_written_reads_back_as_one_empty_block() {
    let blocks = CodeBlocks::new(Vec::new());
    let text = blocks.to_text(&Vec::new());
    assert_eq!(text, "");
    let read = parse(&text).unwrap();
    assert_eq!(read.len(), 1);
    assert!(read[0].pos.is_none());
}

#[test]
fn written_text_and_positions() {
    let a = CodeBlock { text: "l:\nnop".to_string(), next: Some(1), ..Default::default() };
    let b = CodeBlock { text: "ret".to_string(), ..Default::default() };
    let blocks = CodeBlocks::new(vec![a, b]);
    let text = blocks.to_text(&vec![(-2147483648, 2147483647), (0, 7)]);
    assert_eq!(text, ";#codeblock,-2147483648,2147483647,\nl:\nnop\n;#codeblock,0,7,\nret\n");
    let read = parse(&text).unwrap();
    assert_eq!(read.len(), 2);
    assert_eq!(read[0].block.text, "l:\nnop");
    assert_eq!(read[1].block.text, "ret");
    assert_eq!(read[0].block.next, Some(1));
}

#[test]
fn collection_keeps_its_blocks() {
    let mut blocks = CodeBlocks::new(vec![CodeBlock::default()]);
    assert!(!blocks.text_changed);
    assert_eq!(blocks.borrow().len(), 1);
    blocks.borrow_mut().push(CodeBlock { text: "x".to_string(), ..Default::default() });
    assert_eq!(blocks.borrow().len(), 2);
    assert_eq!(blocks.borrow()[1].text, "x");
}

#[test]
fn every_block_is_written_once() {
    let a = CodeBlock { text: "a".to_string(), next: Some(1), ..Default::default() };
    let b = CodeBlock { text: "b".to_string(), next: Some(2), ..Default::default() };
    let c = CodeBlock { text: "c".to_string(), next: Some(1), next_branch: Some(0), ..Default::default() };
    let d = CodeBlock { text: "d".to_string(), next: Some(2), ..Default::default() };
    let blocks = CodeBlocks::new(vec![a, b, c, d]);
    let text = blocks.to_text(&vec![(0, 0), (1, 1), (2, 2), (3, 3)]);
    assert_eq!(
        text,
        ";#codeblock,3,3,\nd\n;#codeblock,2,2,\nc\n;#codeblock,1,1,\nb\n;#codeblock,0,0,\na\n"
    );
}

#[test]
fn a_chain_of_blocks_reads_back_in_place() {
    let a = CodeBlock { text: "start:\nmov eax, 1".to_string(), next: Some(1), ..Default::default() };
    let b = CodeBlock { text: "nop\n".to_string(), next: Some(2), ..Default::default() };
    let c = CodeBlock { text: "ret".to_string(), ..Default::default() };
    let blocks = CodeBlocks::new(vec![a, b, c]);
    let positions = vec![(3, 4), (-5, 6), (7, -8)];
    let read = parse(&blocks.to_text(&positions)).unwrap();
    assert_eq!(read.len(), 3);
    for i in 0..3 {
        assert_eq!(read[i].block.text, blocks.borrow()[i].text);
        assert_eq!(read[i].block.next, blocks.borrow()[i].next);
        assert_eq!(read[i].block.next_branch, None);
        assert_eq!(
            read[i].pos,
            Some((positions[i].0.to_string(), positions[i].1.to_string()))
        );
    }
}
