use visual_asm::util::{contains_jump, JumpType};

fn jump(line: &str) -> Option<String> {
    match contains_jump(line) {
        JumpType::Jmp(l) => Some(l),
        _ => None,
    }
}

fn cond_jump(line: &str) -> Option<String> {
    match contains_jump(line) {
        JumpType::CondJmp(l) => Some(l),
        _ => None,
    }
}

fn no_jump(line: &str) -> bool {
    matches!(contains_jump(line), JumpType::NoJump)
}

#[test]
fn plain_jump() {
    assert_eq!(jump("jmp loop"), Some("loop".to_string()));
    assert_eq!(jump("    JMP   done   ; back"), Some("done".to_string()));
}

#[test]
fn jump_after_a_label() {
    assert_eq!(jump("start: jmp end"), Some("end".to_string()));
    assert_eq!(cond_jump("a: b: jne c"), Some("c".to_string()));
}

#[test]
fn conditional_jumps() {
    assert_eq!(cond_jump("je end"), Some("end".to_string()));
    assert_eq!(cond_jump("\tJnZ\tl1"), Some("l1".to_string()));
    assert_eq!(cond_jump("jrcxz over"), Some("over".to_string()));
    assert_eq!(cond_jump("jne short target"), Some("short".to_string()));
}

#[test]
fn lines_without_jump() {
    assert!(no_jump("mov eax, ebx"));
    assert!(no_jump("jmp"));
    assert!(no_jump("   "));
    assert!(no_jump(""));
    assert!(no_jump("; jmp x"));
    assert!(no_jump("label:"));
    assert!(no_jump("call func"));
    assert!(no_jump("jmpx y"));
}

#[test]
fn a_colon_after_the_operand_hides_the_jump() {
    assert!(no_jump("jmp x:y"));
}

#[test]
fn comment_ends_the_instruction() {
    assert_eq!(jump("jmp a;b c"), Some("a".to_string()));
    assert!(no_jump("x: ;jmp y"));
}
