use minilang::compiler::instruction::Instruction;

#[test]
fn test_instruction() {
    assert_eq!(Instruction::GrowStack { length: 8 }.to_bytes(), vec![0, 8, 0, 0, 0]);
    assert_eq!(
        Instruction::Move { addr: 0, data: &[4, 6, 3, 2] }.to_bytes(),
        vec![1, 0, 0, 0, 0, 4, 4, 6, 3, 2]
    );
}
