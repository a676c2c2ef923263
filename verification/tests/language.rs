use brainfuck_rs::ast::grammar::BrainFuckParser;
use brainfuck_rs::ast::tokenizer::{Token, Tokenizer};
use brainfuck_rs::ast::{Ast, ParseError};
use brainfuck_rs::codegen::Unit;
use brainfuck_rs::machine::{Machine, RunError};
use brainfuck_rs::tape::{Tape, TAPE_LEN};

const FUEL: u64 = 1_000_000;

fn parse(src: &[u8]) -> Result<Ast, ParseError> {
    let tokens = Tokenizer::from_bytes(&src.to_vec()).inner();
    Ast::parse_from_tokenizer(&tokens)
}

fn interpret(src: &[u8], input: &[u8]) -> Result<Vec<u8>, RunError> {
    let ast = parse(src).expect("program should parse");
    let mut m = Machine::default();
    m.run(&ast, &input.to_vec(), FUEL)
}

fn generate_and_run(src: &[u8], input: &[u8]) -> Result<Vec<u8>, RunError> {
    let ast = parse(src).expect("program should parse");
    let unit = Unit::lower(&ast);
    unit.run(&input.to_vec(), FUEL)
}

#[test]
fn two_increments_output_two() {
    assert_eq!(interpret(b"++.", b""), Ok(vec![2u8]));
}

#[test]
fn clear_loop_from_one_terminates_silently() {
    let ast = parse(b"+[-]").unwrap();
    let mut m = Machine::default();
    let out = m.run(&ast, &Vec::new(), FUEL).expect("run should finish");
    assert!(out.is_empty());
    assert_eq!(m.tape.get(0), Some(0u8));
    assert_eq!(m.pc, 0);
}

#[test]
fn clear_loop_from_zero_terminates_immediately() {
    let ast = parse(b"[-]").unwrap();
    let mut m = Machine::default();
    let out = m.run(&ast, &Vec::new(), FUEL).expect("run should finish");
    assert!(out.is_empty());
    assert_eq!(m.tape.get(0), Some(0u8));
}

#[test]
fn lone_close_is_unmatched() {
    match parse(b"]") {
        Err(e) => assert_eq!(e, ParseError::UnmatchedClose),
        Ok(_) => panic!("a lone close bracket must not parse"),
    }
}

#[test]
fn lone_open_is_unterminated() {
    match parse(b"[") {
        Err(e) => assert_eq!(e, ParseError::UnterminatedLoop),
        Ok(_) => panic!("a lone open bracket must not parse"),
    }
}

#[test]
fn close_before_open_is_unmatched() {
    match parse(b"][") {
        Err(e) => assert_eq!(e, ParseError::UnmatchedClose),
        Ok(_) => panic!("a close before any open must not parse"),
    }
}

#[test]
fn echo_copies_input_byte() {
    assert_eq!(interpret(b",.", b"A"), Ok(vec![65u8]));
}

#[test]
fn comment_bytes_are_inert() {
    assert_eq!(interpret(b"hello ++ world .", b""), Ok(vec![2u8]));
}

#[test]
fn increment_256_times_wraps_to_zero() {
    let src: Vec<u8> = std::iter::repeat(b'+').take(256).chain([b'.']).collect();
    assert_eq!(interpret(&src, b""), Ok(vec![0u8]));
}

#[test]
fn decrement_from_zero_wraps_to_255() {
    assert_eq!(interpret(b"-.", b""), Ok(vec![255u8]));
}

#[test]
fn loop_runs_exactly_initial_value_times() {
    // three in the counter cell, one added to its neighbour per iteration
    assert_eq!(interpret(b"+++[->+<]>.", b""), Ok(vec![3u8]));
}

#[test]
fn input_exhaustion_is_fatal() {
    assert_eq!(interpret(b",,", b"A"), Err(RunError::InputExhausted));
}

#[test]
fn moving_left_off_the_tape_is_fatal() {
    assert_eq!(interpret(b"<", b""), Err(RunError::TapeBoundsExceeded));
}

#[test]
fn infinite_loop_exhausts_fuel() {
    assert_eq!(interpret(b"+[]", b""), Err(RunError::OutOfFuel));
}

#[test]
fn nested_loops_parse_and_run() {
    // 2 * 3 via nested decrement loops
    assert_eq!(interpret(b"++[->+++<]>.", b""), Ok(vec![6u8]));
}

#[test]
fn front_ends_build_identical_trees() {
    let sources: [&[u8]; 4] = [b"++[->+++<]>.", b"+[-]", b",.", b"a+[b-[c>]]<"];
    for src in sources {
        let tokens = Tokenizer::from_bytes(&src.to_vec()).inner();
        let from_tokens = Ast::parse_from_tokenizer(&tokens).unwrap();
        let nodes = BrainFuckParser::parse(&src.to_vec()).unwrap();
        let from_tree = Ast::parse_from_tree(&nodes);
        assert_eq!(
            format!("{:?}", from_tokens.inner()),
            format!("{:?}", from_tree.inner()),
        );
    }
}

#[test]
fn front_ends_reject_alike() {
    for src in [&b"]"[..], &b"["[..], &b"[]]"[..], &b"[[["[..]] {
        let tokens = Tokenizer::from_bytes(&src.to_vec()).inner();
        let from_tokens = Ast::parse_from_tokenizer(&tokens);
        let from_tree = BrainFuckParser::parse(&src.to_vec());
        assert_eq!(from_tokens.unwrap_err(), from_tree.unwrap_err());
    }
}

#[test]
fn backends_agree_on_output() {
    let cases: [(&[u8], &[u8]); 5] = [
        (b"++.", b""),
        (b"+[-]", b""),
        (b",>,<[->+<]>.", b"\x02\x03"),
        (b"++[->+++<]>.", b""),
        (b",.", b"A"),
    ];
    for (src, input) in cases {
        assert_eq!(interpret(src, input), generate_and_run(src, input));
    }
}

#[test]
fn backends_agree_on_errors() {
    let cases: [(&[u8], &[u8]); 2] = [(b"<", b""), (b",", b"")];
    for (src, input) in cases {
        assert_eq!(interpret(src, input), generate_and_run(src, input));
    }
}

#[test]
fn lowered_unit_has_fresh_blocks_per_loop() {
    // one block before lowering, three more per loop
    let ast = parse(b"[[]]").unwrap();
    let unit = Unit::lower(&ast);
    assert_eq!(unit.blocks.len(), 7);
    assert!(unit.blocks.iter().all(|b| b.is_some()));
}

#[test]
fn tokenizer_maps_each_byte() {
    let toks = Tokenizer::from_bytes(&b"><+-.,[]x".to_vec()).inner();
    assert_eq!(toks.len(), 9);
    assert!(matches!(toks[0], Token::IncPtr));
    assert!(matches!(toks[1], Token::DecPtr));
    assert!(matches!(toks[2], Token::Inc));
    assert!(matches!(toks[3], Token::Dec));
    assert!(matches!(toks[4], Token::Out));
    assert!(matches!(toks[5], Token::In));
    assert!(matches!(toks[6], Token::JmpFwd));
    assert!(matches!(toks[7], Token::JmpBck));
    assert!(matches!(toks[8], Token::Nop(b'x')));
}

#[test]
fn tokenizer_round_trips_bytes() {
    let src = b"abc><+-.,[]".to_vec();
    let mut t = Tokenizer::from_bytes(&src);
    let bytes = t.read(src.len());
    assert_eq!(bytes, src);
    assert_eq!(t.inner().len(), 0);
}

#[test]
fn tokenizer_write_appends_and_flush_clears() {
    let mut t = Tokenizer::new(Vec::new());
    let n = t.write(&b"+-".to_vec());
    assert_eq!(n, 2);
    let n = t.write(&b"<>".to_vec());
    assert_eq!(n, 4);
    let head = t.read(3);
    assert_eq!(head, b"+-<".to_vec());
    t.flush();
    assert_eq!(t.inner().len(), 0);
}

#[test]
fn tape_reads_and_writes_in_bounds() {
    let mut tape = Tape::default();
    assert_eq!(tape.len(), TAPE_LEN);
    assert_eq!(tape.get(0), Some(0u8));
    assert_eq!(tape.get(TAPE_LEN - 1), Some(0u8));
    assert_eq!(tape.get(TAPE_LEN), None);
    assert!(tape.get_mut(5, 17));
    assert_eq!(tape.get(5), Some(17u8));
    assert!(!tape.get_mut(TAPE_LEN, 1));
}

#[test]
fn machine_walks_the_tape() {
    let ast = parse(b"+>++>+++<.").unwrap();
    let mut m = Machine::default();
    let out = m.run(&ast, &Vec::new(), FUEL).unwrap();
    assert_eq!(out, vec![2u8]);
    assert_eq!(m.pc, 1);
    assert_eq!(m.tape.get(0), Some(1u8));
    assert_eq!(m.tape.get(1), Some(2u8));
    assert_eq!(m.tape.get(2), Some(3u8));
}

#[test]
fn deeply_nested_program_runs() {
    // nesting depth five: each level doubles into the next cell
    assert_eq!(interpret(b"++[->++[->++[->++[->++[->+<]<]<]<]<]>>>>>.", b""), Ok(vec![32u8]));
}

#[test]
fn unit_runner_exhausts_fuel_too() {
    let ast = parse(b"+[]").unwrap();
    let unit = Unit::lower(&ast);
    assert_eq!(unit.run(&Vec::new(), 1000), Err(RunError::OutOfFuel));
}

#[test]
fn grammar_mode_runs_end_to_end() {
    let src: &[u8] = b"say ,+. twice ,+.";
    let nodes = BrainFuckParser::parse(&src.to_vec()).unwrap();
    let ast = Ast::parse_from_tree(&nodes);
    let mut m = Machine::default();
    let out = m.run(&ast, &b"AB".to_vec(), FUEL).unwrap();
    assert_eq!(out, vec![66u8, 67u8]);
    assert_eq!(interpret(src, b"AB"), Ok(out));
}
