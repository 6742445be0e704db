use clac_lang::interp::{exec_function, Frame, Pause};
use clac_lang::lexer::{parse, split_words, tokenize};
use clac_lang::machine::{execute, faults, needs_room, ExecRes};
use clac_lang::names::NameMap;
use clac_lang::semantics::Effect;
use clac_lang::stack::Stack;
use clac_lang::state::{after_line, AfterLine, ClacState, InitError, Progress};
use clac_lang::types::{
    ArithOp, BasicBlockInstr, Code, ControlFlowInstr, ExecError, Instr, MemOp, Token,
};
use memmap2::MmapMut;

/// Carries out a function that was called from the top level, and what it calls.
fn call(state: &mut ClacState, name: &str, printed: &mut Vec<i64>) -> Result<(), ExecError> {
    let function = state.funcmap.position(name).unwrap();
    let mut callstack = vec![Frame { function, pc: 0 }];
    loop {
        match exec_function(&mut state.stack, &state.funcmap, &mut callstack, 7) {
            Pause::Finished => return Ok(()),
            Pause::OutOfSteps => {}
            Pause::Perform(Effect::Print(v)) => printed.push(v),
            Pause::Failed(e) => return Err(e),
            other => panic!("{other:?}"),
        }
    }
}

/// Runs a text, and collects what it prints.
fn run(state: &mut ClacState, text: &str) -> (Result<(), ExecError>, Vec<i64>) {
    let mut printed: Vec<i64> = Vec::new();
    let (tokens, mut at, mut progress) = state.execute_str(text);
    loop {
        match progress {
            Progress::Finished => return (Ok(()), printed),
            Progress::Failed(e) => return (Err(e), printed),
            Progress::Recompile => {
                state.reset_module_and_recompile_all().unwrap();
            }
            Progress::Perform(Effect::Print(v)) => printed.push(v),
            Progress::Call(name) => {
                if let Err(e) = call(state, &name, &mut printed) {
                    return (Err(e), printed);
                }
            }
            other => panic!("{other:?}"),
        }
        (at, progress) = state.execute_tokens(&tokens, at);
    }
}

fn machine() -> ClacState {
    ClacState::new(800).unwrap()
}

/// The stack after a text that comes to its end.
fn stack_after(text: &str) -> Vec<i64> {
    let mut state = machine();
    let (outcome, _) = run(&mut state, text);
    outcome.unwrap();
    state.stack.values()
}

/// The error of a text, and the stack then.
fn error_of(text: &str) -> (ExecError, Vec<i64>) {
    let mut state = machine();
    let (outcome, _) = run(&mut state, text);
    (outcome.unwrap_err(), state.stack.values())
}

#[test]
fn the_example_prints_fifty_twice() {
    let mut state = machine();
    let text = ": dup 1 pick ;\n: print2 dup print dup print ;\n\n25 10 * 5 / print2\n\nquit\n";
    let (outcome, printed) = run(&mut state, text);
    assert!(matches!(outcome, Err(ExecError::Quit)));
    assert_eq!(printed, vec![50, 50]);
    assert_eq!(state.stack.values(), vec![50]);
}

#[test]
fn the_native_width_is_sixty_four_bits() {
    assert_eq!(stack_after("width_native"), vec![64]);
}

#[test]
fn stack_words_move_values() {
    assert_eq!(stack_after("1 2 3 rot"), vec![2, 3, 1]);
    assert_eq!(stack_after("1 2 swap"), vec![2, 1]);
    assert_eq!(stack_after("1 2 drop"), vec![1]);
    assert_eq!(stack_after("7 8 9 3 pick"), vec![7, 8, 9, 7]);
    assert_eq!(stack_after("1 2 3 4 5 4 2 drop_range"), vec![1, 4, 5]);
    assert_eq!(stack_after("1 2 3 0 0 drop_range"), vec![1, 2, 3]);
    assert_eq!(stack_after("2 10 **"), vec![1024]);
    assert_eq!(stack_after("3 4 <"), vec![1]);
}

#[test]
fn stack_words_undo_each_other() {
    assert_eq!(stack_after("1 2 3 swap swap"), vec![1, 2, 3]);
    assert_eq!(stack_after("1 2 3 4 rot rot rot"), vec![1, 2, 3, 4]);
    assert_eq!(stack_after("1 2 7 drop"), vec![1, 2]);
    assert_eq!(stack_after("1 2 7 1 1 drop_range"), vec![1, 2]);
    assert_eq!(stack_after("5 6 2 pick 1 pick"), vec![5, 6, 5, 5]);
}

#[test]
fn conditions_pass_over_three_words() {
    assert_eq!(stack_after("0 if 1 2 3 4"), vec![4]);
    assert_eq!(stack_after("5 if 1 2 3 4"), vec![1, 2, 3, 4]);
    assert_eq!(stack_after("1 skip 2 3"), vec![3]);
    assert_eq!(stack_after("2 skip 2 3"), Vec::<i64>::new());
}

#[test]
fn errors_leave_what_is_left_of_the_stack() {
    assert!(matches!(error_of("1 swap"), (ExecError::MissingArguments, s) if s.is_empty()));
    assert!(matches!(error_of("9 8 0 pick"), (ExecError::InvalidPick, s) if s == vec![9, 8]));
    assert!(matches!(error_of("9 -1 pick"), (ExecError::InvalidPick, s) if s == vec![9]));
    assert!(matches!(error_of("9 -1 skip"), (ExecError::InvalidSkip, s) if s == vec![9]));
    assert!(matches!(error_of("9 2 skip 1"), (ExecError::InvalidSkip, s) if s == vec![9]));
    assert!(matches!(error_of("9 1 2 drop_range"), (ExecError::InvalidDropRange, s) if s == vec![9]));
    assert!(matches!(error_of("9 2 -1 **"), (ExecError::InvalidExponent, s) if s == vec![9]));
    assert!(matches!(error_of("9 : f"), (ExecError::BadFunctionDefinition, _)));
    assert!(matches!(error_of(": 3 ;"), (ExecError::BadFunctionDefinition, _)));
    assert!(matches!(error_of(": f : g ; ;"), (ExecError::BadFunctionDefinition, _)));
    assert!(matches!(error_of(";"), (ExecError::BadFunctionDefinition, _)));
    assert!(matches!(error_of("9 quit"), (ExecError::Quit, s) if s == vec![9]));
    match error_of("9 nowhere") {
        (ExecError::UnknownFunction(name), s) => {
            assert_eq!(name, "nowhere");
            assert_eq!(s, vec![9]);
        }
        other => panic!("{other:?}"),
    }
}

#[test]
fn errors_say_what_they_are() {
    assert_eq!(ExecError::UnknownFunction("f".to_string()).message(), "Unknown function f");
    assert_eq!(
        ExecError::MissingArguments.message(),
        "Missing arguments. Not enough elements on stack"
    );
    assert_eq!(ExecError::InvalidSkip.message(), "Invalid Skip");
    assert_eq!(ExecError::InvalidPick.message(), "Invalid Pick");
    assert_eq!(ExecError::InvalidDropRange.message(), "Invalid DropRange");
    assert_eq!(ExecError::BadFunctionDefinition.message(), "Bad function definition");
    assert_eq!(
        ExecError::InvalidExponent.message(),
        "Invalid exponent, must have non-negative exponent"
    );
    assert_eq!(ExecError::Quit.message(), "Quit");
}

#[test]
fn the_last_definition_of_a_name_stands() {
    assert_eq!(stack_after(": f 1 ; : f 2 ; f"), vec![2]);
    assert_eq!(stack_after(": f 1 ; f : f 2 ; f"), vec![1, 2]);
}

#[test]
fn functions_are_compiled_before_the_next_name_is_used() {
    let mut state = machine();
    let (tokens, at, progress) = state.execute_str(": f 1 ; 5 f");
    assert!(matches!(progress, Progress::Recompile));
    assert_eq!(at, 5);
    assert_eq!(state.undefined_functions.len(), 1);
    assert_eq!(state.funcmap.len(), 0);
    state.reset_module_and_recompile_all().unwrap();
    assert_eq!(state.undefined_functions.len(), 0);
    assert!(state.funcmap.contains_key("f"));
    let (at, progress) = state.execute_tokens(&tokens, at);
    assert!(matches!(progress, Progress::Call(name) if name == "f"));
    assert_eq!(at, 6);
    assert_eq!(state.stack.values(), vec![5]);
}

#[test]
fn recursion_with_nothing_left_to_do_keeps_nothing() {
    // counts down from its argument
    let text = ": down 1 pick if down_more 1 skip drop ; : down_more -1 + down ;";
    let mut state = machine();
    assert!(run(&mut state, text).0.is_ok());
    state.reset_module_and_recompile_all().unwrap();
    state.stack.push(1_000_000);
    let function = state.funcmap.position("down").unwrap();
    let mut callstack = vec![Frame { function, pc: 0 }];
    let mut deepest = 0;
    loop {
        match exec_function(&mut state.stack, &state.funcmap, &mut callstack, 1) {
            Pause::Finished => break,
            Pause::OutOfSteps => deepest = deepest.max(callstack.len()),
            other => panic!("{other:?}"),
        }
    }
    assert!(deepest <= 2, "{deepest}");
    assert_eq!(state.stack.values(), Vec::<i64>::new());
}

#[test]
fn a_function_does_what_its_body_does_at_the_top_level() {
    let body = "3 4 < if 10 20 + 2 * 1 pick";
    assert_eq!(stack_after(body), stack_after(&format!(": f {body} ; f")));
    assert_eq!(stack_after(body), vec![60, 60]);
}

#[test]
fn a_line_pauses_for_effects_faults_and_a_full_stack() {
    let mut state = ClacState::new(16).unwrap();
    let (_, at, progress) = state.execute_str("5 print 6");
    assert!(matches!(progress, Progress::Perform(Effect::Print(5))));
    assert_eq!(at, 2);
    let (_, at, progress) = state.execute_str("1 2 3");
    assert!(matches!(progress, Progress::StackFull));
    assert_eq!(at, 2);
    state.stack.truncate(0);
    let mut state = machine();
    let (_, at, progress) = state.execute_str("1 0 /");
    assert!(matches!(progress, Progress::Fault));
    assert_eq!((at, state.stack.values()), (2, vec![1, 0]));
}

#[test]
fn effects_carry_their_operands() {
    let functions: NameMap<Code> = NameMap::new();
    let mut stack = Stack::new(800).unwrap();
    for v in [1, 2, 3, 4, 5, 6, 7, 8] {
        stack.push(v);
    }
    let r = execute(&mut stack, &functions, &Instr::BBInstr(BasicBlockInstr::Syscall));
    let expected = Effect::Syscall { number: 2, a1: 3, a2: 4, a3: 5, a4: 6, a5: 7, a6: 8 };
    assert!(matches!(r, Ok(ExecRes::Perform(e)) if e == expected));
    assert!(expected.replies());
    assert_eq!(stack.values(), vec![1]);
    stack.push(70);
    stack.push(255);
    let write = Instr::BBInstr(BasicBlockInstr::Mem(MemOp::Write8));
    assert!(!faults(&stack, &write));
    let r = execute(&mut stack, &functions, &write);
    assert!(
        matches!(r, Ok(ExecRes::Perform(e)) if e == Effect::Write8 { addr: 70, byte: 255 } && !e.replies())
    );
    stack.push(256);
    assert!(faults(&stack, &write));
    let divide = Instr::BBInstr(BasicBlockInstr::Arith(ArithOp::Div));
    stack.push(0);
    assert!(faults(&stack, &divide));
    let skip = Instr::CFInstr(ControlFlowInstr::Skip);
    assert!(matches!(execute(&mut stack, &functions, &skip), Ok(ExecRes::Skip(0))));
}

#[test]
fn words_become_tokens() {
    assert!(matches!(parse("print"), Token::Print));
    assert!(matches!(parse("quit"), Token::Quit));
    assert!(matches!(parse("drop"), Token::Drop));
    assert!(matches!(parse("swap"), Token::Swap));
    assert!(matches!(parse("rot"), Token::Rot));
    assert!(matches!(parse("pick"), Token::Pick));
    assert!(matches!(parse("if"), Token::If));
    assert!(matches!(parse("skip"), Token::Skip));
    assert!(matches!(parse(":"), Token::Colon));
    assert!(matches!(parse(";"), Token::Semicolon));
    assert!(matches!(parse("42"), Token::Literal(42)));
    assert!(matches!(parse("-42"), Token::Literal(-42)));
    assert!(matches!(parse("+42"), Token::Literal(42)));
    assert!(matches!(parse("-9223372036854775808"), Token::Literal(i64::MIN)));
    for text in ["9223372036854775808", "-", "+", "4_2", "0x10", "4.0", "dup", "Print"] {
        assert!(matches!(parse(text), Token::Identifier(name) if name == text));
    }
}

#[test]
fn texts_fall_into_words() {
    let tokens = tokenize("  1\t2\n\u{a0}abc\u{2003}; ");
    assert_eq!(tokens.len(), 4);
    assert!(matches!(tokens[0], Token::Literal(1)));
    assert!(matches!(tokens[1], Token::Literal(2)));
    assert!(matches!(&tokens[2], Token::Identifier(name) if name == "abc"));
    assert!(matches!(tokens[3], Token::Semicolon));
    assert!(tokenize("").is_empty());
    assert!(tokenize(" \n ").is_empty());
    let text: Vec<char> = "ab,,c".chars().collect();
    let white = vec![false, false, true, true, false];
    assert_eq!(split_words(&text, &white), vec!["ab".to_string(), "c".to_string()]);
}

#[test]
fn tokens_become_instructions() {
    assert!(matches!(
        parse("+").to_instruction(),
        Instr::BBInstr(BasicBlockInstr::Arith(ArithOp::Add))
    ));
    assert!(matches!(parse("pick").to_instruction(), Instr::BBInstr(BasicBlockInstr::BadPick)));
    assert!(matches!(parse("if").to_instruction(), Instr::CFInstr(ControlFlowInstr::If)));
    assert!(matches!(
        parse("write_native").to_instruction(),
        Instr::BBInstr(BasicBlockInstr::Mem(MemOp::WriteNative))
    ));
    assert!(matches!(
        parse("foo").to_instruction(),
        Instr::BBInstr(BasicBlockInstr::FunctionCall(name)) if name == "foo"
    ));
}

#[test]
fn a_stack_keeps_values_in_mapped_memory() {
    let mut stack = Stack::new(24).unwrap();
    assert_eq!((stack.len(), stack.capacity()), (0, 3));
    assert_eq!(stack.pop(), None);
    for v in [1, i64::MIN, -2] {
        assert!(stack.has_room());
        stack.push(v);
    }
    assert!(!stack.has_room());
    assert_eq!(stack.values(), vec![1, i64::MIN, -2]);
    stack.set(0, i64::MAX);
    assert_eq!(stack.get(0), i64::MAX);
    assert_eq!(stack.memory()[0..8], [255, 255, 255, 255, 255, 255, 255, 127]);
    stack.memory()[8] = 3;
    assert_eq!(stack.get(1), i64::MIN + 3);
    stack.set_len(1);
    assert_eq!(stack.pop(), Some(i64::MAX));
    assert_eq!(stack.pop(), None);
    stack.memory()[16] = 7;
    stack.set_len(3);
    assert_eq!(stack.values(), vec![i64::MAX, i64::MIN + 3, -249]);
}

#[test]
fn names_keep_their_order() {
    let mut map: NameMap<i32> = NameMap::new();
    assert!(map.get("b").is_none());
    map.insert("b".to_string(), 1);
    map.insert("a".to_string(), 2);
    map.insert("b".to_string(), 3);
    assert_eq!(map.len(), 2);
    assert_eq!((map.name_at(0).as_str(), *map.value_at(0)), ("b", 3));
    assert_eq!((map.name_at(1).as_str(), *map.value_at(1)), ("a", 2));
    assert_eq!(map.position("a"), Some(1));
    assert_eq!(map.position("c"), None);
    assert_eq!(map.get("a"), Some(&2));
}

#[test]
fn what_follows_a_line() {
    assert!(matches!(after_line(Ok(()), false), AfterLine::ShowStack));
    assert!(matches!(after_line(Ok(()), true), AfterLine::NextLine));
    assert!(matches!(after_line(Err(ExecError::Quit), false), AfterLine::Leave));
    assert!(matches!(
        after_line(Err(ExecError::InvalidSkip), true),
        AfterLine::Fail(ExecError::InvalidSkip)
    ));
}

#[test]
fn words_are_parted_by_white_space() {
    let white = [
        '\u{9}', '\u{a}', '\u{b}', '\u{c}', '\u{d}', '\u{20}', '\u{85}', '\u{a0}', '\u{1680}',
        '\u{2000}', '\u{200a}', '\u{2028}', '\u{2029}', '\u{202f}', '\u{205f}', '\u{3000}',
    ];
    for c in white {
        assert_eq!(tokenize(&format!("1{c}2")).len(), 2, "{c:?}");
    }
    for c in ['\u{8}', '\u{e}', '\u{1f}', '\u{180e}', '\u{200b}', '\u{2060}', '\u{feff}'] {
        assert_eq!(tokenize(&format!("1{c}2")).len(), 1, "{c:?}");
    }
}

#[test]
fn no_memory_is_an_error() {
    assert!(matches!(ClacState::new(usize::MAX), Err(InitError::IoError(_))));
    assert!(Stack::new(isize::MAX as usize + 1).is_err());
    let why = std::io::Error::from(std::io::ErrorKind::OutOfMemory);
    assert_eq!(Stack::over(Err(why)).err().unwrap().kind(), std::io::ErrorKind::OutOfMemory);
}

#[test]
fn a_stack_is_put_over_mapped_memory() {
    let mut map = MmapMut::map_anon(20).unwrap();
    map[8] = 5;
    let mut stack = Stack::over(Ok(map)).unwrap();
    assert_eq!((stack.len(), stack.capacity()), (0, 2));
    assert_eq!(stack.memory().len(), 20);
    stack.set_len(2);
    assert_eq!(stack.pop(), Some(5));
}

#[test]
fn a_full_stack_still_does_what_needs_no_room() {
    let functions: NameMap<Code> = NameMap::new();
    let bb = |instr: BasicBlockInstr| Instr::BBInstr(instr);
    let full = |values: [i64; 3]| {
        let mut stack = Stack::new(24).unwrap();
        for v in values {
            stack.push(v);
        }
        stack
    };
    let cases: Vec<(Instr, Vec<i64>)> = vec![
        (bb(BasicBlockInstr::Drop), vec![5, 7]),
        (bb(BasicBlockInstr::Swap), vec![5, 2, 7]),
        (bb(BasicBlockInstr::Rot), vec![7, 2, 5]),
        (bb(BasicBlockInstr::Arith(ArithOp::Sub)), vec![5, 5]),
        (bb(BasicBlockInstr::BadPick), vec![5, 7, 5]),
        (bb(BasicBlockInstr::ResolvedDropRange { start: 3, amt: 2 }), vec![2]),
        (Instr::CFInstr(ControlFlowInstr::If), vec![5, 7]),
    ];
    for (instr, after) in cases {
        let mut stack = full([5, 7, 2]);
        assert!(!needs_room(&stack, &instr), "{instr:?}");
        let r = execute(&mut stack, &functions, &instr);
        assert!(matches!(r, Ok(ExecRes::Executed)), "{instr:?}");
        assert_eq!(stack.values(), after, "{instr:?}");
    }
    let mut stack = full([5, 7, 0]);
    let r = execute(&mut stack, &functions, &Instr::CFInstr(ControlFlowInstr::If));
    assert!(matches!(r, Ok(ExecRes::Skip(3))));
    let mut stack = full([5, 7, 9]);
    let r = execute(&mut stack, &functions, &bb(BasicBlockInstr::ResolvedPick(4)));
    assert!(matches!(r, Err(ExecError::InvalidPick)));
    assert!(needs_room(&stack, &bb(BasicBlockInstr::ResolvedPick(3))));
    assert!(needs_room(&stack, &bb(BasicBlockInstr::Literal(1))));
    assert!(needs_room(&stack, &bb(BasicBlockInstr::Mem(MemOp::WidthNative))));
}

#[test]
fn one_cell_is_enough_for_one_value() {
    let mut state = ClacState::new(8).unwrap();
    assert!(run(&mut state, "5 drop").0.is_ok());
    assert!(run(&mut state, ": f 6 print 7 drop 8 ; f print").0.is_ok());
    let (_, at, progress) = state.execute_str("5 drop 6 7");
    assert!(matches!(progress, Progress::StackFull));
    assert_eq!((at, state.stack.values()), (3, vec![6]));
}

#[test]
fn a_line_in_two_pieces_is_the_whole_line() {
    let line = "1 2 : f 3 * print ; 4 f 0 if 5 6 7 f 2 skip 8 9 : g 1 ; g";
    let tokens = tokenize(line);
    let mut whole = machine();
    let expected = run(&mut whole, line).1;
    assert_eq!(expected, vec![12, 6]);
    let words: Vec<&str> = line.split(' ').collect();
    assert_eq!(words.len(), tokens.len());
    for cut in [2, 7, 8, 9, 14, 16, 18, 20, 24] {
        let mut state = machine();
        let (first, mut printed) = run(&mut state, &words[..cut].join(" "));
        if first.is_err() {
            continue;
        }
        printed.extend(run(&mut state, &words[cut..].join(" ")).1);
        assert_eq!(printed, expected, "{cut}");
        assert_eq!(state.stack.values(), whole.stack.values(), "{cut}");
    }
}

#[test]
fn what_is_written_is_read_back() {
    let mut state = machine();
    let tokens = tokenize("1 4096 77 write_native 4104 5 write_native 4096 read_native");
    let mut memory: Vec<(i64, i64)> = Vec::new();
    let (mut at, mut progress) = state.execute_tokens(&tokens, 0);
    loop {
        match progress {
            Progress::Finished => break,
            Progress::Perform(Effect::WriteNative { addr, value }) => memory.push((addr, value)),
            Progress::Perform(Effect::ReadNative(addr)) => {
                let found = memory.iter().rev().find(|cell| cell.0 == addr).unwrap();
                state.stack.push(found.1);
            }
            other => panic!("{other:?}"),
        }
        (at, progress) = state.execute_tokens(&tokens, at);
    }
    assert_eq!(memory, vec![(4096, 77), (4104, 5)]);
    assert_eq!(state.stack.values(), vec![1, 77]);
}
