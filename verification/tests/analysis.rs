use clac_lang::aot::extract_functions;
use clac_lang::jit::abi::{declare_imports, AbiParam, CallConv};
use clac_lang::jit::analysis::{analyze, AnalysisResult, ResolvedSig};
use clac_lang::jit::breaks::{breaks_to_slicemap, get_block_breaks};
use clac_lang::jit::calls::{
    combine_branching_calls_with_deltas, combine_sequential_calls_with_deltas,
};
use clac_lang::jit::cfg::{
    extract_terminator, get_block_breaks_v2, raw_instrs_to_analyzed_function,
    resolve_drops_and_picks, Next, Terminator,
};
use clac_lang::jit::compile::JITError;
use clac_lang::jit::cycles::find_negative_cycle;
use clac_lang::jit::delta::{combine_branching_deltas, Delta, GuessMap};
use clac_lang::jit::graph::{call_components, get_callees};
use clac_lang::jit::reach::{combine_branching_reaches, combine_sequential_reaches, Reach};
use clac_lang::lexer::tokenize;
use clac_lang::machine::{execute, ExecRes};
use clac_lang::names::NameMap;
use clac_lang::stack::Stack;
use clac_lang::types::{BasicBlockInstr, Code, Instr};

fn program(text: &str) -> NameMap<Code> {
    extract_functions(&tokenize(text)).unwrap()
}

fn code(text: &str) -> Code {
    tokenize(text).into_iter().map(|token| token.to_instruction()).collect()
}

fn analyzed(text: &str) -> AnalysisResult {
    let funcs = program(text);
    analyze(&call_components(&funcs), &funcs)
}

/// The delta and the reach of a function, if it has a signature.
fn signature(text: &str, name: &str) -> Option<(Option<isize>, usize)> {
    analyzed(text).resolved_sigs.get(name).map(|sig| (sig.delta, sig.reach))
}

#[test]
fn signatures_of_straight_code() {
    assert_eq!(signature(": f ;", "f"), Some((Some(0), 0)));
    assert_eq!(signature(": dup 1 pick ;", "dup"), Some((Some(1), 1)));
    assert_eq!(signature(": f + ;", "f"), Some((Some(-1), 2)));
    assert_eq!(signature(": f rot ;", "f"), Some((Some(0), 3)));
    assert_eq!(signature(": f syscall ;", "f"), Some((Some(-6), 7)));
    assert_eq!(signature(": f read8 write_native ;", "f"), Some((Some(-2), 2)));
    assert_eq!(signature(": f 5 2 drop_range ;", "f"), Some((Some(-2), 5)));
    assert_eq!(signature(": f width_native print ;", "f"), Some((Some(0), 0)));
    assert_eq!(signature(": f quit ;", "f"), Some((None, 0)));
    assert_eq!(signature(": f drop quit ;", "f"), Some((None, 1)));
    assert_eq!(signature(": f pick ;", "f"), None);
    assert_eq!(signature(": f drop_range ;", "f"), None);
}

#[test]
fn signatures_of_branches_and_calls() {
    assert_eq!(signature(": g ; : f if 1 print g ;", "f"), Some((Some(-1), 1)));
    assert_eq!(signature(": f if swap swap swap ;", "f"), Some((Some(-1), 3)));
    assert_eq!(signature(": f if 1 2 3 ;", "f"), None);
    assert_eq!(signature(": f if drop drop 3 ;", "f"), None);
    assert_eq!(signature(": f if drop drop quit ;", "f"), Some((Some(-1), 3)));
    assert_eq!(signature(": g + ; : f 1 g g ;", "f"), Some((Some(-1), 2)));
    assert_eq!(signature(": g pick ; : f g ;", "f"), None);
    assert_eq!(signature(": f nowhere ;", "f"), Some((None, 0)));
}

#[test]
fn signatures_of_recursion() {
    assert_eq!(signature(": f f ;", "f"), Some((None, 0)));
    assert_eq!(signature(": f 1 pick if -1 + f ;", "f"), Some((Some(0), 1)));
    // takes one value more each time
    assert_eq!(signature(": f if drop f 0 ;", "f"), None);
    // each calls the other
    let text = ": a 1 pick if 1 skip b ; : b -1 + a ;";
    assert_eq!(signature(text, "a"), Some((Some(0), 1)));
    assert_eq!(signature(text, "b"), Some((Some(0), 1)));
    // one has no delta, so the other has none
    let text = ": a pick b ; : b 1 pick if a 0 drop ;";
    assert_eq!(signature(text, "a"), None);
    assert_eq!(signature(text, "b"), None);
}

#[test]
fn reaches_can_be_without_a_limit() {
    // an endless descent that looks one value deeper each time
    let text = ": f drop f ;";
    assert_eq!(signature(text, "f"), None);
    assert!(analyzed(text).code.contains_key("f"));
}

#[test]
fn signatures_count_arguments_and_results() {
    let sig = ResolvedSig { delta: Some(-1), reach: 3 };
    assert_eq!((sig.argc(), sig.retc()), (3, 2));
    let sig = ResolvedSig { delta: None, reach: 3 };
    assert_eq!((sig.argc(), sig.retc()), (3, 0));
    let abi = ResolvedSig { delta: Some(1), reach: 1 }.to_cranelift_signature(CallConv::Tail);
    assert_eq!(abi.params, vec![AbiParam::Value]);
    assert_eq!(abi.returns, vec![AbiParam::Value, AbiParam::Value]);
    assert_eq!(abi.call_conv, CallConv::Tail);
    assert_eq!(
        ResolvedSig::try_from((&Delta::Num(2), &Reach::Num(1))),
        Ok(ResolvedSig { delta: Some(2), reach: 1 })
    );
    assert_eq!(ResolvedSig::try_from((&Delta::Never, &Reach::Unbounded)), Err(()));
}

#[test]
fn imports_have_their_names_and_arities() {
    let imports = declare_imports();
    let all = [imports.printfunc, imports.quitfunc, imports.powfunc, imports.syscallfunc];
    let shapes: Vec<(&str, usize, usize)> = all
        .iter()
        .map(|i| (i.name.as_str(), i.signature.params.len(), i.signature.returns.len()))
        .collect();
    assert_eq!(
        shapes,
        vec![("__rprint__", 1, 0), ("__rquit__", 0, 0), ("__rpow__", 2, 1), ("__syscall__", 7, 1)]
    );
}

#[test]
fn deltas_and_reaches_combine() {
    assert_eq!(Delta::Num(2) + Delta::Num(-3), Delta::Num(-1));
    assert_eq!(Delta::Num(2) + Delta::Never, Delta::Never);
    assert_eq!(Delta::Num(isize::MAX).checked_add(Delta::Num(1)), None);
    assert_eq!(combine_branching_deltas(Delta::Never, Delta::Num(1)), Some(Delta::Num(1)));
    assert_eq!(combine_branching_deltas(Delta::Num(1), Delta::Num(1)), Some(Delta::Num(1)));
    assert_eq!(combine_branching_deltas(Delta::Num(1), Delta::Num(2)), None);
    let first = (Reach::Num(2), Delta::Num(-1));
    assert_eq!(combine_sequential_reaches(first, Reach::Num(3)), Reach::Num(4));
    assert_eq!(combine_sequential_reaches((Reach::Num(2), Delta::Num(5)), Reach::Num(3)), Reach::Num(2));
    assert_eq!(combine_sequential_reaches((Reach::Num(2), Delta::Never), Reach::Num(9)), Reach::Num(2));
    assert_eq!(combine_branching_reaches(Reach::Num(2), Reach::Num(3)), Reach::Num(3));
    assert_eq!(combine_branching_reaches(Reach::Unbounded, Reach::Num(3)), Reach::Unbounded);
    assert_eq!(
        combine_sequential_calls_with_deltas((vec![(0, 1)], Delta::Num(-2)), vec![(1, 5)]),
        Some(vec![(0, 1), (1, 3)])
    );
    assert_eq!(combine_branching_calls_with_deltas(vec![(0, 1)], vec![(1, 5)]), vec![(0, 1), (1, 5)]);
}

#[test]
fn guesses_and_what_is_settled_are_looked_up_together() {
    let mut guesses: NameMap<Delta> = NameMap::new();
    guesses.insert("f".to_string(), Delta::Never);
    let mut already_resolved: NameMap<Delta> = NameMap::new();
    already_resolved.insert("g".to_string(), Delta::Num(3));
    let map = GuessMap { guesses, already_resolved: &already_resolved };
    assert_eq!(map.lookup("f"), Some(&Delta::Never));
    assert_eq!(map.lookup("g"), Some(&Delta::Num(3)));
    assert_eq!(map.lookup("h"), None);
    assert_eq!(BasicBlockInstr::FunctionCall("g".to_string()).delta(&map), Some(Delta::Num(3)));
    assert_eq!(BasicBlockInstr::FunctionCall("h".to_string()).delta(&map), None);
}

#[test]
fn negative_cycles_are_found_where_they_can_be_reached() {
    let edges = vec![(0, 1, 1), (1, 2, -3), (2, 1, 2), (3, 0, 0)];
    assert!(find_negative_cycle(4, &edges, 0));
    assert!(find_negative_cycle(4, &edges, 3));
    assert!(!find_negative_cycle(4, &vec![(0, 1, 1), (1, 2, -3), (2, 1, 3), (3, 0, 0)], 3));
    assert!(!find_negative_cycle(4, &vec![(3, 3, -1), (0, 1, 1)], 0));
    assert!(find_negative_cycle(1, &vec![(0, 0, -1)], 0));
}

#[test]
fn callees_are_collected_once() {
    let callees = get_callees(&code("f 1 g f + h"));
    let names: Vec<&str> = (0..callees.len()).map(|i| callees.name_at(i).as_str()).collect();
    assert_eq!(names, vec!["f", "g", "h"]);
}

#[test]
fn breaks_stand_where_control_can_go() {
    let found = get_block_breaks_v2(&code("1 if 2 3 4 5"));
    assert!(found.contains(&2) && found.contains(&5) && !found.contains(&3));
    let found = get_block_breaks(&code("1 if 2 3 4 5")).unwrap();
    assert_eq!(found.into_iter().collect::<Vec<_>>(), vec![2, 5]);
    let found = get_block_breaks(&code("2 skip 7 8 9")).unwrap();
    assert_eq!(found.into_iter().collect::<Vec<_>>(), vec![4]);
    let found = get_block_breaks(&code("skip 7 8")).unwrap();
    assert_eq!(found.into_iter().collect::<Vec<_>>(), vec![1, 2, 3]);
    assert_eq!(get_block_breaks(&code("if 1 2")), Err(JITError::IndeterminateControlFlow));
    assert_eq!(get_block_breaks(&code("3 skip 1")), Err(JITError::IndeterminateControlFlow));
    assert_eq!(get_block_breaks(&code("-3 skip 1")), Err(JITError::BadSkip));
    assert_eq!(JITError::IndeterminateControlFlow.message(), "Indeterminate Control Flow");
    assert_eq!(JITError::BadSkip.message(), "Detected a negative skip!");
    assert_eq!(
        JITError::CallsUnknownFunctions.message(),
        "Could not compile due to function calling non-compiled function"
    );
}

#[test]
fn pieces_put_together_are_the_body() {
    let body = code("1 if 2 3 4 5 6");
    let breaks = get_block_breaks(&body).unwrap();
    let pieces = breaks_to_slicemap(breaks, &body);
    let shapes: Vec<(usize, usize)> = pieces.iter().map(|(at, piece)| (*at, piece.len())).collect();
    assert_eq!(shapes, vec![(0, 2), (2, 3), (5, 2)]);
    assert!(matches!(pieces[&5][1], Instr::BBInstr(BasicBlockInstr::Literal(6))));
}

#[test]
fn blocks_end_as_their_last_words_say() {
    let body = code("1 if 2 3 4 5");
    let (kept, terminator) = extract_terminator(0, &body[0..2], body.len());
    assert_eq!(kept.len(), 1);
    assert!(matches!(
        terminator,
        Terminator::If { on_true: Next::Block(2), on_false: Next::Block(5) }
    ));
    let body = code("1 skip 7 8");
    let (kept, terminator) = extract_terminator(0, &body[0..2], body.len());
    assert_eq!(kept.len(), 0);
    assert!(matches!(terminator, Terminator::Jump(Next::Block(3))));
    let body = code("if 1 2");
    let (_, terminator) = extract_terminator(0, &body[0..1], body.len());
    assert!(matches!(
        terminator,
        Terminator::If { on_true: Next::Block(1), on_false: Next::Trap }
    ));
}

#[test]
fn known_picks_and_ranges_are_resolved() {
    let resolved = resolve_drops_and_picks(&code("2 pick 5 3 drop_range pick 1 drop_range"));
    assert_eq!(resolved.len(), 5);
    assert!(matches!(resolved[0], Instr::BBInstr(BasicBlockInstr::ResolvedPick(2))));
    assert!(matches!(
        resolved[1],
        Instr::BBInstr(BasicBlockInstr::ResolvedDropRange { start: 5, amt: 3 })
    ));
    assert!(matches!(resolved[2], Instr::BBInstr(BasicBlockInstr::BadPick)));
    assert!(matches!(resolved[4], Instr::BBInstr(BasicBlockInstr::BadDropRange)));
}

#[test]
fn graphs_trap_where_functions_are_missing() {
    let funcs = program(": g 1 ;");
    let graph = raw_instrs_to_analyzed_function(&funcs, &code("g nowhere"));
    assert_eq!(graph.length, 2);
    let block = &graph.blocks[&0];
    assert!(matches!(&block.code[0], BasicBlockInstr::FunctionCall(name) if name == "g"));
    assert!(matches!(block.code[1], BasicBlockInstr::Trap(_)));
    assert!(matches!(block.terminator, Terminator::Jump(Next::Terminate)));
}

#[test]
fn resolved_code_does_the_same() {
    let functions: NameMap<Code> = NameMap::new();
    let run = |code: &[Instr], values: &[i64]| {
        let mut stack = Stack::new(800).unwrap();
        for v in values {
            stack.push(*v);
        }
        for instr in code {
            match execute(&mut stack, &functions, instr) {
                Ok(ExecRes::Executed) => {}
                Err(e) => return (stack.values(), Some(e.message())),
                other => panic!("{other:?}"),
            }
        }
        (stack.values(), None)
    };
    for text in ["2 pick 1 +", "3 2 drop_range", "9 pick 1", "9 1 drop_range", "1 2 drop_range"] {
        let raw = code(text);
        let resolved = resolve_drops_and_picks(&raw);
        assert!(resolved.len() <= raw.len(), "{text}");
        assert_eq!(run(&raw, &[4, 5, 6]), run(&resolved, &[4, 5, 6]), "{text}");
    }
    let failed = run(&resolve_drops_and_picks(&code("1 9 pick")), &[4]);
    assert_eq!(failed, (vec![4, 1], Some("Invalid Pick".to_string())));
}
