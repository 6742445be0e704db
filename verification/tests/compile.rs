use clac_lang::aot::{compile_str, extract_functions, AOTCompileError};
use clac_lang::builtins::compute;
use clac_lang::interp::{exec_function, Frame, Pause};
use clac_lang::jit::abi::AbiParam;
use clac_lang::jit::compile::JITError;
use clac_lang::jit::compiler::{CompiledFunction, CompilerError};
use clac_lang::jit::plan::{BlockPlan, Ending, FunctionPlan, Goal, Op, Reg};
use clac_lang::jit::tailcall::optimize_tailcall;
use clac_lang::lexer::tokenize;
use clac_lang::names::NameMap;
use clac_lang::semantics::Effect;
use clac_lang::stack::Stack;
use clac_lang::state::{ClacState, Progress};
use std::collections::BTreeMap;

/// What a run of compiled functions meets and leaves.
struct Run<'a> {
    functions: &'a NameMap<CompiledFunction>,
    stack: Vec<i64>,
    printed: Vec<i64>,
}

impl Run<'_> {
    /// Carries out a plan; `None` if it stops on the way.
    fn plan(&mut self, plan: &FunctionPlan, args: Vec<i64>) -> Option<Vec<i64>> {
        let mut params = args;
        let mut at = 0;
        if plan.length == 0 {
            return Some(params);
        }
        loop {
            let block = &plan.blocks[&at];
            assert_eq!(block.params, params.len());
            let mut results: Vec<Vec<i64>> = Vec::new();
            for op in &block.ops {
                let value = |reg: &Reg| match reg {
                    Reg::Param(k) => params[*k],
                    Reg::Result { op, k } => results[*op][*k],
                };
                let made = match op {
                    Op::Const(v) => vec![*v],
                    Op::Arith { op, a, b } => vec![compute(*op, value(a), value(b))?],
                    Op::Print(v) => {
                        let v = value(v);
                        self.printed.push(v);
                        vec![]
                    }
                    Op::Quit => return None,
                    Op::Pop => vec![self.stack.pop().unwrap()],
                    Op::Discard => {
                        self.stack.pop().unwrap();
                        vec![]
                    }
                    Op::Push(v) => {
                        let v = value(v);
                        self.stack.push(v);
                        vec![]
                    }
                    Op::Peek(n) => vec![self.stack[self.stack.len() - n]],
                    Op::Pick(v) => {
                        let n = value(v) as usize;
                        self.stack.push(self.stack[self.stack.len() - n]);
                        vec![]
                    }
                    Op::DropRange { start, amount } => {
                        let from = self.stack.len() - value(start) as usize;
                        let to = from + value(amount) as usize;
                        self.stack.drain(from..to);
                        vec![]
                    }
                    Op::Call { callee, args, results: count } => {
                        let args = args.iter().map(value).collect();
                        let made = self.call(callee, args)?;
                        assert_eq!(made.len(), *count);
                        made
                    }
                    Op::CallStack(callee) => {
                        self.call(callee, vec![])?;
                        vec![]
                    }
                    other => panic!("{other:?}"),
                };
                results.push(made);
            }
            let value = |reg: &Reg| match reg {
                Reg::Param(k) => params[*k],
                Reg::Result { op, k } => results[*op][*k],
            };
            let (goal, regs) = match &block.ending {
                Ending::Goto { goal, args } => (*goal, args),
                Ending::Branch { cond, on_true, on_false, args } => {
                    (if value(cond) == 0 { *on_false } else { *on_true }, args)
                }
                Ending::Switch { index, goals, args } => (*goals.get(value(index) as usize)?, args),
                Ending::TailCall { callee, args } => {
                    let args = args.iter().map(value).collect();
                    return self.call(callee, args);
                }
                Ending::TailCallStack(callee) => return self.call(callee, vec![]),
            };
            let args: Vec<i64> = regs.iter().map(value).collect();
            match goal {
                Goal::Trap(_) => return None,
                Goal::Return => return Some(args),
                Goal::Block(q) => {
                    params = args;
                    at = q;
                }
            }
        }
    }

    fn call(&mut self, name: &str, args: Vec<i64>) -> Option<Vec<i64>> {
        let functions = self.functions;
        self.plan(&functions.get(name).unwrap().plan, args)
    }
}

/// The stack and what was printed after a compiled function, called from outside.
fn compiled(text: &str, name: &str, stack: &[i64]) -> Option<(Vec<i64>, Vec<i64>)> {
    let functions = compile_str(text).unwrap();
    let mut run = Run { functions: &functions, stack: stack.to_vec(), printed: vec![] };
    let wrapper = &functions.get(name).unwrap().wrapper;
    run.plan(wrapper, vec![])?;
    Some((run.stack, run.printed))
}

/// The same, without compiling it.
fn interpreted(text: &str, name: &str, values: &[i64]) -> Option<(Vec<i64>, Vec<i64>)> {
    let functions = extract_functions(&tokenize(text)).unwrap();
    let mut stack = Stack::new(8000).unwrap();
    for v in values {
        stack.push(*v);
    }
    let mut printed = Vec::new();
    let mut callstack = vec![Frame { function: functions.position(name).unwrap(), pc: 0 }];
    loop {
        match exec_function(&mut stack, &functions, &mut callstack, 1000) {
            Pause::Finished => return Some((stack.values(), printed)),
            Pause::OutOfSteps => {}
            Pause::Perform(Effect::Print(v)) => printed.push(v),
            Pause::Failed(_) => return None,
            other => panic!("{other:?}"),
        }
    }
}

#[test]
fn compiled_functions_do_what_interpreted_ones_do() {
    let text = "
        : dup 1 pick ;
        : over 2 pick ;
        : square dup * ;
        : print2 dup print dup print ;
        : max over over < if swap 1 skip drop_one ;
        : drop_one drop ;
        : fact dup if fact_step 1 skip fact_end ;
        : fact_step dup -1 + fact * ;
        : fact_end drop 1 ;
        : sum dup if 1 skip sum_end 3 skip dup -1 + sum + ;
        : sum_end 0 drop ;
        : deep 4 3 drop_range ;
        : loose pick ;
        : loose_twice loose loose square ;
        : ranges drop_range 7 print ;
        : jump skip 10 20 30 40 ;
        : nothing ;
        : shapes rot swap 3 pick 2 1 drop_range + ;
    ";
    let cases: Vec<(&str, Vec<i64>)> = vec![
        ("dup", vec![5]),
        ("square", vec![1, -7]),
        ("print2", vec![25]),
        ("max", vec![3, 9]),
        ("max", vec![9, 3]),
        ("fact", vec![6]),
        ("fact", vec![0]),
        ("deep", vec![1, 2, 3, 4, 5]),
        ("loose", vec![10, 20, 30, 2]),
        ("loose_twice", vec![10, 20, 3, 2, 2]),
        ("ranges", vec![1, 2, 3, 4, 3, 2]),
        ("jump", vec![0]),
        ("jump", vec![2]),
        ("jump", vec![4]),
        ("nothing", vec![8]),
        ("shapes", vec![1, 2, 3, 4]),
    ];
    for (name, stack) in cases {
        let expected = interpreted(text, name, &stack);
        assert!(expected.is_some(), "{name}");
        assert_eq!(compiled(text, name, &stack), expected, "{name}");
    }
    assert_eq!(compiled(text, "fact", &[6]), Some((vec![720], vec![])));
    assert_eq!(compiled(text, "print2", &[25]), Some((vec![25], vec![25, 25])));
}

#[test]
fn declarations_follow_signatures() {
    let functions = compile_str(": dup 1 pick ; : loose pick ;").unwrap();
    let dup = functions.get("dup").unwrap();
    assert_eq!(dup.declared.params, vec![AbiParam::Value]);
    assert_eq!(dup.declared.returns, vec![AbiParam::Value, AbiParam::Value]);
    assert_eq!(dup.plan.signature.map(|sig| (sig.argc(), sig.retc())), Some((1, 2)));
    let loose = functions.get("loose").unwrap();
    assert_eq!(loose.declared.params, vec![AbiParam::StackPointer]);
    assert!(loose.plan.signature.is_none());
    for function in [dup, loose] {
        assert!(function.wrapper.signature.is_none());
        assert!(matches!(function.wrapper.blocks[&0].ending, Ending::Goto { goal: Goal::Return, .. }));
    }
}

#[test]
fn calls_at_the_end_are_left_the_rest_to() {
    let functions = compile_str(": f 1 + ; : g f ; : h pick ; : i h ;").unwrap();
    assert!(matches!(
        &functions.get("g").unwrap().plan.blocks[&0].ending,
        Ending::TailCall { callee, args } if callee == "f" && args.len() == 1
    ));
    assert!(matches!(
        &functions.get("i").unwrap().plan.blocks[&0].ending,
        Ending::TailCallStack(callee) if callee == "h"
    ));
}

#[test]
fn conflicting_heights_are_an_error() {
    let e = compile_str(": f if 7 8 9 quit ;").err().unwrap();
    assert!(matches!(
        &e,
        AOTCompileError::CompileError(CompilerError::JITError(JITError::IndeterminateControlFlow))
    ));
    assert_eq!(e.message(), "Compile error: JIT Compilation Error: Indeterminate Control Flow");
}

#[test]
fn only_definitions_are_compiled_ahead_of_time() {
    assert!(matches!(compile_str("1"), Err(AOTCompileError::TopLevelDisallowed)));
    assert!(matches!(compile_str(": f ; 1"), Err(AOTCompileError::TopLevelDisallowed)));
    assert!(matches!(compile_str(": f"), Err(AOTCompileError::BadFunctionDefinition)));
    assert!(matches!(compile_str(";"), Err(AOTCompileError::BadFunctionDefinition)));
    assert_eq!(compile_str("").unwrap().len(), 0);
    assert_eq!(AOTCompileError::BadFunctionDefinition.message(), "Bad Function Definition");
    assert_eq!(
        AOTCompileError::TopLevelDisallowed.message(),
        "Top level is not allowed in Ahead of time compilation."
    );
    assert_eq!(
        AOTCompileError::CraneliftModuleError("x".to_string()).message(),
        "Cranelift module error: x"
    );
    assert_eq!(
        CompilerError::ModuleError("x".to_string()).message(),
        "Module (cranelift) Error: x"
    );
    let functions = extract_functions(&tokenize(": f 1 2 ; : g ; : f 3 ;")).unwrap();
    assert_eq!(functions.len(), 2);
    assert_eq!(functions.get("f").unwrap().len(), 1);
}

#[test]
fn a_program_defines_the_same_as_a_line() {
    let text = ": f 1 2 ; : g f ; : f 3 ;";
    let functions = extract_functions(&tokenize(text)).unwrap();
    let mut state = ClacState::new(80).unwrap();
    let (tokens, at, progress) = state.execute_str(text);
    assert!(matches!(progress, Progress::Finished));
    assert_eq!(at, tokens.len());
    assert_eq!(state.undefined_functions.len(), 3);
    state.reset_module_and_recompile_all().unwrap();
    assert_eq!(state.funcmap.len(), functions.len());
    for i in 0..functions.len() {
        let name = functions.name_at(i);
        assert_eq!(state.funcmap.get(name).unwrap().len(), functions.value_at(i).len());
    }
}

#[test]
fn calls_before_quiet_jumps_are_found() {
    let calling = |goal: Goal, ops: Vec<Op>| BlockPlan {
        params: 0,
        ops,
        ending: Ending::Goto { goal, args: vec![] },
    };
    let mut blocks = BTreeMap::new();
    blocks.insert(
        0,
        calling(Goal::Block(1), vec![Op::Const(1), Op::CallStack("f".to_string()), Op::Const(2)]),
    );
    blocks.insert(1, calling(Goal::Block(2), vec![Op::Const(3)]));
    blocks.insert(2, calling(Goal::Return, vec![]));
    blocks.insert(3, calling(Goal::Block(4), vec![Op::CallStack("g".to_string())]));
    blocks.insert(4, calling(Goal::Return, vec![Op::Discard]));
    let plan = optimize_tailcall(FunctionPlan { signature: None, blocks, length: 5 });
    assert!(matches!(&plan.blocks[&0].ending, Ending::TailCallStack(callee) if callee == "f"));
    assert_eq!(plan.blocks[&0].ops.len(), 1);
    assert!(matches!(plan.blocks[&3].ending, Ending::Goto { goal: Goal::Block(4), .. }));
}

#[test]
fn computed_skips_out_of_range_trap() {
    let text = ": jump skip 10 20 30 40 ; : loose_jump pick skip 10 20 ;";
    assert_eq!(compiled(text, "jump", &[1, 4]), Some((vec![1], vec![])));
    for n in [5, 6, 1000, -1, i64::MIN, i64::MAX] {
        assert_eq!(compiled(text, "jump", &[1, n]), None, "{n}");
        assert_eq!(interpreted(text, "jump", &[1, n]), None, "{n}");
        assert_eq!(compiled(text, "loose_jump", &[1, n, 1]), None, "{n}");
    }
    assert_eq!(compiled(text, "loose_jump", &[1, 2, 1]), Some((vec![1, 2], vec![])));
    let functions = compile_str(text).unwrap();
    for (name, targets) in [("jump", 5), ("loose_jump", 3)] {
        let plan = &functions.get(name).unwrap().plan;
        let skip = plan.blocks.values().find_map(|block| match &block.ending {
            Ending::Switch { goals, .. } => Some(goals),
            _ => None,
        });
        assert_eq!(skip.unwrap().len(), targets, "{name}");
    }
}

#[test]
fn calls_of_missing_functions_trap() {
    let text = ": f 1 nowhere 2 ; : g pick nowhere ;";
    assert_eq!(compiled(text, "f", &[]), None);
    assert_eq!(compiled(text, "g", &[7, 1]), None);
    let functions = compile_str(text).unwrap();
    for name in ["f", "g"] {
        let plan = &functions.get(name).unwrap().plan;
        assert!(
            matches!(plan.blocks[&0].ending, Ending::Goto { goal: Goal::Trap(20), .. }),
            "{name}"
        );
    }
}

#[test]
fn only_calls_whose_results_are_the_callers_are_left_the_rest_to() {
    let text = "
        : inc 1 + ;
        : whole 5 inc ;
        : below 7 5 inc ;
        : before 5 inc 1 ;
        : loose pick ;
        : loose_end 1 loose ;
        : loose_inc loose inc ;
        : count 1 pick if count_on 1 skip drop ;
        : count_on -1 + count ;
        : spin spin ;
    ";
    let functions = compile_str(text).unwrap();
    let leaves = |name: &str| {
        let function = functions.get(name).unwrap();
        let planned = function.plan.blocks.values().find_map(|block| match &block.ending {
            Ending::TailCall { callee, .. } | Ending::TailCallStack(callee) => Some(callee.clone()),
            _ => None,
        });
        let native = function.code.blocks.values().find_map(|block| match &block.ending {
            Ending::TailCall { callee, .. } | Ending::TailCallStack(callee) => Some(callee.clone()),
            _ => None,
        });
        assert_eq!(planned, native, "{name}");
        planned
    };
    for (name, callee) in [
        ("whole", Some("inc")),
        ("below", None),
        ("before", None),
        ("loose_end", Some("loose")),
        ("loose_inc", None),
        ("count_on", Some("count")),
        ("spin", Some("spin")),
        ("inc", None),
    ] {
        assert_eq!(leaves(name).as_deref(), callee, "{name}");
    }
}

#[test]
fn traps_say_what_they_stand_behind() {
    let text = ": stop quit 1 ; : call_stop stop 2 ; : miss nowhere quit ; : far 1 9 skip ;";
    let functions = compile_str(text).unwrap();
    for (name, code) in [("stop", 68), ("call_stop", 68), ("miss", 20), ("far", 67)] {
        let ending = &functions.get(name).unwrap().plan.blocks[&0].ending;
        assert!(
            matches!(ending, Ending::Goto { goal: Goal::Trap(c), .. } if *c == code),
            "{name}: {ending:?}"
        );
    }
}
