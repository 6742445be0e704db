use clac_lang::aot::compile_str;
use clac_lang::builtins::compute;
use clac_lang::jit::compiler::CompiledFunction;
use clac_lang::jit::lower::lower;
use clac_lang::jit::native::{Inst, NativeFunction, STRIDE};
use clac_lang::jit::plan::{BlockPlan, Ending, FunctionPlan, Goal, Op, Reg};
use clac_lang::names::NameMap;
use std::collections::BTreeMap;

/// Where the cells of the stack start.
const BASE: i64 = 4096;

/// What a run of functions meets and leaves.
struct Run<'a> {
    functions: &'a NameMap<CompiledFunction>,
    cells: Vec<i64>,
    pointer: i64,
    printed: Vec<i64>,
}

/// Where in the stack an address is.
fn index(addr: i64) -> usize {
    assert!(addr >= BASE && (addr - BASE) % STRIDE == 0);
    ((addr - BASE) / STRIDE) as usize
}

impl Run<'_> {
    /// Carries out a function; `None` if it stops on the way.
    fn function(&mut self, function: &NativeFunction, args: Vec<i64>) -> Option<Vec<i64>> {
        let mut params = args;
        let mut at = 0;
        if function.length == 0 {
            return Some(params);
        }
        loop {
            let block = &function.blocks[&at];
            assert_eq!(block.params, params.len());
            let mut results: Vec<Vec<i64>> = Vec::new();
            for inst in &block.insts {
                let made = {
                    let value = |reg: &Reg| match reg {
                        Reg::Param(k) => params[*k],
                        Reg::Result { op, k } => results[*op][*k],
                    };
                    self.inst(inst, &value)?
                };
                results.push(made);
            }
            let value = |reg: &Reg| match reg {
                Reg::Param(k) => params[*k],
                Reg::Result { op, k } => results[*op][*k],
            };
            let (goal, regs) = match &block.ending {
                Ending::Goto { goal, args } => (*goal, args),
                Ending::Branch { cond, on_true, on_false, args } => {
                    (if value(cond) == 0 { *on_false } else { *on_true }, args)
                }
                Ending::Switch { index, goals, args } => (*goals.get(value(index) as usize)?, args),
                Ending::TailCall { callee, args } => {
                    let args = args.iter().map(value).collect();
                    return self.call(callee, args);
                }
                Ending::TailCallStack(callee) => return self.call(callee, vec![]),
            };
            let args: Vec<i64> = regs.iter().map(value).collect();
            match goal {
                Goal::Trap(_) => return None,
                Goal::Return => return Some(args),
                Goal::Block(q) => {
                    params = args;
                    at = q;
                }
            }
        }
    }

    fn inst(&mut self, inst: &Inst, value: &dyn Fn(&Reg) -> i64) -> Option<Vec<i64>> {
        Some(match inst {
            Inst::Plain(Op::Const(v)) => vec![*v],
            Inst::Plain(Op::Arith { op, a, b }) => vec![compute(*op, value(a), value(b))?],
            Inst::Plain(Op::Print(v)) => {
                self.printed.push(value(v));
                vec![]
            }
            Inst::Plain(Op::Quit) => return None,
            Inst::Plain(Op::Call { callee, args, results }) => {
                let args = args.iter().map(value).collect();
                let made = self.call(callee, args)?;
                assert_eq!(made.len(), *results);
                made
            }
            Inst::Plain(other) => panic!("{other:?}"),
            Inst::UsePointer => vec![self.pointer],
            Inst::DefPointer(v) => {
                self.pointer = value(v);
                vec![]
            }
            Inst::AddImm(a, imm) => vec![value(a).wrapping_add(*imm)],
            Inst::MulImm(a, imm) => vec![value(a).wrapping_mul(*imm)],
            Inst::Add(a, b) => vec![value(a).wrapping_add(value(b))],
            Inst::Sub(a, b) => vec![value(a).wrapping_sub(value(b))],
            Inst::Load(addr) => vec![self.cells[index(value(addr))]],
            Inst::Store { value: v, addr } => {
                self.cells[index(value(addr))] = value(v);
                vec![]
            }
            Inst::Memmove { dest, source, size } => {
                let from = index(value(source));
                let count = (value(size) / STRIDE) as usize;
                self.cells.copy_within(from..from + count, index(value(dest)));
                vec![]
            }
            Inst::CallStack { callee, pointer } => {
                self.pointer = value(pointer);
                self.call(callee, vec![])?;
                vec![self.pointer]
            }
        })
    }

    fn call(&mut self, name: &str, args: Vec<i64>) -> Option<Vec<i64>> {
        let functions = self.functions;
        self.function(&functions.get(name).unwrap().code, args)
    }
}

/// The stack and what was printed after a function, called from outside on a stack in memory.
fn in_memory(text: &str, name: &str, stack: &[i64]) -> Option<(Vec<i64>, Vec<i64>)> {
    let functions = compile_str(text).unwrap();
    let mut cells = stack.to_vec();
    cells.resize(100, -1);
    let mut run = Run {
        functions: &functions,
        cells,
        pointer: BASE + STRIDE * stack.len() as i64,
        printed: vec![],
    };
    let wrapper = &functions.get(name).unwrap().wrapper_code;
    run.function(wrapper, vec![])?;
    run.cells.truncate(index(run.pointer));
    Some((run.cells, run.printed))
}

#[test]
fn functions_work_on_cells() {
    let text = "
        : dup 1 pick ;
        : square dup * ;
        : fact dup if fact_step 1 skip fact_end ;
        : fact_step dup -1 + fact * ;
        : fact_end drop 1 ;
        : deep 4 3 drop_range ;
        : loose pick ;
        : loose_twice loose loose square ;
        : ranges drop_range 7 print ;
        : jump skip 10 20 30 40 ;
        : nothing ;
    ";
    let cases: Vec<(&str, Vec<i64>, Vec<i64>, Vec<i64>)> = vec![
        ("dup", vec![5], vec![5, 5], vec![]),
        ("square", vec![1, -7], vec![1, 49], vec![]),
        ("fact", vec![6], vec![720], vec![]),
        ("deep", vec![1, 2, 3, 4, 5], vec![1, 5], vec![]),
        ("loose", vec![10, 20, 30, 2], vec![10, 20, 30, 20], vec![]),
        ("loose_twice", vec![10, 20, 3, 2, 2], vec![10, 20, 3, 2, 400], vec![]),
        ("ranges", vec![1, 2, 3, 4, 3, 2], vec![1, 4], vec![7]),
        ("jump", vec![2], vec![30, 40], vec![]),
        ("nothing", vec![8], vec![8], vec![]),
    ];
    for (name, before, after, printed) in cases {
        assert_eq!(in_memory(text, name, &before), Some((after, printed)), "{name}");
    }
}

/// The only block of a plan, for a machine with memory.
fn lowered(ops: Vec<Op>, ending: Ending) -> (Vec<Inst>, Ending) {
    let mut blocks = BTreeMap::new();
    blocks.insert(0, BlockPlan { params: 0, ops, ending });
    let mut function = lower(&FunctionPlan { signature: None, blocks, length: 1 });
    assert_eq!(function.length, 1);
    assert!(function.signature.is_none());
    let block = function.blocks.remove(&0).unwrap();
    assert_eq!(block.params, 0);
    (block.insts, block.ending)
}

fn result(op: usize) -> Reg {
    Reg::Result { op, k: 0 }
}

#[test]
fn numbers_follow_their_operations() {
    let (insts, ending) = lowered(
        vec![Op::Pop, Op::Discard, Op::Push(result(0)), Op::Peek(3)],
        Ending::Branch {
            cond: result(3),
            on_true: Goal::Return,
            on_false: Goal::Trap(1),
            args: vec![],
        },
    );
    assert_eq!(insts.len(), 14);
    assert!(matches!(insts[0], Inst::UsePointer));
    assert!(matches!(insts[1], Inst::AddImm(p, -8) if p == result(0)));
    assert!(matches!(insts[2], Inst::DefPointer(p) if p == result(1)));
    assert!(matches!(insts[3], Inst::Load(p) if p == result(1)));
    assert!(matches!(insts[5], Inst::AddImm(p, -8) if p == result(4)));
    assert!(matches!(insts[6], Inst::DefPointer(p) if p == result(5)));
    assert!(
        matches!(insts[8], Inst::Store { value, addr } if value == result(3) && addr == result(7))
    );
    assert!(matches!(insts[9], Inst::AddImm(p, 8) if p == result(7)));
    assert!(matches!(insts[12], Inst::AddImm(p, -24) if p == result(11)));
    assert!(matches!(ending, Ending::Branch { cond, .. } if cond == result(13)));
}

#[test]
fn ranges_are_moved_down() {
    let (insts, _) = lowered(
        vec![Op::Const(5), Op::Const(2), Op::DropRange { start: result(0), amount: result(1) }],
        Ending::TailCallStack("f".to_string()),
    );
    assert_eq!(insts.len(), 11);
    assert!(matches!(insts[3], Inst::MulImm(v, 8) if v == result(0)));
    assert!(matches!(insts[4], Inst::MulImm(v, 8) if v == result(1)));
    assert!(matches!(insts[5], Inst::Sub(a, b) if a == result(2) && b == result(3)));
    assert!(matches!(insts[6], Inst::Add(a, b) if a == result(5) && b == result(4)));
    assert!(matches!(insts[7], Inst::Sub(a, b) if a == result(3) && b == result(4)));
    assert!(matches!(
        insts[8],
        Inst::Memmove { dest, source, size }
            if dest == result(5) && source == result(6) && size == result(7)
    ));
    assert!(matches!(insts[10], Inst::DefPointer(p) if p == result(9)));
}

#[test]
fn cells_out_of_any_reach_are_not_wrapped_round_to() {
    let (insts, _) = lowered(
        vec![Op::Peek(usize::MAX)],
        Ending::Goto { goal: Goal::Return, args: vec![] },
    );
    assert!(matches!(insts[1], Inst::AddImm(_, i64::MIN)));
}
