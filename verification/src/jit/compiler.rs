//! From programs to plans.

use vstd::prelude::*;

use crate::jit::abi::{declare_imports, generate_clac_function_signature};
#[allow(unused_imports)]
use crate::jit::abi::{imports, plain_values, AbiParam};
use crate::jit::abi::{CallConv, Imports, Signature};
use crate::jit::analysis::{analyze, AnalysisResult, ResolvedSig};
#[allow(unused_imports)]
use crate::jit::analysis::{program_graphs, returned, signatures, solved};
#[allow(unused_imports)]
use crate::jit::cfg::{goes_forward, run_graph, run_next, run_path, FunctionModel, TerminatorModel};
use crate::jit::cfg::{Function, Next};
#[allow(unused_imports)]
use crate::jit::cfg_laws::law_graph_goes_forward;
use crate::jit::compile::{compile_with_signature, compile_without_signature, wrap, JITError};
#[allow(unused_imports)]
use crate::jit::compile::{
    all_end_as_said, compilable, conflicting, ends_as_said, jit_error_text, leaves_rest, plan_fits, sig_deltas, sigs_match, whole,
};
#[allow(unused_imports)]
use crate::jit::correct::{
    compiled_program, law_compiled_program_runs_like_program, law_plan_runs_like_graph, plans_fit,
    refines, under,
};
#[allow(unused_imports)]
use crate::jit::delta::Delta;
#[allow(unused_imports)]
use crate::jit::emit::stands_for;
use crate::jit::graph::call_components;
use crate::jit::lower::lower;
#[allow(unused_imports)]
use crate::jit::memory_laws::{
    ends_alike, law_bytes_hold_stack, law_function_runs_in_memory, law_plan_is_ok,
    law_program_runs_in_memory, plan_ok, spell_cells,
};
use crate::jit::native::NativeFunction;
#[allow(unused_imports)]
use crate::jit::native::{
    block_lowered, function_lowered, hold_stack, native_program, run_native, NativeEnd, Region, STRIDE,
};
#[allow(unused_imports)]
use crate::jit::plan::Ending;
use crate::jit::plan::FunctionPlan;
#[allow(unused_imports)]
use crate::jit::plan::{run_plan, Machine};
#[allow(unused_imports)]
use crate::jit::reach::{Known, Reach};
#[allow(unused_imports)]
use crate::jit::scc::graphs;
#[allow(unused_imports)]
use crate::jit::sound::{
    call_function, law_guards_only_refuse, law_signatures_return, lemma_solution_is_exact, program,
};
use crate::names::NameMap;
#[allow(unused_imports)]
use crate::semantics::{run_from, run_instr, Effect, Outcome, Surroundings, World};
#[allow(unused_imports)]
use crate::stack::cells;
#[allow(unused_imports)]
use crate::types::{BasicBlockInstr, Code, Value};

verus! {

/// Why a program could not be compiled.
#[derive(Debug)]
pub enum CompilerError {
    /// The module that the program was to go into refused it.
    ModuleError(String),
    JITError(JITError),
}

/// The text that describes `e`.
pub open spec fn compiler_error_text(e: CompilerError) -> Seq<char> {
    match e {
        CompilerError::ModuleError(why) => "Module (cranelift) Error: "@ + why@,
        CompilerError::JITError(why) => "JIT Compilation Error: "@ + jit_error_text(why),
    }
}

impl CompilerError {
    /// The text that describes the error to a user.
    pub fn message(&self) -> (r: String)
        ensures
            r@ == compiler_error_text(*self),
    {
        match self {
            CompilerError::ModuleError(why) => "Module (cranelift) Error: ".to_string().concat(
                why.as_str(),
            ),
            CompilerError::JITError(why) => "JIT Compilation Error: ".to_string().concat(
                why.message().as_str(),
            ),
        }
    }
}

/// What the compiled form of a function can refer to.
pub struct ImportRefs<'sigs> {
    /// The signatures of the functions of the program that have one.
    pub clac: &'sigs NameMap<ResolvedSig>,
    /// The functions outside the program.
    pub builtins: &'sigs Imports,
}

/// The compiled form of a function.
#[derive(Debug)]
pub struct CompiledFunction {
    /// How the function is called by others of the program.
    pub declared: Signature,
    pub plan: FunctionPlan,
    /// The form in which the function is called from outside the program: it works on the stack.
    pub wrapper: FunctionPlan,
    /// The plan, for a machine with memory.
    pub code: NativeFunction,
    /// The form for calls from outside, for a machine with memory.
    pub wrapper_code: NativeFunction,
}

/// Whether a declaration is that of a function with this signature, or without any.
pub open spec fn declares(declared: Signature, sig: Option<ResolvedSig>) -> bool {
    &&& declared.call_conv is Tail
    &&& match sig {
        Some(sig) => {
            &&& declared.params@ == plain_values(sig.reach as nat)
            &&& declared.returns@ == plain_values(returned(sig) as nat)
        },
        None => {
            &&& declared.params@ == seq![AbiParam::StackPointer]
            &&& declared.returns@ == seq![AbiParam::StackPointer]
        },
    }
}

/// The plans of functions.
pub open spec fn plans_of(functions: Map<Seq<char>, CompiledFunction>) -> Map<
    Seq<char>,
    FunctionPlan,
> {
    functions.map_values(|function: CompiledFunction| function.plan)
}

/// The forms of functions for a machine with memory.
pub open spec fn codes_of(functions: Map<Seq<char>, CompiledFunction>) -> Map<
    Seq<char>,
    NativeFunction,
> {
    functions.map_values(|function: CompiledFunction| function.code)
}

/// Whether a function has, for a machine with memory, the forms that its plans say.
pub open spec fn is_lowered(function: CompiledFunction) -> bool {
    &&& function_lowered(function.plan, function.code)
    &&& function_lowered(function.wrapper, function.wrapper_code)
}

/// Whether a function of a program with a signature reaches a block on two ways on which the stack
/// has grown differently.
pub open spec fn any_conflicting(
    funcs: Map<Seq<char>, Code>,
    sigs: Map<Seq<char>, ResolvedSig>,
) -> bool {
    exists|name: Seq<char>| #[trigger]
        sigs.contains_key(name) && conflicting(program_graphs(funcs)[name], sig_deltas(sigs))
}

/// Whether a program with these signatures is compiled as it should be.
pub open spec fn compiled_right(
    r: Result<NameMap<CompiledFunction>, CompilerError>,
    names: Seq<Seq<char>>,
    funcs: Map<Seq<char>, Code>,
    sigs: Map<Seq<char>, ResolvedSig>,
) -> bool {
    match r {
        Ok(functions) => {
            &&& !any_conflicting(funcs, sigs)
            &&& functions.wf()
            &&& functions.names() == names
            &&& plans_fit(plans_of(functions@), funcs, sigs)
            &&& forall|name: Seq<char>| #[trigger]
                functions@.contains_key(name) ==> declares(
                    functions@[name].declared,
                    under(sigs, name),
                ) && wraps(functions@[name].wrapper, name, sigs) && is_lowered(functions@[name])
                    && all_end_as_said(
                    functions@[name].plan.blocks@,
                    program_graphs(funcs)[name],
                    under(sigs, name),
                    sigs,
                )
        },
        Err(e) => {
            &&& any_conflicting(funcs, sigs)
            &&& e == CompilerError::JITError(JITError::IndeterminateControlFlow)
        },
    }
}

/// A function that does nothing but call another one.
pub open spec fn calling(f: FunctionModel, name: Seq<char>) -> bool {
    &&& f.length == 1
    &&& f.blocks.contains_key(0)
    &&& f.blocks[0].code.len() == 1
    &&& f.blocks[0].code[0] matches BasicBlockInstr::FunctionCall(callee)
    &&& callee@ == name
    &&& f.blocks[0].terminator == TerminatorModel::Jump(Next::Terminate)
}

/// Whether a plan works on the stack, calls a function, and goes back to its caller.
pub open spec fn wraps(
    plan: FunctionPlan,
    name: Seq<char>,
    sigs: Map<Seq<char>, ResolvedSig>,
) -> bool {
    &&& exists|f: FunctionModel| #[trigger] calling(f, name) && plan_fits(plan, f, None, sigs)
    &&& forall|p: usize| #[trigger]
        plan.blocks@.contains_key(p) ==> plan.blocks@[p].ending is Goto
}

/// The wrapper of a function only uses what is there.
pub proof fn law_wrapper_is_ok(
    plan: FunctionPlan,
    name: Seq<char>,
    sigs: Map<Seq<char>, ResolvedSig>,
)
    requires
        wraps(plan, name, sigs),
    ensures
        plan_ok(plan),
        plan.signature is None,
{
    let f = choose|f: FunctionModel| #[trigger] calling(f, name) && plan_fits(plan, f, None, sigs);
    law_plan_is_ok(plan, f, None, sigs);
}

/// What the wrapper of a function does to a stack is what the function does.
pub proof fn law_wrapper_calls(
    plan: FunctionPlan,
    name: Seq<char>,
    sigs: Map<Seq<char>, ResolvedSig>,
    w: World,
    env: Surroundings,
    machine: Machine,
)
    requires
        wraps(plan, name, sigs),
        stands_for(env, machine, sigs),
    ensures
        refines((env.call)(name, w), run_plan(plan, Seq::empty(), w, machine), None),
{
    let f = choose|f: FunctionModel| #[trigger] calling(f, name) && plan_fits(plan, f, None, sigs);
    law_plan_runs_like_graph(plan, f, None, sigs, Seq::empty(), w, env, machine);
    assert(whole(Seq::empty(), w).stack =~= w.stack);
    let code = f.blocks[0].code;
    reveal_with_fuel(run_from, 3);
    assert(run_from(code, 0, w, env) == run_instr(code[0], w, env));
    assert(run_instr(code[0], w, env) == (env.call)(name, w));
    reveal_with_fuel(run_path, 2);
    reveal_with_fuel(run_next, 2);
    assert(run_graph(f, w, env) == (env.call)(name, w));
}

/// A compiled function, called from outside the program, does what a call of the function does,
/// unless that goes astray or finds too few values for a signature on its way.
pub proof fn law_compiled_call_is_call(
    names: Seq<Seq<char>>,
    funcs: Map<Seq<char>, Code>,
    deltas: Map<Seq<char>, Delta>,
    reaches: Map<Seq<char>, Reach>,
    functions: NameMap<CompiledFunction>,
    reply: spec_fn(Seq<Effect>) -> Value,
    depth: nat,
    name: Seq<char>,
    w: World,
)
    requires
        solved(names, funcs, deltas, reaches),
        names.len() <= usize::MAX,
        forall|x: Seq<char>| #[trigger] funcs.contains_key(x) ==> names.contains(x),
        compiled_right(Ok(functions), names, funcs, signatures(deltas, reaches)),
        functions@.contains_key(name),
    ensures
        ({
            let strict = call_function(funcs, signatures(deltas, reaches), reply, depth, name, w);
            let plain = call_function(funcs, Map::empty(), reply, depth, name, w);
            let machine = compiled_program(plans_of(functions@), reply, depth);
            let compiled = run_plan(functions@[name].wrapper, Seq::empty(), w, machine);
            strict is Astray || (compiled == Some(plain) && plain == strict)
        }),
{
    let sigs = signatures(deltas, reaches);
    let plans = plans_of(functions@);
    law_compiled_program_runs_like_program(names, funcs, deltas, reaches, plans, reply, depth);
    let env = program(funcs, sigs, reply, depth);
    law_wrapper_calls(
        functions@[name].wrapper,
        name,
        sigs,
        w,
        env,
        compiled_program(plans, reply, depth),
    );
    assert((env.call)(name, w) == call_function(funcs, sigs, reply, depth, name, w));
    law_guards_only_refuse(funcs, sigs, reply, depth, name, w);
}

/// A compiled function, called from outside the program on a stack that is a run of cells in
/// memory, does to that stack and to the world what a call of the function does, unless that goes
/// astray, finds too few values for a signature on its way, or needs more cells than there are.
pub proof fn law_compiled_call_in_memory(
    names: Seq<Seq<char>>,
    funcs: Map<Seq<char>, Code>,
    deltas: Map<Seq<char>, Delta>,
    reaches: Map<Seq<char>, Reach>,
    functions: NameMap<CompiledFunction>,
    reply: spec_fn(Seq<Effect>) -> Value,
    region: Region,
    depth: nat,
    name: Seq<char>,
    w: World,
    pointer: Value,
    mem: Map<int, Value>,
)
    requires
        solved(names, funcs, deltas, reaches),
        names.len() <= usize::MAX,
        forall|x: Seq<char>| #[trigger] funcs.contains_key(x) ==> names.contains(x),
        compiled_right(Ok(functions), names, funcs, signatures(deltas, reaches)),
        functions@.contains_key(name),
        region.wf(),
        hold_stack(region, pointer, mem, w.stack),
    ensures
        ({
            let strict = call_function(funcs, signatures(deltas, reaches), reply, depth, name, w);
            let plain = call_function(funcs, Map::empty(), reply, depth, name, w);
            let native = native_program(codes_of(functions@), reply, region, depth);
            let end = run_native(
                functions@[name].wrapper_code,
                Seq::empty(),
                pointer,
                mem,
                w.log,
                native,
                region,
            );
            strict is Astray || (plain == strict && ends_alike(Some(plain), end, region, true))
        }),
{
    let sigs = signatures(deltas, reaches);
    let plans = plans_of(functions@);
    let codes = codes_of(functions@);
    law_compiled_call_is_call(names, funcs, deltas, reaches, functions, reply, depth, name, w);
    assert(codes.dom() =~= plans.dom());
    assert forall|x: Seq<char>| #[trigger] plans.contains_key(x) implies plan_ok(plans[x])
        && function_lowered(plans[x], codes[x]) by {
        assert(functions@.contains_key(x));
        law_plan_is_ok(plans[x], program_graphs(funcs)[x], under(sigs, x), sigs);
    }
    law_program_runs_in_memory(plans, codes, reply, region, depth);
    let function = functions@[name];
    law_wrapper_is_ok(function.wrapper, name, sigs);
    law_function_runs_in_memory(
        function.wrapper,
        function.wrapper_code,
        Seq::empty(),
        w,
        pointer,
        mem,
        compiled_program(plans, reply, depth),
        native_program(codes, reply, region, depth),
        region,
    );
}

/// A compiled function, called from outside the program with a pointer behind the `n` lowest cells of
/// some bytes, leaves other bytes, and a pointer behind those of their cells that hold what a call of
/// the function leaves of the stack.
pub proof fn law_compiled_call_on_bytes(
    names: Seq<Seq<char>>,
    funcs: Map<Seq<char>, Code>,
    deltas: Map<Seq<char>, Delta>,
    reaches: Map<Seq<char>, Reach>,
    functions: NameMap<CompiledFunction>,
    reply: spec_fn(Seq<Effect>) -> Value,
    region: Region,
    depth: nat,
    name: Seq<char>,
    before: Seq<u8>,
    mem: Map<int, Value>,
    n: nat,
    log: Seq<Effect>,
    after: Seq<u8>,
)
    requires
        solved(names, funcs, deltas, reaches),
        names.len() <= usize::MAX,
        forall|x: Seq<char>| #[trigger] funcs.contains_key(x) ==> names.contains(x),
        compiled_right(Ok(functions), names, funcs, signatures(deltas, reaches)),
        functions@.contains_key(name),
        region.wf(),
        spell_cells(before, mem, region),
        n <= region.room,
    ensures
        ({
            let w = World { stack: cells(before, n), log };
            let strict = call_function(funcs, signatures(deltas, reaches), reply, depth, name, w);
            let plain = call_function(funcs, Map::empty(), reply, depth, name, w);
            let end = run_native(
                functions@[name].wrapper_code,
                Seq::empty(),
                region.cell(n as int) as i64,
                mem,
                log,
                native_program(codes_of(functions@), reply, region, depth),
                region,
            );
            ||| strict is Astray
            ||| end is Full
            ||| match plain {
                Outcome::Done(w2) => {
                    &&& end is Done
                    &&& end->Done_log == w2.log
                    &&& spell_cells(after, end->Done_mem, region) ==> w2.stack == cells(
                        after,
                        ((end->Done_pointer - region.base) / (STRIDE as int)) as nat,
                    )
                },
                o => end == NativeEnd::Over(o),
            }
        }),
{
    let s = cells(before, n);
    let w = World { stack: s, log };
    let pointer = region.cell(n as int) as i64;
    law_bytes_hold_stack(before, mem, region, pointer, s);
    law_compiled_call_in_memory(
        names,
        funcs,
        deltas,
        reaches,
        functions,
        reply,
        region,
        depth,
        name,
        w,
        pointer,
        mem,
    );
    let end = run_native(
        functions@[name].wrapper_code,
        Seq::empty(),
        pointer,
        mem,
        log,
        native_program(codes_of(functions@), reply, region, depth),
        region,
    );
    if let Outcome::Done(w2) = call_function(funcs, Map::empty(), reply, depth, name, w) {
        if end is Done && spell_cells(after, end->Done_mem, region) {
            law_bytes_hold_stack(after, end->Done_mem, region, end->Done_pointer, w2.stack);
        }
    }
}

/// Whether a block of a plan leaves the rest to another function.
pub open spec fn is_tail_call(ending: Ending) -> bool {
    ending is TailCall || ending is TailCallStack
}

/// The function to which the rest is left.
pub open spec fn tail_callee(ending: Ending) -> Seq<char> {
    match ending {
        Ending::TailCall { callee, .. } => callee@,
        Ending::TailCallStack(callee) => callee@,
        _ => Seq::empty(),
    }
}

/// In a compiled program, a call at the end of a function leaves the rest to the function that is
/// called wherever its results are the caller's, and nowhere else: in the plan, and in the
/// instructions for a machine with memory. All functions are called in the way that allows this.
pub proof fn law_last_calls_leave_the_rest(
    names: Seq<Seq<char>>,
    funcs: Map<Seq<char>, Code>,
    sigs: Map<Seq<char>, ResolvedSig>,
    functions: NameMap<CompiledFunction>,
    name: Seq<char>,
    p: usize,
)
    requires
        compiled_right(Ok(functions), names, funcs, sigs),
        functions@.contains_key(name),
        functions@[name].plan.blocks@.contains_key(p),
        p < functions@[name].plan.length,
    ensures
        ({
            let function = functions@[name];
            let block = program_graphs(funcs)[name].blocks[p];
            let planned = function.plan.blocks@[p];
            let native = function.code.blocks@[p];
            let rests = leaves_rest(block, planned.params as nat, under(sigs, name), sigs);
            &&& function.declared.call_conv is Tail
            &&& is_tail_call(planned.ending) <==> rests
            &&& is_tail_call(native.ending) <==> rests
            &&& rests ==> {
                &&& tail_callee(planned.ending) == block.code.last()->FunctionCall_0@
                &&& tail_callee(native.ending) == block.code.last()->FunctionCall_0@
            }
        }),
{
    let function = functions@[name];
    let f = program_graphs(funcs)[name];
    let planned = function.plan.blocks@[p];
    assert(plans_of(functions@).contains_key(name));
    assert(function.code.blocks@.contains_key(p));
    assert(block_lowered(planned, function.code.blocks@[p]));
    assert(ends_as_said(
        planned.ending,
        f.blocks[p],
        planned.params as nat,
        under(sigs, name),
        sigs,
    ));
}

/// Compiles functions.
pub struct Compiler {
    pub imports: Imports,
}

impl Compiler {
    /// A compiler.
    pub fn new() -> (r: Self)
        ensures
            imports(r.imports.printfunc, "__rprint__"@, 1, 0),
            imports(r.imports.syscallfunc, "__syscall__"@, 7, 1),
            imports(r.imports.quitfunc, "__rquit__"@, 0, 0),
            imports(r.imports.powfunc, "__rpow__"@, 2, 1),
    {
        Compiler { imports: declare_imports() }
    }

    /// Compiles a function, given its signature if it has one, and those of the functions that it
    /// calls. It fails if a function with a signature reaches a block on two ways on which the
    /// stack has grown differently.
    pub fn compile_function(
        function: &Function,
        signature: Option<ResolvedSig>,
        import_refs: &ImportRefs,
    ) -> (r: Result<FunctionPlan, CompilerError>)
        requires
            goes_forward(function@),
            import_refs.clac.wf(),
            exists|known: Known| #[trigger]
                compilable(function@, signature, import_refs.clac@, known),
        ensures
            r matches Ok(plan) ==> plan_fits(plan, function@, signature, import_refs.clac@)
                && all_end_as_said(plan.blocks@, function@, signature, import_refs.clac@),
            r is Err <==> signature is Some && conflicting(
                function@,
                sig_deltas(import_refs.clac@),
            ),
            r matches Err(e) ==> e == CompilerError::JITError(JITError::IndeterminateControlFlow),
    {
        let sigs = import_refs.clac;
        let ghost known = choose|known: Known| #[trigger]
            compilable(function@, signature, sigs@, known);
        match signature {
            Some(sig) => match compile_with_signature(function, sig, sigs, Ghost(known)) {
                Ok(plan) => Ok(plan),
                Err(e) => Err(CompilerError::JITError(e)),
            },
            None => Ok(compile_without_signature(function, sigs, Ghost(known))),
        }
    }

    /// The form in which a function is called from outside the program.
    pub fn define_wrapper(name: &String, import_refs: &ImportRefs) -> (r: FunctionPlan)
        requires
            import_refs.clac.wf(),
            exists|known: Known| #[trigger] sigs_match(import_refs.clac@, known),
        ensures
            wraps(r, name@, import_refs.clac@),
    {
        let ghost sigs = import_refs.clac@;
        let ghost known = choose|known: Known| #[trigger] sigs_match(sigs, known);
        let (plan, f) = wrap(name, import_refs.clac, Ghost(known));
        assert(calling(f@, name@));
        plan
    }

    /// How a function is called by others of the program.
    fn declare(sig: Option<ResolvedSig>) -> (r: Signature)
        requires
            sig matches Some(sig) ==> 0 <= returned(sig) <= usize::MAX,
        ensures
            declares(r, sig),
    {
        match sig {
            Some(sig) => sig.to_cranelift_signature(CallConv::Tail),
            None => generate_clac_function_signature(CallConv::Tail),
        }
    }

    /// Compiles one of the functions of a program.
    fn compile_one(
        name: &String,
        cfg: &Function,
        import_refs: &ImportRefs,
        funcs: Ghost<Map<Seq<char>, Code>>,
        known: Ghost<Known>,
    ) -> (r: Result<CompiledFunction, CompilerError>)
        requires
            import_refs.clac.wf(),
            cfg@ == program_graphs(funcs@)[name@],
            can_compile(name@, funcs@, import_refs.clac@, known@),
        ensures
            r matches Ok(function) ==> function_right(
                function,
                name@,
                funcs@,
                import_refs.clac@,
            ),
            r matches Err(e) ==> import_refs.clac@.contains_key(name@) && conflicting(
                program_graphs(funcs@)[name@],
                sig_deltas(import_refs.clac@),
            ) && e == CompilerError::JITError(JITError::IndeterminateControlFlow),
    {
        proof {
            reveal(can_compile);
            reveal(function_right);
        }
        let signature = match import_refs.clac.get(name.as_str()) {
            Some(sig) => Some(*sig),
            None => None,
        };
        assert(signature == under(import_refs.clac@, name@));
        match Compiler::compile_function(cfg, signature, import_refs) {
            Ok(plan) => {
                let declared = Compiler::declare(signature);
                let wrapper = Compiler::define_wrapper(name, import_refs);
                proof {
                    let sigs = import_refs.clac@;
                    law_plan_is_ok(plan, cfg@, signature, sigs);
                    law_wrapper_is_ok(wrapper, name@, sigs);
                }
                let code = lower(&plan);
                let wrapper_code = lower(&wrapper);
                Ok(CompiledFunction { declared, plan, wrapper, code, wrapper_code })
            },
            Err(e) => Err(e),
        }
    }

    /// Compiles all the functions of a program.
    fn compile_all(
        code: &NameMap<Function>,
        import_refs: &ImportRefs,
        funcs: Ghost<Map<Seq<char>, Code>>,
        known: Ghost<Known>,
    ) -> (r: Result<NameMap<CompiledFunction>, CompilerError>)
        requires
            code.wf(),
            graphs(code@) == program_graphs(funcs@),
            code@.dom() == funcs@.dom(),
            import_refs.clac.wf(),
            import_refs.clac@.dom().subset_of(funcs@.dom()),
            forall|name: Seq<char>| #[trigger]
                code@.contains_key(name) ==> can_compile(
                    name,
                    funcs@,
                    import_refs.clac@,
                    known@,
                ),
        ensures
            compiled_right(r, code.names(), funcs@, import_refs.clac@),
    {
        let ghost names = code.names();
        let ghost sigs = import_refs.clac@;
        let mut functions: NameMap<CompiledFunction> = NameMap::new();
        let mut i: usize = 0;
        let n = code.len();
        proof {
            code.lemma_names();
            assert(functions.names() =~= names.take(0));
        }
        while i < n
            invariant
                code.wf(),
                names == code.names(),
                names.no_duplicates(),
                n == names.len(),
                i <= n,
                graphs(code@) == program_graphs(funcs@),
                import_refs.clac.wf(),
                sigs == import_refs.clac@,
                forall|name: Seq<char>| #[trigger]
                    code@.contains_key(name) ==> can_compile(name, funcs@, sigs, known@),
                functions.wf(),
                functions.names() == names.take(i as int),
                forall|name: Seq<char>| #[trigger]
                    functions@.contains_key(name) <==> names.take(i as int).contains(name),
                forall|name: Seq<char>| #[trigger]
                    functions@.contains_key(name) ==> function_right(
                        functions@[name],
                        name,
                        funcs@,
                        sigs,
                    ),
            decreases n - i,
        {
            let name = code.name_at(i);
            let cfg = code.value_at(i);
            proof {
                assert(graphs(code@).contains_key(name@));
                assert(cfg@ == graphs(code@)[name@]);
                lemma_next_name(names, i as int);
            }
            match Compiler::compile_one(name, cfg, import_refs, funcs, known) {
                Ok(function) => {
                    functions.insert(name.clone(), function);
                    i = i + 1;
                },
                Err(e) => {
                    return Err(e);
                },
            }
        }
        proof {
            assert(names.take(i as int) =~= names);
            lemma_all_right(functions, code@, names, funcs@, sigs);
        }
        Ok(functions)
    }

    /// Compiles a program.
    pub fn compile(&self, funcs: &NameMap<Code>) -> (r: Result<
        NameMap<CompiledFunction>,
        CompilerError,
    >)
        requires
            funcs.wf(),
        ensures
            exists|deltas: Map<Seq<char>, Delta>, reaches: Map<Seq<char>, Reach>| #[trigger]
                solved(funcs.names(), funcs@, deltas, reaches) && compiled_right(
                    r,
                    funcs.names(),
                    funcs@,
                    signatures(deltas, reaches),
                ),
    {
        let sccs_graph = call_components(funcs);
        let AnalysisResult { code, resolved_sigs } = analyze(&sccs_graph, funcs);
        let ghost names = funcs.names();
        let ghost sigs = resolved_sigs@;
        let ghost (deltas, reaches) = choose|
            deltas: Map<Seq<char>, Delta>,
            reaches: Map<Seq<char>, Reach>,
        | #[trigger]
            solved(names, funcs@, deltas, reaches) && sigs == signatures(deltas, reaches);
        let ghost known = Known { deltas, reaches };
        proof {
            funcs.lemma_names();
            assert(graphs(code@).dom() =~= code@.dom());
            assert(program_graphs(funcs@).dom() =~= funcs@.dom());
            assert forall|name: Seq<char>| #[trigger] code@.contains_key(name) implies can_compile(
                name,
                funcs@,
                sigs,
                known,
            ) by {
                assert(funcs@[name]@.len() == funcs@[name].len());
                law_graph_goes_forward(funcs@[name]@, funcs@.dom());
                law_every_function_compiles(names, funcs@, deltas, reaches, name);
                assert(funcs@.dom().contains(name));
                reveal(can_compile);
            }
            assert forall|name: Seq<char>| sigs.dom().contains(name) implies funcs@.dom().contains(
                name,
            ) by {
                assert(deltas.dom().contains(name));
            }
        }
        let import_refs = ImportRefs { clac: &resolved_sigs, builtins: &self.imports };
        Compiler::compile_all(&code, &import_refs, Ghost(funcs@), Ghost(known))
    }
}

/// Whether a function can be compiled.
#[verifier::opaque]
spec fn can_compile(
    name: Seq<char>,
    funcs: Map<Seq<char>, Code>,
    sigs: Map<Seq<char>, ResolvedSig>,
    known: Known,
) -> bool {
    let f = program_graphs(funcs)[name];
    goes_forward(f) && compilable(f, under(sigs, name), sigs, known)
}

/// If each function is compiled as it should be, the program is.
proof fn lemma_all_right(
    functions: NameMap<CompiledFunction>,
    code: Map<Seq<char>, Function>,
    names: Seq<Seq<char>>,
    funcs: Map<Seq<char>, Code>,
    sigs: Map<Seq<char>, ResolvedSig>,
)
    requires
        functions.wf(),
        functions.names() == names,
        code.dom() == funcs.dom(),
        forall|name: Seq<char>| #[trigger] code.contains_key(name) <==> names.contains(name),
        forall|name: Seq<char>| #[trigger]
            functions@.contains_key(name) <==> names.contains(name),
        forall|name: Seq<char>| #[trigger]
            functions@.contains_key(name) ==> function_right(functions@[name], name, funcs, sigs),
        sigs.dom().subset_of(funcs.dom()),
    ensures
        compiled_right(Ok(functions), names, funcs, sigs),
{
    reveal(function_right);
    let plans = plans_of(functions@);
    assert forall|name: Seq<char>| plans.dom().contains(name) <==> #[trigger] funcs.dom().contains(
        name,
    ) by {
        assert(functions@.contains_key(name) <==> names.contains(name));
        assert(code.contains_key(name) <==> names.contains(name));
    }
    assert(plans.dom() =~= funcs.dom());
    assert forall|name: Seq<char>| #[trigger] plans.contains_key(name) implies plan_fits(
        plans[name],
        program_graphs(funcs)[name],
        under(sigs, name),
        sigs,
    ) by {
        assert(functions@.contains_key(name));
    }
    assert forall|name: Seq<char>| #[trigger] sigs.contains_key(name) implies !conflicting(
        program_graphs(funcs)[name],
        sig_deltas(sigs),
    ) by {
        assert(sigs.dom().contains(name));
        assert(funcs.dom().contains(name));
        assert(code.contains_key(name));
        assert(functions@.contains_key(name));
    }
}

/// Whether a function is compiled as it should be.
#[verifier::opaque]
spec fn function_right(
    function: CompiledFunction,
    name: Seq<char>,
    funcs: Map<Seq<char>, Code>,
    sigs: Map<Seq<char>, ResolvedSig>,
) -> bool {
    &&& plan_fits(function.plan, program_graphs(funcs)[name], under(sigs, name), sigs)
    &&& declares(function.declared, under(sigs, name))
    &&& wraps(function.wrapper, name, sigs)
    &&& is_lowered(function)
    &&& all_end_as_said(
        function.plan.blocks@,
        program_graphs(funcs)[name],
        under(sigs, name),
        sigs,
    )
    &&& sigs.contains_key(name) ==> !conflicting(program_graphs(funcs)[name], sig_deltas(sigs))
}

/// One name more.
proof fn lemma_next_name(names: Seq<Seq<char>>, i: int)
    requires
        names.no_duplicates(),
        0 <= i < names.len(),
    ensures
        !names.take(i).contains(names[i]),
        names.take(i + 1) == names.take(i).push(names[i]),
        forall|name: Seq<char>| #[trigger]
            names.take(i + 1).contains(name) <==> names.take(i).contains(name) || name == names[i],
{
    let some = names.take(i);
    let more = names.take(i + 1);
    assert(more =~= some.push(names[i]));
    assert forall|name: Seq<char>| #[trigger] more.contains(name) <==> some.contains(name) || name
        == names[i] by {
        if some.contains(name) {
            let k = some.index_of(name);
            assert(more[k] == name);
        }
        if name == names[i] {
            assert(more[i] == name);
        }
        if more.contains(name) {
            let k = more.index_of(name);
            if k < i {
                assert(some[k] == name);
            }
        }
    }
}

/// The signatures of a program match what is known of it.
pub proof fn law_signatures_match(
    names: Seq<Seq<char>>,
    funcs: Map<Seq<char>, Code>,
    deltas: Map<Seq<char>, Delta>,
    reaches: Map<Seq<char>, Reach>,
)
    requires
        solved(names, funcs, deltas, reaches),
        names.len() <= usize::MAX,
        forall|x: Seq<char>| #[trigger] funcs.contains_key(x) ==> names.contains(x),
    ensures
        sigs_match(signatures(deltas, reaches), (Known { deltas, reaches })),
{
    let sigs = signatures(deltas, reaches);
    assert forall|name: Seq<char>| #[trigger] sigs.contains_key(name) implies 0 <= returned(
        sigs[name],
    ) <= usize::MAX by {
        law_signatures_return(names, funcs, deltas, reaches, name);
    }
    assert forall|name: Seq<char>| #[trigger] deltas.contains_key(name) implies reaches.contains_key(
        name,
    ) by {
        assert(deltas.dom().contains(name));
        assert(reaches.dom().contains(name));
    }
}

/// Each function of a program, with its signature if it has one, can be given to the compiler.
pub proof fn law_every_function_compiles(
    names: Seq<Seq<char>>,
    funcs: Map<Seq<char>, Code>,
    deltas: Map<Seq<char>, Delta>,
    reaches: Map<Seq<char>, Reach>,
    name: Seq<char>,
)
    requires
        solved(names, funcs, deltas, reaches),
        names.len() <= usize::MAX,
        forall|x: Seq<char>| #[trigger] funcs.contains_key(x) ==> names.contains(x),
    ensures
        compilable(
            program_graphs(funcs)[name],
            under(signatures(deltas, reaches), name),
            signatures(deltas, reaches),
            (Known { deltas, reaches }),
        ),
{
    let sigs = signatures(deltas, reaches);
    law_signatures_match(names, funcs, deltas, reaches);
    if sigs.contains_key(name) {
        lemma_solution_is_exact(names, funcs, deltas, reaches, name);
    }
}

} // verus!
