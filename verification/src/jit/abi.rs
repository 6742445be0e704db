//! How compiled functions are called, and what they call outside the program.
use vstd::prelude::*;

#[allow(unused_imports)]
use crate::jit::analysis::{returned, ResolvedSig};

verus! {

/// What a parameter or a result is.
#[derive(Debug, Clone, Copy, PartialEq, Eq, Structural)]
pub enum AbiParam {
    /// A value of the language.
    Value,
    /// A pointer to the free end of the stack.
    StackPointer,
}

/// A calling convention.
#[derive(Debug, Clone, Copy, PartialEq, Eq, Structural)]
pub enum CallConv {
    /// That of functions which can leave the rest to each other.
    Tail,
    /// The default one of the machine.
    MachineDefault,
}

/// What a function takes and gives back.
#[derive(Debug)]
pub struct Signature {
    pub params: Vec<AbiParam>,
    pub returns: Vec<AbiParam>,
    pub call_conv: CallConv,
}

/// So many values.
pub open spec fn plain_values(n: nat) -> Seq<AbiParam> {
    Seq::new(n, |i: int| AbiParam::Value)
}

/// So many values.
fn value_params(n: usize) -> (r: Vec<AbiParam>)
    ensures
        r@ == plain_values(n as nat),
{
    let mut r: Vec<AbiParam> = Vec::new();
    let mut i: usize = 0;
    while i < n
        invariant
            i <= n,
            r@ == plain_values(i as nat),
        decreases n - i,
    {
        r.push(AbiParam::Value);
        i = i + 1;
        assert(r@ =~= plain_values(i as nat));
    }
    r
}

impl ResolvedSig {
    /// A parameter for each argument, and a result for each of the values that are left.
    pub fn to_cranelift_signature(&self, call_conv: CallConv) -> (r: Signature)
        requires
            0 <= returned(*self) <= usize::MAX,
        ensures
            r.params@ == plain_values(self.reach as nat),
            r.returns@ == plain_values(returned(*self) as nat),
            r.call_conv == call_conv,
    {
        Signature { params: value_params(self.argc()), returns: value_params(self.retc()), call_conv }
    }
}

/// What a function takes and gives back that works on the stack.
pub fn generate_clac_function_signature(call_conv: CallConv) -> (r: Signature)
    ensures
        r.params@ == seq![AbiParam::StackPointer],
        r.returns@ == seq![AbiParam::StackPointer],
        r.call_conv == call_conv,
{
    let params = vec![AbiParam::StackPointer];
    let results = vec![AbiParam::StackPointer];
    assert(params@ =~= seq![AbiParam::StackPointer]);
    Signature { params, returns: results, call_conv }
}

/// A function outside the program.
#[derive(Debug)]
pub struct Import {
    pub name: String,
    pub signature: Signature,
}

/// The functions outside the program that compiled code calls.
#[derive(Debug)]
pub struct Imports {
    pub printfunc: Import,
    pub quitfunc: Import,
    pub powfunc: Import,
    pub syscallfunc: Import,
}

/// Whether a function has this name, and takes and gives back so many values.
pub open spec fn imports(import: Import, name: Seq<char>, argc: nat, retc: nat) -> bool {
    &&& import.name@ == name
    &&& import.signature.params@ == plain_values(argc)
    &&& import.signature.returns@ == plain_values(retc)
    &&& import.signature.call_conv is MachineDefault
}

/// A function that takes and gives back so many values.
fn import(name: &str, argc: usize, retc: usize) -> (r: Import)
    ensures
        imports(r, name@, argc as nat, retc as nat),
{
    Import {
        name: name.to_string(),
        signature: Signature {
            params: value_params(argc),
            returns: value_params(retc),
            call_conv: CallConv::MachineDefault,
        },
    }
}

/// The functions outside the program that compiled code calls, and how.
pub fn declare_imports() -> (r: Imports)
    ensures
        imports(r.printfunc, "__rprint__"@, 1, 0),
        imports(r.syscallfunc, "__syscall__"@, 7, 1),
        imports(r.quitfunc, "__rquit__"@, 0, 0),
        imports(r.powfunc, "__rpow__"@, 2, 1),
{
    let printfunc = import("__rprint__", 1, 0);
    let syscallfunc = import("__syscall__", 7, 1);
    let quitfunc = import("__rquit__", 0, 0);
    let powfunc = import("__rpow__", 2, 1);
    Imports { printfunc, quitfunc, powfunc, syscallfunc }
}

} // verus!
