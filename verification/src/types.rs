//! The words of the language: values, tokens, instructions and errors.
use vstd::prelude::*;

use crate::builtins;
#[allow(unused_imports)]
use crate::builtins::builtin_instr;

verus! {

/// A cell of the stack. Its width is what the builtin `width_native` reports.
pub type Value = i64;

/// The number of bits in a [`Value`].
pub const VALUE_BITS: i64 = 64;

/// A two-operand operation on values.
#[derive(Debug, Clone, Copy, PartialEq, Eq, Structural)]
pub enum ArithOp {
    Add,
    Sub,
    Mul,
    Div,
    Rem,
    Lt,
    Pow,
}

/// An operation on memory outside the stack.
#[derive(Debug, Clone, Copy, PartialEq, Eq, Structural)]
pub enum MemOp {
    Read8,
    ReadNative,
    Write8,
    WriteNative,
    WidthNative,
}

/// An instruction that decides which instruction comes next.
#[derive(Debug, Clone, Copy, PartialEq, Eq, Structural)]
pub enum ControlFlowInstr {
    If,
    Skip,
}

/// An instruction after which the next one in line always follows, if any does.
#[derive(Debug)]
pub enum BasicBlockInstr {
    // data
    Literal(Value),
    FunctionCall(String),
    // side effects
    Quit,
    Print,
    Syscall,
    // stack manipulation
    Drop,
    Swap,
    Rot,
    /// `drop_range` whose operands are on the stack.
    BadDropRange,
    /// `drop_range` whose operands were literals: of the top `start` cells, the lowest `amt` go.
    ResolvedDropRange { start: usize, amt: usize },
    /// `pick` whose operand is on the stack.
    BadPick,
    /// `pick` whose operand was a literal.
    ResolvedPick(usize),
    // math and memory
    Arith(ArithOp),
    Mem(MemOp),
    /// A point that no run may reach.
    Trap(u8),
}

/// An instruction of the language.
#[derive(Debug)]
pub enum Instr {
    BBInstr(BasicBlockInstr),
    CFInstr(ControlFlowInstr),
}

/// The body of a user-defined function.
pub type Code = Vec<Instr>;

/// Represents a parsed string token.
#[derive(Debug)]
pub enum Token {
    // data
    Literal(Value),
    Identifier(String),
    // side effects
    Quit,
    Print,
    // stack manipulation
    Drop,
    Swap,
    Rot,
    If,
    Pick,
    Skip,
    // function definition syntax
    Colon,
    Semicolon,
}

/// Why a line of code could not be carried out.
#[derive(Debug)]
pub enum ExecError {
    UnknownFunction(String),
    MissingArguments,
    InvalidSkip,
    InvalidPick,
    InvalidDropRange,
    BadFunctionDefinition,
    InvalidExponent,
    Quit,
}

impl Clone for BasicBlockInstr {
    fn clone(&self) -> (r: Self)
        ensures
            r == *self,
    {
        match self {
            BasicBlockInstr::Literal(n) => BasicBlockInstr::Literal(*n),
            BasicBlockInstr::FunctionCall(name) => BasicBlockInstr::FunctionCall(name.clone()),
            BasicBlockInstr::Quit => BasicBlockInstr::Quit,
            BasicBlockInstr::Print => BasicBlockInstr::Print,
            BasicBlockInstr::Syscall => BasicBlockInstr::Syscall,
            BasicBlockInstr::Drop => BasicBlockInstr::Drop,
            BasicBlockInstr::Swap => BasicBlockInstr::Swap,
            BasicBlockInstr::Rot => BasicBlockInstr::Rot,
            BasicBlockInstr::BadDropRange => BasicBlockInstr::BadDropRange,
            BasicBlockInstr::ResolvedDropRange { start, amt } => {
                BasicBlockInstr::ResolvedDropRange { start: *start, amt: *amt }
            },
            BasicBlockInstr::BadPick => BasicBlockInstr::BadPick,
            BasicBlockInstr::ResolvedPick(n) => BasicBlockInstr::ResolvedPick(*n),
            BasicBlockInstr::Arith(op) => BasicBlockInstr::Arith(*op),
            BasicBlockInstr::Mem(op) => BasicBlockInstr::Mem(*op),
            BasicBlockInstr::Trap(code) => BasicBlockInstr::Trap(*code),
        }
    }
}

impl Clone for Instr {
    fn clone(&self) -> (r: Self)
        ensures
            r == *self,
    {
        match self {
            Instr::BBInstr(i) => Instr::BBInstr(i.clone()),
            Instr::CFInstr(i) => Instr::CFInstr(*i),
        }
    }
}

impl Clone for Token {
    fn clone(&self) -> (r: Self)
        ensures
            r == *self,
    {
        match self {
            Token::Literal(n) => Token::Literal(*n),
            Token::Identifier(name) => Token::Identifier(name.clone()),
            Token::Quit => Token::Quit,
            Token::Print => Token::Print,
            Token::Drop => Token::Drop,
            Token::Swap => Token::Swap,
            Token::Rot => Token::Rot,
            Token::If => Token::If,
            Token::Pick => Token::Pick,
            Token::Skip => Token::Skip,
            Token::Colon => Token::Colon,
            Token::Semicolon => Token::Semicolon,
        }
    }
}

impl ExecError {
    /// The text that describes the error to a user.
    pub fn message(&self) -> (r: String)
        ensures
            r@ == error_text(*self),
    {
        match self {
            ExecError::UnknownFunction(name) => "Unknown function ".to_string().concat(name.as_str()),
            ExecError::MissingArguments => {
                "Missing arguments. Not enough elements on stack".to_string()
            },
            ExecError::InvalidSkip => "Invalid Skip".to_string(),
            ExecError::InvalidPick => "Invalid Pick".to_string(),
            ExecError::InvalidDropRange => "Invalid DropRange".to_string(),
            ExecError::BadFunctionDefinition => "Bad function definition".to_string(),
            ExecError::InvalidExponent => {
                "Invalid exponent, must have non-negative exponent".to_string()
            },
            ExecError::Quit => "Quit".to_string(),
        }
    }
}

/// The text that describes `e`.
pub open spec fn error_text(e: ExecError) -> Seq<char> {
    match e {
        ExecError::UnknownFunction(name) => "Unknown function "@ + name@,
        ExecError::MissingArguments => "Missing arguments. Not enough elements on stack"@,
        ExecError::InvalidSkip => "Invalid Skip"@,
        ExecError::InvalidPick => "Invalid Pick"@,
        ExecError::InvalidDropRange => "Invalid DropRange"@,
        ExecError::BadFunctionDefinition => "Bad function definition"@,
        ExecError::InvalidExponent => "Invalid exponent, must have non-negative exponent"@,
        ExecError::Quit => "Quit"@,
    }
}

impl Token {
    /// Whether the token is part of the syntax that defines functions.
    pub open spec fn is_definition_syntax(self) -> bool {
        self is Colon || self is Semicolon
    }

    /// The instruction that the token stands for. An identifier stands for a builtin if one has
    /// that name, else for a call of the user-defined function of that name.
    pub fn to_instruction(self) -> (r: Instr)
        requires
            !self.is_definition_syntax(),
        ensures
            r == token_instr(self),
    {
        match self {
            Token::Literal(n) => Instr::BBInstr(BasicBlockInstr::Literal(n)),
            Token::Identifier(name) => match builtins::lookup(name.as_str()) {
                Some(instr) => instr,
                None => Instr::BBInstr(BasicBlockInstr::FunctionCall(name)),
            },
            Token::Quit => Instr::BBInstr(BasicBlockInstr::Quit),
            Token::Print => Instr::BBInstr(BasicBlockInstr::Print),
            Token::Drop => Instr::BBInstr(BasicBlockInstr::Drop),
            Token::Swap => Instr::BBInstr(BasicBlockInstr::Swap),
            Token::Rot => Instr::BBInstr(BasicBlockInstr::Rot),
            Token::If => Instr::CFInstr(ControlFlowInstr::If),
            Token::Skip => Instr::CFInstr(ControlFlowInstr::Skip),
            _ => Instr::BBInstr(BasicBlockInstr::BadPick),
        }
    }
}

/// The instruction that a token stands for.
pub open spec fn token_instr(token: Token) -> Instr
    recommends
        !token.is_definition_syntax(),
{
    match token {
        Token::Literal(n) => Instr::BBInstr(BasicBlockInstr::Literal(n)),
        Token::Identifier(name) => match builtin_instr(name@) {
            Some(instr) => instr,
            None => Instr::BBInstr(BasicBlockInstr::FunctionCall(name)),
        },
        Token::Quit => Instr::BBInstr(BasicBlockInstr::Quit),
        Token::Print => Instr::BBInstr(BasicBlockInstr::Print),
        Token::Drop => Instr::BBInstr(BasicBlockInstr::Drop),
        Token::Swap => Instr::BBInstr(BasicBlockInstr::Swap),
        Token::Rot => Instr::BBInstr(BasicBlockInstr::Rot),
        Token::If => Instr::CFInstr(ControlFlowInstr::If),
        Token::Skip => Instr::CFInstr(ControlFlowInstr::Skip),
        Token::Pick | Token::Colon | Token::Semicolon => Instr::BBInstr(BasicBlockInstr::BadPick),
    }
}

} // verus!
