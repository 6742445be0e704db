# Clac++

Clac++ is a simple stack-based postfix (reverse polish notation) calculator and programming
language. It has functions, control flow and unrestricted recursion, and a program can make system
calls and read and write memory.

```console
$ cat print2.clac
: dup 1 pick ;
: print2 dup print dup print ;

25 10 * 5 / print2

quit
$ clac++ run print2.clac
50
50
```

A value has 64 bits; the builtin `width_native` pushes that number.

## Layout

`src/` is the library, and all of it is verified with Verus.

- `types`, `builtins`: the words of the language, and its arithmetic.
- `lexer`: from text to tokens.
- `semantics`: what instructions, bodies and programs mean.
- `stack`, `names`: a stack in mapped memory, and maps that keep the order of their names.
- `machine`, `interp`, `state`, `line_laws`: carrying out instructions, functions and lines. Where a
  line needs the world outside, it says so and pauses.
- `jit/cfg`, `jit/breaks`: control flow graphs.
- `jit/delta`, `jit/reach`, `jit/calls`, `jit/cycles`, `jit/scc`, `jit/graph`, `jit/analysis`: by how
  much functions change the height of the stack, and how many values they look at.
- `jit/plan`, `jit/emit`, `jit/compile`, `jit/compiler`, `jit/abi`, `jit/tailcall`: plans, which say
  step by step what the compiled form of a function does.
- `jit/native`, `jit/lower`: from plans to instructions for a machine whose stack is a run of cells in
  memory.
- `jit/monotone`, `jit/unique`, `jit/sound`, `jit/heights`, `jit/correct`, `jit/cfg_laws`, `jit/memory`,
  `jit/memory_laws`: why all of this is right. The last step is in `jit/compiler`: a compiled function
  does to the cells of the stack what a call of the function does to the stack.
- `aot`: compiling a program ahead of time.

`app/` is the command line program: it turns instructions into machine code one by one, performs
effects, and reads lines. `tests/` holds the tests of the library.

## What is not proved

The functions of other crates, and of the standard library, that the library calls are taken at
their word. Each of them stands behind a small function in `names`, `stack`, `lexer`, `builtins` and
`jit/graph` whose comment says what is claimed of it.

Compiled code fails where interpreted code does, at a call of a function that is not there, at a
skip that leads nowhere and at arithmetic without a result. It does not look whether operands are
there, and whether they suit `pick`, `drop_range` and `write8`. Where they do not, or where a
function is called with fewer values on the stack than its signature says, nothing is claimed of what
the compiled program does. The same holds where the stack needs more memory than it has, and where a
program reads or writes the memory of its own stack.
