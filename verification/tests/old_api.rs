//! The compiler's rewriting checked on constant programs: equivalent programs
//! compile to the same code, and circular definitions are refused.
use serotonin::compiler::gen::{ExecutionError, Step};
use serotonin::compiler::program::{compile as start, CompileError};
use serotonin::config::Config;

const MAX_ITERATIONS: u64 = 10_000_000;

/// The standard library the test programs import.
const STD: &str = r"
# constants
true == 1;
false == 0;

# input and output
read == `>,`;
print == `.`;
pop == `.[-]<`;
popn == `[-<.[-]>[-<+>]<]<`;

# stack manipulation
dup == {a -- a a} autoperm!;
dup (a) == a a;
dup2 == {a b -- a b a b} autoperm!;
dup2 (a b) == a b a b;
drop == {a --} autoperm!;
drop (@) == ;
drop2 == {a b --} autoperm!;
drop2 (@ @) == ;
swap == {a b -- b a} autoperm!;
swap (a b) == b a;
swap2 == {a b c d -- c d a b} autoperm!;
swap2 (a b c d) == c d a b;
over == {a b -- a b a} autoperm!;
over (a b) == a b a;
over2 == {a b c d -- a b c d a b} autoperm!;
over2 (a b c d) == a b c d a b;
rot == {a b c -- b c a} autoperm!;
rot (a b c) == b c a;
rot2 == {a b c d e f -- c d e f a b} autoperm!;
rot2 (a b c d e f) == c d e f a b;
-rot == {a b c -- c a b} autoperm!;
-rot (a b c) == c a b;
-rot2 == {a b c d e f -- e f a b c d} autoperm!;
-rot2 (a b c d e f) == e f a b c d;
nip == {a b -- b} autoperm!;
nip (a b) == b;
nip2 == {a b c d -- c d} autoperm!;
nip2 (a b c d) == c d;
tuck == {a b -- b a b} autoperm!;
tuck (a b) == b a b;
tuck2 == {a b c d -- c d a b c d} autoperm!;
tuck2 (a b c d) == c d a b c d;
dupn (a n) ==! a n `[<.>-]<[-]<`;

# arithmetic
inc == `+`;
inc (a) ==! a inc pop;
dec == `-`;
dec (a) ==! a dec pop;
+ == `[-<+>]<`;
+ (b) ==? b `>+++++++++++++++++++++++++++++++++++++++++++<[>.<-]>[-]<[-]<`;
+ (a b) ==! a b + pop;
- == `[-<->]<`;
- (b) ==? b `>+++++++++++++++++++++++++++++++++++++++++++++<[>.<-]>[-]<[-]<`;
- (a b) ==! a b - pop;
* == `<[->>+<<]>[->[-<<+>>>+<]>[-<+>]<<]>[-]<<`;
* (a b) ==! a b * pop;

# logic
eq == `<[->-<]+>[<->[-]]<`;
eq (a b) == false;
eq (a a) == true;
eq (0) == zeq;
zeq == `>+<[>[-]<[-]]>[-<+>]<`;
zeq (@) == false;
zeq (0) == true;
not == zeq;
neq == eq not;
neq (a b) == true;
neq (a a) == false;
";

/// Runs a Brainfuck program on the given input: a tape of wrapping bytes that
/// starts at cell 0 and grows to the right.
fn run(code: &str, input: &[u8], max_iterations: u64) -> Result<Vec<u8>, ExecutionError> {
    let program: Vec<char> = code.chars().collect();
    let mut jumps = vec![0usize; program.len()];
    let mut open = Vec::new();
    for (i, c) in program.iter().enumerate() {
        match c {
            '[' => open.push(i),
            ']' => match open.pop() {
                Some(j) => {
                    jumps[i] = j;
                    jumps[j] = i;
                }
                None => return Err(ExecutionError::Parse(format!("unmatched `]` at {}", i))),
            },
            _ => {}
        }
    }
    if let Some(j) = open.pop() {
        return Err(ExecutionError::Parse(format!("unmatched `[` at {}", j)));
    }
    let mut tape = vec![0u8; 1];
    let mut ptr = 0usize;
    let mut pc = 0usize;
    let mut steps = 0u64;
    let mut input = input.iter();
    let mut output = Vec::new();
    while pc < program.len() {
        steps += 1;
        if steps > max_iterations {
            return Err(ExecutionError::Runtime("too many iterations".to_string()));
        }
        match program[pc] {
            '>' => {
                ptr += 1;
                if ptr == tape.len() {
                    tape.push(0);
                }
            }
            '<' => {
                if ptr == 0 {
                    return Err(ExecutionError::Runtime("moved left of the first cell".to_string()));
                }
                ptr -= 1;
            }
            '+' => tape[ptr] = tape[ptr].wrapping_add(1),
            '-' => tape[ptr] = tape[ptr].wrapping_sub(1),
            '.' => output.push(tape[ptr]),
            ',' => tape[ptr] = *input.next().unwrap_or(&0),
            '[' => {
                if tape[ptr] == 0 {
                    pc = jumps[pc];
                }
            }
            ']' => {
                if tape[ptr] != 0 {
                    pc = jumps[pc];
                }
            }
            _ => {}
        }
        pc += 1;
    }
    Ok(output)
}

/// Compiles a program with the default configuration, running the compositions
/// it asks for.
fn compile(name: &str, input: &str) -> Result<String, Vec<CompileError>> {
    let config = Config::default();
    let libraries = vec![(String::from("std"), String::from(STD))];
    let mut compilation = start(name, input, &config, &libraries)?;
    loop {
        match compilation.step() {
            Step::Continue => {}
            Step::Execute(code) => {
                let output = run(&code, &[], MAX_ITERATIONS);
                if let Some(e) = compilation.resume(output) {
                    return Err(vec![CompileError::Gen(e)]);
                }
            }
            Step::Done(code) => return Ok(code),
            Step::Failed(e) => return Err(vec![CompileError::Gen(e)]),
        }
    }
}


// equivalent("1 2 swap", "2 1");
fn equivalent(a: &str, b: &str) {
    assert_eq!(
        compile("main", &format!("IMPORT std; main == {};", a)),
        compile("main", &format!("IMPORT std; main == {};", b))
    );
}

fn fails(a: &str) {
    assert!(compile("main", a).is_err())
}

// STACK MANIPULATION
#[test]
fn tests_stack_manipulation() {
    // swap
    equivalent("1 2 swap", "2 1");
    equivalent("0 0 swap", "0 0");
    equivalent("0 1 swap", "1 0");
    equivalent("1 0 swap", "0 1");

    // dup
    equivalent("1 dup", "1 1");
    equivalent("0 dup", "0 0");
    equivalent("0 1 dup", "0 1 1");
    equivalent("1 0 dup", "1 0 0");

    // drop
    equivalent("1 drop", "");
    equivalent("0 drop", "");
    equivalent("0 1 drop", "0");
    equivalent("1 0 drop", "1");

    // over
    equivalent("1 2 over", "1 2 1");
    equivalent("0 0 over", "0 0 0");
    equivalent("0 1 over", "0 1 0");
    equivalent("1 0 over", "1 0 1");

    // rot
    equivalent("1 2 3 rot", "2 3 1");
    equivalent("0 0 0 rot", "0 0 0");
    equivalent("0 1 0 rot", "1 0 0");
    equivalent("1 0 1 rot", "0 1 1");
    equivalent("1 2 3 4 rot", "1 3 4 2");
}

// LOGIC
#[test]
fn tests_logic() {
    // true & false
    equivalent("true", "1");
    equivalent("false", "0");

    // not
    equivalent("true not", "false");
    equivalent("false not", "true");
    equivalent("20 not", "0");

    // eq
    equivalent("1 1 eq", "true");
    equivalent("2 1 eq", "false");

    // neq
    equivalent("1 1 neq", "false");
    equivalent("2 1 neq", "true");

    // zeq
    equivalent("0 zeq", "true");
    equivalent("1 zeq", "false");
    equivalent("255 zeq", "false");

    // 0 eq becomes zeq
    equivalent("read 0 eq", "read zeq");
}

#[test]
fn tests_recursion_fails() {
    fails("main == fn; fn == main;");
    fails("main == 10 20 fn; fn (a b) == a b fn;");
}
