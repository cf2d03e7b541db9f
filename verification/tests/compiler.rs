//! End-to-end tests of the compiler: programs are compiled with a small standard
//! library and the generated Brainfuck is run by a reference interpreter.
use std::collections::HashMap;

use serotonin::compiler::gen::{ExecutionError, Step};
use serotonin::compiler::program::{compile as start, strip_outer_moves, CompileError};
use serotonin::config::Config;

const MAX_ITERATIONS: u64 = 10_000_000;

/// The standard library the test programs import.
const STD: &str = r"
# constants
true == 1;
false == 0;

# input and output
read == `>,`;
print == `.`;
pop == `.[-]<`;
popn == `[-<.[-]>[-<+>]<]<`;

# stack manipulation
dup == {a -- a a} autoperm!;
dup (a) == a a;
dup2 == {a b -- a b a b} autoperm!;
dup2 (a b) == a b a b;
drop == {a --} autoperm!;
drop (@) == ;
drop2 == {a b --} autoperm!;
drop2 (@ @) == ;
swap == {a b -- b a} autoperm!;
swap (a b) == b a;
swap2 == {a b c d -- c d a b} autoperm!;
swap2 (a b c d) == c d a b;
over == {a b -- a b a} autoperm!;
over (a b) == a b a;
over2 == {a b c d -- a b c d a b} autoperm!;
over2 (a b c d) == a b c d a b;
rot == {a b c -- b c a} autoperm!;
rot (a b c) == b c a;
rot2 == {a b c d e f -- c d e f a b} autoperm!;
rot2 (a b c d e f) == c d e f a b;
-rot == {a b c -- c a b} autoperm!;
-rot (a b c) == c a b;
-rot2 == {a b c d e f -- e f a b c d} autoperm!;
-rot2 (a b c d e f) == e f a b c d;
nip == {a b -- b} autoperm!;
nip (a b) == b;
nip2 == {a b c d -- c d} autoperm!;
nip2 (a b c d) == c d;
tuck == {a b -- b a b} autoperm!;
tuck (a b) == b a b;
tuck2 == {a b c d -- c d a b c d} autoperm!;
tuck2 (a b c d) == c d a b c d;
dupn == `[->+<]<[->+<]>>[-[->+<]<[-<+>>+<]>>]<[-]<<`;
dupn (n) ==? n `>+++++++++++++++++++++++++++++++++++++++++++++++++++++++++++++++++++++++++++++++++++++++++++.----------------------------------------------.[-]<[->>+>+<<<]>>>[-<<<+>>>]<<<>>[-<++++++++++++++++++++++++++++++++++++++++++++++++++++++++++++++.-------------------.[-]>]<<[->>+>+<<<]>>>[-<<<+>>>]<<<>>[-<++++++++++++++++++++++++++++++++++++++++++++++++++++++++++++.[-]>]<<>+++++++++++++++++++++++++++++++++++++++++++++++++++++++++++++++++++++++++++++++++++++++++++++.-------------------------------.+++++++++++++++++++++++++++++.-----------------------------.+++++++++++++++++++++++++++++++.---------------------------------.+++++++++++++++++++++++++++++++.----------------------------------------------.[-]<[->>+>+<<<]>>>[-<<<+>>>]<<<>>[-<++++++++++++++++++++++++++++++++++++++++++++++++++++++++++++.[-]>]<<>+++++++++++++++++++++++++++++++++++++++++++.[-]<[->>+>+<<<]>>>[-<<<+>>>]<<<>>[-<++++++++++++++++++++++++++++++++++++++++++++++++++++++++++++++.[-]>]<<>+++++++++++++++++++++++++++++++++++++++++++++++++++++++++++++++++++++++++++++++++++++++++++++.[-]<[-]<`;
dupn (a n) ==! a n `[<.>-]<[-]<`;

# arithmetic
inc == `+`;
inc (a) ==! a inc pop;
dec == `-`;
dec (a) ==! a dec pop;
+ == `[-<+>]<`;
+ (b) ==? b `>+++++++++++++++++++++++++++++++++++++++++++<[>.<-]>[-]<[-]<`;
+ (a b) ==! a b + pop;
- == `[-<->]<`;
- (b) ==? b `>+++++++++++++++++++++++++++++++++++++++++++++<[>.<-]>[-]<[-]<`;
- (a b) ==! a b - pop;
* == `<[->>+<<]>[->[-<<+>>>+<]>[-<+>]<<]>[-]<<`;
* (b) ==? b `>+++++++++++++++++++++++++++++++++++++++++++++++++++++++++++++++++++++++++++++++++++++++++++.----------------------------------------------.+++++++++++++++++.[-]<[->+++++++++++++++++++++++++++++++++++++++++++.[-]<]>++++++++++++++++++++++++++++++++++++++++++++++++++++++++++++.+++++++++++++++++++++++++++++++++.-------------------------------.+++++++++++++++++++++++++++++.----------------------------------------------.+++++++++++++++.-----------------.+++++++++++++++++++.+++++++++++++++++++++++++++++++.---------------------------------.[-]<<`;
* (a b) ==! a b * pop;

# logic
eq == `<[->-<]+>[<->[-]]<`;
eq (a b) == false;
eq (a a) == true;
eq (0) == zeq;
zeq == `>+<[>[-]<[-]]>[-<+>]<`;
zeq (@) == false;
zeq (0) == true;
not == zeq;
neq == eq not;
neq (a b) == true;
neq (a a) == false;
";

/// Runs a Brainfuck program on the given input: a tape of wrapping bytes that
/// starts at cell 0 and grows to the right.
fn run(code: &str, input: &[u8], max_iterations: u64) -> Result<Vec<u8>, ExecutionError> {
    let program: Vec<char> = code.chars().collect();
    let mut jumps = vec![0usize; program.len()];
    let mut open = Vec::new();
    for (i, c) in program.iter().enumerate() {
        match c {
            '[' => open.push(i),
            ']' => match open.pop() {
                Some(j) => {
                    jumps[i] = j;
                    jumps[j] = i;
                }
                None => return Err(ExecutionError::Parse(format!("unmatched `]` at {}", i))),
            },
            _ => {}
        }
    }
    if let Some(j) = open.pop() {
        return Err(ExecutionError::Parse(format!("unmatched `[` at {}", j)));
    }
    let mut tape = vec![0u8; 1];
    let mut ptr = 0usize;
    let mut pc = 0usize;
    let mut steps = 0u64;
    let mut input = input.iter();
    let mut output = Vec::new();
    while pc < program.len() {
        steps += 1;
        if steps > max_iterations {
            return Err(ExecutionError::Runtime("too many iterations".to_string()));
        }
        match program[pc] {
            '>' => {
                ptr += 1;
                if ptr == tape.len() {
                    tape.push(0);
                }
            }
            '<' => {
                if ptr == 0 {
                    return Err(ExecutionError::Runtime("moved left of the first cell".to_string()));
                }
                ptr -= 1;
            }
            '+' => tape[ptr] = tape[ptr].wrapping_add(1),
            '-' => tape[ptr] = tape[ptr].wrapping_sub(1),
            '.' => output.push(tape[ptr]),
            ',' => tape[ptr] = *input.next().unwrap_or(&0),
            '[' => {
                if tape[ptr] == 0 {
                    pc = jumps[pc];
                }
            }
            ']' => {
                if tape[ptr] != 0 {
                    pc = jumps[pc];
                }
            }
            _ => {}
        }
        pc += 1;
    }
    Ok(output)
}

/// Compiles a program, running the compositions it asks for.
fn compile(name: &str, input: &str, config: Config) -> Result<String, Vec<CompileError>> {
    let libraries = vec![(String::from("std"), String::from(STD))];
    let mut compilation = start(name, input, &config, &libraries)?;
    loop {
        match compilation.step() {
            Step::Continue => {}
            Step::Execute(code) => {
                let output = run(&code, &[], MAX_ITERATIONS);
                if let Some(e) = compilation.resume(output) {
                    return Err(vec![CompileError::Gen(e)]);
                }
            }
            Step::Done(code) => return Ok(code),
            Step::Failed(e) => return Err(vec![CompileError::Gen(e)]),
        }
    }
}

fn compile_without_timings(name: &str, input: &str, config: Config) -> Result<String, Vec<CompileError>> {
    compile(name, input, config)
}

// equivalent("1 2 swap", "2 1");
fn equivalent(a: &str, b: &str) {
    assert_eq!(
        compile("main", &format!("IMPORT std; main == {};", a), Config::default()),
        compile("main", &format!("IMPORT std; main == {};", b), Config::default())
    );
}

fn fails(a: &str) {
    assert!(compile("main", a, Config::default()).is_err())
}

fn multiple_test(code: &str, inputs: Vec<Vec<u8>>, outputs: Vec<Vec<u8>>) {
    assert!(inputs.len() == outputs.len());

    // compile
    match compile_without_timings("test", code, Config::default()) {
        Ok(code) => {
            // execute the program
            for (input, expected) in inputs.iter().zip(outputs.iter()) {
                match run(&code, input, MAX_ITERATIONS) {
                    Ok(output) => assert_eq!(expected, &output),
                    Err(e) => panic!("{:?}", e),
                }
            }
        }
        Err(errors) => {
            panic!("Compilation failed: {:?}", errors);
        }
    }
}

fn single_test(code: &str, input: Vec<u8>, output: Vec<u8>) {
    multiple_test(code, vec![input], vec![output])
}

// verify!("a b dup2", "a b a b");
fn fuzz(program: &str, returns: &str) {
    // input order
    let program_inputs: Vec<_> = program
        .split_whitespace()
        .filter(|s| s.len() == 1 && s.chars().next().unwrap().is_ascii_lowercase())
        .map(|s| s.chars().next().unwrap())
        .collect();
    let program_outputs: Vec<_> = returns
        .split_whitespace()
        .filter(|s| s.len() == 1)
        .map(|s| s.chars().next().unwrap())
        .collect();

    let mut map = HashMap::new();
    for c in program_inputs.iter().chain(program_outputs.iter()) {
        map.insert(*c, 0);
    }

    // Generate many possible tests
    let mut inputs = Vec::new();
    let mut outputs = Vec::new();
    for _ in 0..100 {
        // Generate random inputs
        for c in program_inputs.iter() {
            if (*c).is_ascii_digit() {
                map.insert(*c, (*c).to_digit(10).unwrap() as u8);
            } else {
                map.insert(*c, rand::random());
            }
        }

        inputs.push(program_inputs.iter().map(|c| map.get(c).unwrap()).cloned().collect());

        outputs.push(
            program_outputs
                .iter()
                .map(|c| map.get(c).unwrap())
                .cloned()
                .rev()
                .collect(),
        );
    }

    // replace lowercase letters with "read"
    let code = program
        .split_whitespace()
        .map(|s| {
            if s.len() == 1 && s.chars().next().unwrap().is_ascii_lowercase() {
                "read".to_string()
            } else {
                s.to_string()
            }
        })
        .collect::<Vec<_>>()
        .join(" ");

    multiple_test(
        &format!("IMPORT std; main == {code} {} popn;", program_outputs.len()),
        inputs,
        outputs,
    );
}

// ints match corresponding hex
#[test]
fn hex_matches_int() {
    for i in 0u8..=255 {
        equivalent(&format!("{:#04x}", i), &format!("{}", i));
    }
}

// STACK MANIPULATION
#[test]
fn test_propagation_stack_manipulation() {
    equivalent("1 dup", "1 1");
    equivalent("1 2 dup2", "1 2 1 2");

    equivalent("1 drop", "");
    equivalent("1 2 drop2", "");

    equivalent("1 2 swap", "2 1");
    equivalent("1 2 3 4 swap2", "3 4 1 2");

    equivalent("1 2 over", "1 2 1");
    equivalent("1 2 3 4 over2", "1 2 3 4 1 2");

    equivalent("1 2 3 rot", "2 3 1");
    equivalent("1 2 3 rot rot rot", "1 2 3");
    equivalent("1 2 3 4 5 6 rot2", "3 4 5 6 1 2");
    equivalent("1 2 3 4 5 6 rot2 rot2 rot2", "1 2 3 4 5 6");

    equivalent("1 2 3 -rot", "3 1 2");
    equivalent("1 2 3 -rot -rot -rot", "1 2 3");
    equivalent("1 2 3 4 5 6 -rot2", "5 6 1 2 3 4");
    equivalent("1 2 3 4 5 6 -rot2 -rot2 -rot2", "1 2 3 4 5 6");

    equivalent("1 2 nip", "2");
    equivalent("1 2 3 4 nip2", "3 4");

    equivalent("1 2 tuck", "2 1 2");
    equivalent("1 2 3 4 tuck2", "3 4 1 2 3 4");
}

// ARITHMETIC
#[test]
fn test_propagation_arithmetic() {
    // inc
    equivalent("40 inc", "41");
    equivalent("0 inc", "1");
    equivalent("255 inc", "0");

    // dec
    equivalent("40 dec", "39");
    equivalent("0 dec", "255");
    equivalent("1 dec", "0");

    // +
    equivalent("40 2 +", "42");
    equivalent("0 0 +", "0");
    equivalent("255 1 +", "0");
    equivalent("255 2 +", "1");

    // -
    equivalent("40 2 -", "38");
    equivalent("0 0 -", "0");
    equivalent("0 1 -", "255");
    equivalent("1 2 -", "255");

    // *
    equivalent("40 2 *", "80");
    equivalent("0 0 *", "0");
    equivalent("0 1 *", "0");
    equivalent("1 0 *", "0");
    equivalent("255 1 *", "255");
    equivalent("255 2 *", "254");
}

#[test]
fn test_propagation_dupn() {
    // dupn
    equivalent("1 10 dupn", "1 1 1 1 1 1 1 1 1 1");
    equivalent("0 10 dupn", "0 0 0 0 0 0 0 0 0 0");
}

// LOGIC
#[test]
fn test_propagation_logic() {
    // true & false
    equivalent("true", "1");
    equivalent("false", "0");

    // not
    equivalent("true not", "false");
    equivalent("false not", "true");
    equivalent("20 not", "0");

    // eq
    equivalent("1 1 eq", "true");
    equivalent("2 1 eq", "false");

    // neq
    equivalent("1 1 neq", "false");
    equivalent("2 1 neq", "true");

    // zeq
    equivalent("0 zeq", "true");
    equivalent("1 zeq", "false");
    equivalent("255 zeq", "false");

    // 0 eq becomes zeq
    equivalent("read 0 eq", "read zeq");
}

#[test]
fn test_propagation_recursion_fails() {
    fails("main == fn; fn == main;");
    fails("main == 10 20 fn; fn (a b) == a b fn;");
}

#[test]
fn ints() {
    // test creating all possible integers
    for i in 0u8..=255 {
        let code = &format!("IMPORT std; main == {} pop;", i);
        let input = vec![];
        let output = vec![i];
        single_test(code, input, output);
    }
}

#[test]
fn add() {
    let code = "IMPORT std; main == read read + pop;";
    let mut inputs = Vec::new();
    let mut outputs = Vec::new();

    // there are 256x256 = 65536 possible combinations of 2 numbers
    for i in 0u8..=255 {
        for j in 0u8..=255 {
            inputs.push(vec![i, j]);
            outputs.push(vec![i.wrapping_add(j)]);
        }
    }

    multiple_test(code, inputs, outputs);
}

#[test]
fn sub() {
    let code = "IMPORT std; main == read read - pop;";
    let mut inputs = Vec::new();
    let mut outputs = Vec::new();

    // there are 256x256 = 65536 possible combinations of 2 numbers
    for i in 0u8..=255 {
        for j in 0u8..=255 {
            inputs.push(vec![i, j]);
            outputs.push(vec![i.wrapping_sub(j)]);
        }
    }

    multiple_test(code, inputs, outputs);
}

// STACK MANIPULATION
#[test]
fn test_std_stack_manipulation() {
    fuzz("a", "a");
    // dup
    fuzz("a dup", "a a");
    fuzz("a b dup2", "a b a b");
    // drop
    fuzz("0 a drop", "0");
    fuzz("0 a b drop2", "0");
    // swap
    fuzz("a b swap", "b a");
    fuzz("a b c d swap2", "c d a b");
    // over
    fuzz("a b over", "a b a");
    fuzz("a b c d over2", "a b c d a b");
    // rot
    fuzz("a b c rot", "b c a");
    fuzz("a b c d e f rot2", "c d e f a b");
    // -rot
    fuzz("a b c -rot", "c a b");
    fuzz("a b c d e f -rot2", "e f a b c d");
    // nip
    fuzz("a b nip", "b");
    fuzz("a b c d nip2", "c d");
    // tuck
    fuzz("a b tuck", "b a b");
    fuzz("a b c d tuck2", "c d a b c d");
}

#[test]
fn inc() {
    let code = "IMPORT std; main == read inc pop;";
    let mut inputs = Vec::new();
    let mut outputs = Vec::new();

    // test incrementing all numbers
    for i in 0u8..=255 {
        inputs.push(vec![i]);
        outputs.push(vec![i.wrapping_add(1)]);
    }

    multiple_test(code, inputs, outputs);
}

#[test]
fn dec() {
    let code = "IMPORT std; main == read dec pop;";
    let mut inputs = Vec::new();
    let mut outputs = Vec::new();

    // test decrementing all numbers
    for i in 0u8..=255 {
        inputs.push(vec![i]);
        outputs.push(vec![i.wrapping_sub(1)]);
    }

    multiple_test(code, inputs, outputs);
}

#[test]
fn eq() {
    let code = "IMPORT std; main == read read eq pop;";
    let mut inputs = Vec::new();
    let mut outputs = Vec::new();

    // test comparing all numbers
    for i in 0u8..=255 {
        for j in 0u8..=255 {
            inputs.push(vec![i, j]);
            outputs.push(vec![if i == j { 1 } else { 0 }]);
        }
    }

    multiple_test(code, inputs, outputs);
}

#[test]
fn zeq() {
    let code = "IMPORT std; main == read zeq pop;";
    let inputs = (0u8..=255).map(|i| vec![i]).collect();
    // [1] followed by 255 [0]
    let outputs = vec![vec![1]].into_iter().chain((0u8..=254).map(|_i| vec![0])).collect();

    multiple_test(code, inputs, outputs);
}

#[test]
fn not() {
    let code = "IMPORT std; main == read not pop;";
    let mut inputs = Vec::new();
    let mut outputs = Vec::new();

    // test inverting all numbers
    for i in 0u8..=255 {
        inputs.push(vec![i]);
        outputs.push(vec![if i == 0 { 1 } else { 0 }]);
    }

    multiple_test(code, inputs, outputs);
}

#[test]
fn neq() {
    let code = "IMPORT std; main == read read neq pop;";
    let mut inputs = Vec::new();
    let mut outputs = Vec::new();

    // test comparing all numbers
    for i in 0u8..=255 {
        for j in 0u8..=255 {
            inputs.push(vec![i, j]);
            outputs.push(vec![if i != j { 1 } else { 0 }]);
        }
    }

    multiple_test(code, inputs, outputs);
}

#[test]
fn popn() {
    single_test("IMPORT std; main == 1 2 3 4 4 popn;", vec![], vec![4, 3, 2, 1]);
    single_test("IMPORT std; main == 1 2 3 4 read popn;", vec![4], vec![4, 3, 2, 1]);
}

fn compile_with(input: &str, libraries: Vec<(&str, &str)>) -> Result<String, Vec<CompileError>> {
    let libraries: Vec<(String, String)> =
        libraries.into_iter().map(|(n, t)| (n.to_string(), t.to_string())).collect();
    let mut compilation = start("main", input, &Config::default(), &libraries)?;
    loop {
        match compilation.step() {
            Step::Continue => {}
            Step::Execute(code) => {
                if let Some(e) = compilation.resume(run(&code, &[], MAX_ITERATIONS)) {
                    return Err(vec![CompileError::Gen(e)]);
                }
            }
            Step::Done(code) => return Ok(code),
            Step::Failed(e) => return Err(vec![CompileError::Gen(e)]),
        }
    }
}

use serotonin::compiler::gen::GenError;
use serotonin::compiler::semantic::SemanticError;

#[test]
fn constants_strings_and_quotations() {
    assert_eq!(compile_with("main == 3;", vec![]), Ok(">+++".to_string()));
    assert_eq!(compile_with("main == 0x03 `.`;", vec![]), Ok(">+++.".to_string()));
    assert_eq!(compile_with("main == [1 `.`];", vec![]), Ok(">+.".to_string()));
    let hi = format!(">>{}>{}", "+".repeat(104), "+".repeat(105));
    assert_eq!(compile_with("main == \"hi\";", vec![]), Ok(hi));
    let raw = format!(">{}", "+".repeat(104));
    assert_eq!(compile_with("main == 'h'; # a comment", vec![]), Ok(raw));
    assert_eq!(compile_with("main == \"\\n\";", vec![]), Ok(">>++++++++++".to_string()));
}

#[test]
fn rewriting_rules() {
    // a function is replaced by its body
    assert_eq!(compile_with("one == 1; main == one one;", vec![]), Ok(">+>+".to_string()));
    // the last matching definition wins
    assert_eq!(
        compile_with("fun == `x`; fun (a) == a a; fun (2) == `two`; main == 2 fun 3 fun;", vec![]),
        Ok("two>+++>+++".to_string())
    );
    // an execution rule becomes the bytes its program prints
    assert_eq!(
        compile_with("inc == `+`; next (a) ==! a inc `.`; main == 5 next;", vec![]),
        Ok(">++++++".to_string())
    );
    // a generation rule becomes the code its program prints
    let minus = format!("minus (a) ==? a `>{}<[>.<-]`; main == 3 minus;", "+".repeat(45));
    assert_eq!(compile_with(&minus, vec![]), Ok("---".to_string()));
    // quotation patterns bind the compiled code of a quotation
    let plus = format!(">>{}", "+".repeat(43));
    assert_eq!(
        compile_with("twice (Q) == Q Q; main == [`+`] twice;", vec![]),
        Ok(format!("{}{}", plus, plus))
    );
    // macros
    assert_eq!(
        compile_with("main == {a b -- b a} autoperm!;", vec![]),
        Ok("[->+<]<[->+<]>>[-<<+>>]<".to_string())
    );
}

#[test]
fn rewriting_errors() {
    assert!(matches!(
        compile_with("main == {a -- a} foo!;", vec![]),
        Err(ref e) if matches!(e[0], CompileError::Gen(GenError::InvalidMacro(ref m, _)) if m == "foo!")
    ));
    assert!(matches!(
        compile_with("main == fun; fun == main;", vec![]),
        Err(ref e) if matches!(e[0], CompileError::Gen(GenError::NoUnusedDefinition(ref n, _)) if n == "main")
    ));
    assert!(matches!(
        compile_with("bad (a) ==! a `[`; main == 1 bad;", vec![]),
        Err(ref e) if matches!(e[0], CompileError::Gen(GenError::ExecutionFailed(ExecutionError::Parse(_), _)))
    ));
    assert!(matches!(
        compile_with("main (a) == a;", vec![]),
        Err(ref e) if matches!(e[0], CompileError::Gen(GenError::MainHasPattern(_)))
    ));
}

#[test]
fn program_errors() {
    assert!(matches!(
        compile_with("main == 1", vec![]),
        Err(ref e) if matches!(e[0], CompileError::Parse(_))
    ));
    assert!(matches!(
        compile_with("fun == 1;", vec![]),
        Err(ref e) if matches!(e[0], CompileError::MainNotFound { ref module } if module == "main")
    ));
    assert!(matches!(
        compile_with("main == 1; main == 2;", vec![]),
        Err(ref e) if matches!(e[0], CompileError::Semantic(SemanticError::DuplicateDefinition { .. }))
    ));
    assert!(matches!(
        compile_with("main == 1; fun (a) == a; main (1) == 2;", vec![]),
        Err(ref e) if matches!(e[0], CompileError::MainHasMatches(_))
    ));
    assert!(matches!(
        compile_with("IMPORT nothere; main == 1;", vec![]),
        Err(ref e) if matches!(e[0], CompileError::ModuleNotFound { ref module, .. } if module == "nothere")
    ));
    match compile_with("IMPORT a; main == 1;", vec![("a", "IMPORT b; xx == 1;"), ("b", "IMPORT a; yy == 1;")]) {
        Err(e) => match &e[0] {
            CompileError::CircularImport { module, chain, .. } => {
                assert_eq!(module, "a");
                assert_eq!(chain, "a -> b -> a");
            }
            other => panic!("{:?}", other),
        },
        Ok(_) => panic!("a circular import compiled"),
    }
}

#[test]
fn semantic_errors() {
    let dup = compile_with("main == fun; fun == 1; fun == 2;", vec![]).unwrap_err();
    assert_eq!(dup.len(), 3);
    assert!(matches!(dup[0], CompileError::Semantic(SemanticError::DuplicateDefinition { ref name, .. }) if name == "fun"));
    assert!(matches!(dup[1], CompileError::Semantic(SemanticError::OriginalDefinition { ref name, .. }) if name == "fun"));
    assert!(matches!(dup[2], CompileError::Semantic(SemanticError::NotDefined { ref name, .. }) if name == "fun"));
    // a single letter is a reserved name: such a definition is left out
    assert!(matches!(
        compile_with("main == f; f == 1;", vec![]),
        Err(ref e) if matches!(e[0], CompileError::Semantic(SemanticError::NotDefined { ref name, .. }) if name == "f")
    ));

    assert!(matches!(
        compile_with("main == gone;", vec![]),
        Err(ref e) if matches!(e[0], CompileError::Semantic(SemanticError::NotDefined { ref name, .. }) if name == "gone")
    ));
    assert!(matches!(
        compile_with("IMPORT lib; main == lib._hidden;", vec![("lib", "_hidden == 1;")]),
        Err(ref e) if matches!(e[0], CompileError::Semantic(SemanticError::PrivateFunction { .. }))
    ));
    assert!(matches!(
        compile_with("IMPORT lib; main == lib.absent;", vec![("lib", "xx == 1;")]),
        Err(ref e) if matches!(e[0], CompileError::Semantic(SemanticError::NotDefinedInModule { .. }))
    ));
    assert!(matches!(
        compile_with("main == lib.xx;", vec![("lib", "xx == 1;")]),
        Err(ref e) if matches!(e[0], CompileError::Semantic(SemanticError::ModuleNotFound { .. }))
    ));
    // the current module is searched last, so its definitions shadow imported ones
    assert_eq!(compile_with("IMPORT lib; xx == 2; main == xx lib.xx;", vec![("lib", "xx == 1;")]), Ok(">++>+".to_string()));
    // a reserved single-letter name is left out of the module
    assert!(compile_with("a == 1; main == a;", vec![]).is_err());
    assert_eq!(compile_with("a == 1; main == 2;", vec![]), Ok(">++".to_string()));
}

use serotonin::compiler::ast::{DefinitionType, Expression, StackArg};
use serotonin::compiler::parse::parse_module;

#[test]
fn parse_module_structure() {
    let text = "IMPORT std;\nswap (a b) == b a;\nmain == 1 2 swap;\n";
    let (m, next, _) = parse_module("prog", text, 3, 10).unwrap();
    assert_eq!(m.name, "prog");
    assert_eq!(next, 12);
    assert_eq!(m.imports.len(), 1);
    assert_eq!(m.imports[0].0, "std");
    assert_eq!(m.imports[0].1, serotonin::span::Span::new(7, 10, 3));
    assert_eq!(m.definitions.len(), 2);
    assert_eq!(m.definitions[0].name, "swap");
    let swap = &m.definitions[0].defs[0];
    assert_eq!(swap.typ, DefinitionType::InlineComposition);
    assert_eq!(swap.unique_id, 10);
    // entries from the top of the stack down, letters numbered by first appearance
    assert_eq!(
        swap.stack.as_ref().unwrap().args,
        vec![StackArg::Position('b', 0), StackArg::Position('a', 1)]
    );
    let main = &m.definitions[1].defs[0];
    assert_eq!(main.typ, DefinitionType::Function);
    assert_eq!(main.unique_id, 11);
    assert_eq!(main.body.len(), 3);
    assert!(matches!(main.body[0], Expression::Constant(1, _)));
    assert!(matches!(main.body[2], Expression::Function(ref module, ref name, _) if module.is_empty() && name == "swap"));
}

#[test]
fn parse_stack_pattern_numbering() {
    let (m, _, _) = parse_module("p", "fun (A x 3 x @ _) ==? x;", 0, 0).unwrap();
    let d = &m.definitions[0].defs[0];
    assert_eq!(d.typ, DefinitionType::Composition);
    assert_eq!(
        d.stack.as_ref().unwrap().args,
        vec![
            StackArg::IgnoredQoutation,
            StackArg::IgnoredConstant,
            StackArg::Position('x', 0),
            StackArg::Byte(3),
            StackArg::Position('x', 0),
            StackArg::Qoutation('A', 2),
        ]
    );
}

#[test]
fn parse_groups_and_left_out_definitions() {
    // a reserved name and a number that does not fit in a byte are left out
    let (m, next, left) = parse_module("p", "a == 1; fun == 1; big == 256; fun (x) ==! x; gg == fun;", 0, 5).unwrap();
    assert_eq!(next, 8);
    // the left-out definitions are reported, in order
    assert_eq!(left.len(), 2);
    assert_eq!(left[0].expected, "Single character names matching 'a'..'z' and 'A'..'Z' are reserved");
    assert_eq!(left[0].span, serotonin::span::Span::new(0, 1, 0));
    assert_eq!(left[1].expected, "numbers that fit in a byte");
    assert_eq!(left[1].span, serotonin::span::Span::new(18, 29, 0));
    let names: Vec<&str> = m.definitions.iter().map(|g| g.name.as_str()).collect();
    assert_eq!(names, vec!["fun", "gg"]);
    assert_eq!(m.definitions[0].defs.len(), 2);
    assert_eq!(m.definitions[0].defs[1].typ, DefinitionType::ConstantComposition);
    assert_eq!(m.definitions[0].defs[0].unique_id, 5);
    assert_eq!(m.definitions[0].defs[1].unique_id, 6);
    assert_eq!(m.definitions[1].defs[0].unique_id, 7);
}

#[test]
fn parse_qualified_calls_and_macros() {
    let (m, _, _) = parse_module("p", "main == std.dup [1 2] {a b -- b a} autoperm! `+`;", 0, 0).unwrap();
    let body = &m.definitions[0].defs[0].body;
    assert!(matches!(body[0], Expression::Function(ref module, ref name, _) if module == "std" && name == "dup"));
    assert!(matches!(body[1], Expression::Quotation(ref q, _) if q.len() == 2));
    assert!(matches!(body[2], Expression::Macro(ref input, ref name, _) if input == "a b -- b a" && name == "autoperm!"));
    assert!(matches!(body[3], Expression::Brainfuck(ref code, _) if code == "+"));
}

#[test]
fn parse_errors() {
    assert!(parse_module("p", "main == \"abc;", 0, 0).is_err());
    assert!(parse_module("p", "main == [1 2;", 0, 0).is_err());
    assert!(parse_module("p", "main 1 2;", 0, 0).is_err());
    assert!(parse_module("p", "main == 1 2", 0, 0).is_err());
    assert!(parse_module("p", "IMPORT std", 0, 0).is_err());
    assert!(parse_module("p", "fun (a b == 1;", 0, 0).is_err());
    assert!(parse_module("p", "", 0, 0).is_ok());
}

#[test]
fn library_and_main_errors() {
    // a library text that does not parse
    assert!(matches!(
        compile_with("IMPORT lib; main == 1;", vec![("lib", "oops == 1")]),
        Err(ref e) if e.len() == 1 && matches!(e[0], CompileError::Parse(_))
    ));
    // main written with a stack pattern
    assert!(matches!(
        compile_with("main (@) == 1;", vec![]),
        Err(ref e) if e.len() == 1 && matches!(e[0], CompileError::Gen(_))
    ));
    // a library that imports another library compiles
    assert!(compile_with("IMPORT a; main == xx;", vec![("a", "IMPORT b; xx == 1;"), ("b", "yy == 2;")]).is_ok());
}

#[test]
fn semantic_errors_in_order() {
    // every call not in scope is reported, in the order of the text
    match compile_with("main == aa [bb] lib.cc;", vec![]) {
        Err(e) => {
            assert_eq!(e.len(), 3);
            assert!(matches!(e[0], CompileError::Semantic(SemanticError::NotDefined { ref name, .. }) if name == "aa"));
            assert!(matches!(e[1], CompileError::Semantic(SemanticError::NotDefined { ref name, .. }) if name == "bb"));
            assert!(matches!(e[2], CompileError::Semantic(SemanticError::ModuleNotFound { ref module, .. }) if module == "lib"));
        }
        Ok(_) => panic!("calls out of scope compiled"),
    }
}

#[test]
fn constant_main_is_its_byte() {
    for i in 0u8..=255 {
        let expected = format!(">{}", "+".repeat(i as usize));
        assert_eq!(compile_with(&format!("main == {:#04x};", i), vec![]), Ok(expected.clone()));
        assert_eq!(compile_with(&format!("main == {};", i), vec![]), Ok(expected));
    }
}

// the code of a program, without the move to its first cell and back
fn exact(a: &str, b: &str) {
    let code = compile("main", &format!("IMPORT std; main == {};", a), Config::default());
    assert_eq!(code.map(|c| strip_outer_moves(&c).to_string()), Ok(b.to_string()));
}

#[test]
fn tests_arithmetic() {
    // inc
    equivalent("40 inc", "41");
    equivalent("0 inc", "1");
    equivalent("255 inc", "0");
    exact("read inc", ">,+");

    // dec
    equivalent("40 dec", "39");
    equivalent("0 dec", "255");
    equivalent("1 dec", "0");
    exact("read dec", ">,-");

    // +
    equivalent("40 2 +", "42");
    equivalent("0 0 +", "0");
    equivalent("255 1 +", "0");
    equivalent("255 2 +", "1");
    exact("read 1 +", ">,+");

    // -
    equivalent("40 2 -", "38");
    equivalent("0 0 -", "0");
    equivalent("0 1 -", "255");
    equivalent("1 2 -", "255");
    exact("read 1 -", ">,-");
    exact("read 20 -", ">,--------------------");

    // *
    equivalent("40 2 *", "80");
    equivalent("0 0 *", "0");
    equivalent("0 1 *", "0");
    equivalent("1 0 *", "0");
    equivalent("255 1 *", "255");
    equivalent("255 2 *", "254");
    exact("read 10 *", ",[->++++++++++<]>[-<+>]")
}

#[test]
fn tests_dupn() {
    // dupn
    equivalent("1 10 dupn", "1 1 1 1 1 1 1 1 1 1");
    equivalent("0 10 dupn", "0 0 0 0 0 0 0 0 0 0");
    exact(
        "read 10 dupn",
        ">,[->+>+>+>+>+>+>+>+>+>+<<<<<<<<<<]>[>]<[-<<<<<<<<<<+>>>>>>>>>>]",
    );
}

#[test]
fn test_std_dupn() {
    // `0 dupn` will behave like `drop drop`
    let code = "IMPORT std; main == read read dupn;";
    let inputs = (0u8..=255).map(|i| vec![i, 0]).collect();
    let outputs = vec![vec![]; 256];
    multiple_test(code, inputs, outputs);

    // `n dupn` will be checked for correctness by using n pops
    (1u8..=255).for_each(|n| {
        let code = format!("IMPORT std; main == read read dupn {n} popn;");

        let inputs = (0..=10).map(|i| vec![i, n]).collect();
        let outputs = (0..=10).map(|i| vec![i; n as usize]).collect();

        multiple_test(&code, inputs, outputs);
    });
}
