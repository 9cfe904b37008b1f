use bfcrunch::cruncher::{build_output_sequence, to_bf_string, Cruncher};
use bfcrunch::node::Node;
use bfcrunch::options::Options;
use bfcrunch::path::Path;
use bfcrunch::util::{to_iso_8859_1_bytes, unescape_regex_like};

/// A plain Brainfuck interpreter over a wrapping byte tape. The machine
/// starts with some margin to its left, since the initialization segments
/// reach a couple of cells below their loop head.
fn run_bf(prog: &str, tape_len: usize, start: usize) -> Vec<u8> {
    let code: Vec<char> = prog.chars().collect();
    let mut jump = vec![0usize; code.len()];
    let mut stack = Vec::new();
    for (i, &ch) in code.iter().enumerate() {
        if ch == '[' {
            stack.push(i);
        } else if ch == ']' {
            let o = stack.pop().expect("unbalanced brackets");
            jump[o] = i;
            jump[i] = o;
        }
    }
    assert!(stack.is_empty(), "unbalanced brackets");

    let mut tape = vec![0u8; tape_len];
    let mut p = start;
    let mut ip = 0usize;
    let mut out = Vec::new();
    let mut steps: u64 = 0;
    while ip < code.len() {
        steps += 1;
        assert!(steps < 100_000_000, "interpreter ran too long");
        match code[ip] {
            '+' => tape[p] = tape[p].wrapping_add(1),
            '-' => tape[p] = tape[p].wrapping_sub(1),
            '>' => p += 1,
            '<' => p -= 1,
            '.' => out.push(tape[p]),
            '[' => {
                if tape[p] == 0 {
                    ip = jump[ip];
                }
            }
            ']' => {
                if tape[p] != 0 {
                    ip = jump[ip];
                }
            }
            _ => {}
        }
        ip += 1;
    }
    out
}

#[test]
fn init_segment_matches_grammar() {
    // the shortest useful initialization: +[[<+>->++<]>]
    let program = to_bf_string(&vec![1], &vec![2], &[0, 0], &[1, 1], 0);
    assert_eq!(program, "+[[<+>->++<]>]");
    assert_eq!(program.len(), 14);
}

#[test]
fn init_segment_with_all_parts() {
    let program = to_bf_string(&vec![2, -1], &vec![1, -3], &[2, -1], &[1, 2], -2);
    // s: "-<++[", k0: "++", head: "[<", j0: "+", ">", j1: "--",
    // c: ">+" ">---", backs: "<<", "]", h: "--", ">", k1: "-", "]"
    assert_eq!(program, "-<++[++[<+>-->+>---<<]-->-]");
}

#[test]
fn output_sequence_moves_and_adjusts() {
    let mut path = Path::new();
    path.add_last(Node::new(2, 0));
    let tail = build_output_sequence(&path, &vec![5u8], &vec![0u8, 0, 3], 0);
    assert_eq!(tail, ">>++.");
}

#[test]
fn output_sequence_prefers_plus_on_ties() {
    let mut path = Path::new();
    path.add_last(Node::new(0, 0));
    // 128 up equals 128 down; the tie goes to +
    let tail = build_output_sequence(&path, &vec![128u8], &vec![0u8], 0);
    assert_eq!(tail, format!("{}.", "+".repeat(128)));
}

#[test]
fn output_sequence_wraps_downward() {
    let mut path = Path::new();
    path.add_last(Node::new(1, 0));
    // from 3 down to 254 is five steps down, much shorter than up
    let tail = build_output_sequence(&path, &vec![254u8], &vec![9u8, 3], 1);
    assert_eq!(tail, "-----.");
}

#[test]
fn output_sequence_tracks_state_between_visits() {
    let mut path = Path::new();
    path.add_last(Node::new(0, 0));
    path.add_last(Node::new(0, 0));
    // the second visit sees the value written by the first
    let tail = build_output_sequence(&path, &vec![4u8, 6u8], &vec![0u8], 0);
    assert_eq!(tail, "++++.++.");
}

#[test]
fn emitted_program_reproduces_goal() {
    // search for "A" and replay the first reported program
    let decoded = unescape_regex_like("A").unwrap();
    let goal = to_iso_8859_1_bytes(&decoded).unwrap();

    let mut options = Options::new(String::from("A"));
    options.max_tape = 100;
    let mut cruncher = Cruncher::new(&options).unwrap();
    let solutions = cruncher.crunch(14);
    assert!(!solutions.is_empty(), "no solution for \"A\" at length 14");

    for sol in solutions.iter().take(3) {
        let init = to_bf_string(&sol.s, &sol.c, &sol.k, &sol.j, sol.h);
        let tail = build_output_sequence(&sol.path, &goal, &sol.tape, sol.pntr);
        let program = format!("{}{}", init, tail);
        let produced = run_bf(&program, 2000, 16);
        assert_eq!(produced, goal, "program {} missed the goal", program);
    }
}
