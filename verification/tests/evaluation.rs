use stack_lang::machine::{Executor, Mode};
use stack_lang::numeral::Numeral;
use stack_lang::value::Type;

fn numeral(x: f64) -> Numeral {
    Numeral { bits: x.to_bits(), text: x.to_string() }
}

fn parse(s: String) -> Option<Numeral> {
    s.parse::<f64>().ok().map(numeral)
}

fn value_number(v: &Type) -> f64 {
    f64::from_bits(stack_lang::machine::number_of(v, &parse).bits)
}

fn host(command: String, mut e: Executor) -> Executor {
    match command.as_str() {
        "add" => {
            let b = value_number(&e.pop_stack());
            let a = value_number(&e.pop_stack());
            e.push(Type::Number(numeral(a + b)));
        }
        "less" => {
            let b = value_number(&e.pop_stack());
            let a = value_number(&e.pop_stack());
            e.push(Type::Bool(a < b));
        }
        _ => {}
    }
    e
}

fn run_in(e: &mut Executor, code: &str) -> u64 {
    e.evaluate_program(code, &parse, &host, 1_000_000)
}

fn run(code: &str) -> Executor {
    let mut e = Executor::new(Mode::Script);
    run_in(&mut e, code);
    e
}

fn shown(e: &Executor) -> Vec<String> {
    e.stack.iter().map(|v| v.display()).collect()
}

#[test]
fn numbers_and_truths_are_pushed() {
    let e = run("1 2.5 true false");
    assert_eq!(shown(&e), vec!["1", "2.5", "true", "false"]);
}

#[test]
fn string_literal_keeps_inner_text() {
    let e = run("(hello world)");
    assert_eq!(shown(&e), vec!["(hello world)"]);
    assert_eq!(e.stack[0].get_string(), "hello world");
}

#[test]
fn string_literal_escapes() {
    let e = run("(a\\)b)");
    assert_eq!(e.stack[0].get_string(), "a)b");
    let e = run("(line\\nbreak)");
    assert_eq!(e.stack[0].get_string(), "line\\nbreak");
}

#[test]
fn list_literal_collects_values() {
    let e = run("[1 2 (x)]");
    assert_eq!(shown(&e), vec!["[1 2 (x)]"]);
}

#[test]
fn list_literal_empty() {
    let e = run("[]");
    assert_eq!(shown(&e), vec!["[]"]);
}

#[test]
fn matrix_literal_reads_rows() {
    let e = run("{1, 2; 3, 4}");
    assert_eq!(shown(&e), vec!["{ 1, 2; 3, 4}"]);
    assert_eq!(e.stack[0].kind_name(), "matrix");
}

#[test]
fn error_literal() {
    let e = run("error:boom");
    assert_eq!(shown(&e), vec!["error:boom"]);
    assert_eq!(e.stack[0].kind_name(), "error");
}

#[test]
fn unknown_word_is_a_string() {
    let e = run("hello");
    assert_eq!(shown(&e), vec!["(hello)"]);
}

#[test]
fn comment_is_logged_in_debug_mode() {
    let mut e = Executor::new(Mode::Debug);
    run_in(&mut e, "#note#");
    assert!(e.stack.is_empty());
    assert!(e.log.iter().any(|l| l == "* Comment \"note\"\n"));
}

#[test]
fn debug_log_announces_tokens_and_final_stack() {
    let mut e = Executor::new(Mode::Debug);
    run_in(&mut e, "1");
    assert_eq!(e.log, vec!["Stack〔  〕 ←  1\n".to_string(), "Stack〔 1 〕\n".to_string()]);
}

#[test]
fn script_mode_logs_nothing() {
    let e = run("1 2 #c# pop pop pop");
    assert!(e.log.is_empty());
}

#[test]
fn variables_hold_values() {
    let e = run("5 (x) var x x");
    assert_eq!(shown(&e), vec!["5", "5"]);
}

#[test]
fn free_removes_variable() {
    let e = run("5 (x) var (x) free x");
    assert_eq!(shown(&e), vec!["(x)"]);
}

#[test]
fn mem_lists_names() {
    let e = run("1 (a) var 2 (b) var mem");
    assert_eq!(shown(&e), vec!["[(a) (b)]"]);
}

#[test]
fn host_command_runs_on_host() {
    let e = run("1 2 add");
    assert_eq!(shown(&e), vec!["3"]);
}

#[test]
fn eval_runs_code() {
    let e = run("(1 2 add) eval");
    assert_eq!(shown(&e), vec!["3"]);
}

#[test]
fn if_picks_branch() {
    let e = run("(yes) (no) true if");
    assert_eq!(shown(&e), vec!["(yes)"]);
    let e = run("(yes) (no) false if");
    assert_eq!(shown(&e), vec!["(no)"]);
}

#[test]
fn while_counts() {
    let e = run("0 (i) var (i 1 add (i) var) (i 3 less) while i");
    assert_eq!(shown(&e), vec!["3"]);
}

#[test]
fn for_visits_each_item() {
    let e = run("0 (s) var [1 2 3] (x) (s x add (s) var) for s");
    assert_eq!(shown(&e), vec!["6"]);
}

#[test]
fn map_transforms_list() {
    let e = run("[1 2 3] (x) (x 10 add) map");
    assert_eq!(shown(&e), vec!["[11 12 13]"]);
}

#[test]
fn filter_keeps_true() {
    let e = run("[1 5 2 7] (x) (x 3 less) filter");
    assert_eq!(shown(&e), vec!["[1 2]"]);
}

#[test]
fn reduce_folds() {
    let e = run("[1 2 3 4] (acc) 0 (x) (acc x add) reduce");
    assert_eq!(shown(&e), vec!["10"]);
}

#[test]
fn fuel_stops_evaluation() {
    let mut e = Executor::new(Mode::Script);
    let left = e.evaluate_program("1 2 3", &parse, &host, 2);
    assert_eq!(left, 0);
    assert_eq!(shown(&e), vec!["1", "2"]);
}

#[test]
fn fuel_left_is_returned() {
    let mut e = Executor::new(Mode::Script);
    let left = e.evaluate_program("1 2 3", &parse, &host, 10);
    assert_eq!(left, 7);
}

#[test]
fn halted_program_stops() {
    let mut e = Executor::new(Mode::Script);
    run_in(&mut e, "[1] 5 (x) insert 9");
    assert!(e.halted.is_some());
    assert!(e.stack.is_empty());
}

#[test]
fn swap_twice_restores_stack() {
    let e = run("1 2 swap swap");
    assert_eq!(shown(&e), vec!["1", "2"]);
}

#[test]
fn copy_then_pop_restores_stack() {
    let e = run("1 2 copy pop");
    assert_eq!(shown(&e), vec!["1", "2"]);
}

#[test]
fn reverse_twice_restores_list() {
    let e = run("[1 2 3] reverse reverse");
    assert_eq!(shown(&e), vec!["[1 2 3]"]);
}

#[test]
fn pop_on_empty_stack_gives_empty_string_and_warns() {
    let mut e = Executor::new(Mode::Debug);
    let v = e.pop_stack();
    assert_eq!(v.get_string(), "");
    assert_eq!(e.log, vec!["Error! There are not enough values on the stack. returns default value\n".to_string()]);
}

#[test]
fn show_stack_format() {
    let e = run("1 (a) true");
    assert_eq!(e.show_stack(), "Stack〔 1 | (a) | true 〕");
}

#[test]
fn blank_program_keeps_fuel_and_stack() {
    let mut e = Executor::new(Mode::Script);
    let left = e.evaluate_program(" \n\t ", &parse, &host, 5);
    assert_eq!(left, 5);
    assert!(e.stack.is_empty());
}

#[test]
fn push_then_pop_gives_value_back() {
    let mut e = run("1 2");
    e.push(Type::String("x".to_string()));
    let v = e.pop_stack();
    assert_eq!(v.get_string(), "x");
    assert_eq!(shown(&e), vec!["1", "2"]);
}

#[test]
fn matrix_literal_shape() {
    let e = run("{1, 2, 3; 4, 5, 6}");
    match &e.stack[0] {
        Type::Matrix(cells, (rows, cols)) => {
            assert_eq!(cells.len(), 6);
            assert_eq!((*rows, *cols), (2, 3));
        }
        _ => panic!("not a matrix"),
    }
}

#[test]
fn nested_list_literal() {
    let e = run("0 [1 [2 3] (4)]");
    assert_eq!(shown(&e), vec!["0", "[1 [2 3] (4)]"]);
}

#[test]
fn list_literal_that_pops_gives_empty_list() {
    let e = run("1 2 [pop pop]");
    assert_eq!(shown(&e), vec!["[]"]);
}

#[test]
fn while_stops_when_fuel_runs_out() {
    let mut e = Executor::new(Mode::Script);
    e.evaluate_program("(0) (true) while", &parse, &host, 20);
    assert!(e.stack.len() > 0);
}

#[test]
fn evaluation_keeps_variable_names_unique() {
    let e = run("1 (a) var 2 (a) var [1 2 3] (i) (i (a) var) for 4 (b) var 5 (a) var");
    let mut names: Vec<String> = e.memory.iter().map(|(n, _)| n.clone()).collect();
    let count = names.len();
    names.sort();
    names.dedup();
    assert_eq!(names.len(), count);
    assert_eq!(names, vec!["a".to_string(), "b".to_string(), "i".to_string()]);
}

#[test]
fn comment_program_keeps_stack_and_memory() {
    let mut e = run("1 (a) var 2");
    run_in(&mut e, "#one# #two three#");
    assert_eq!(shown(&e), vec!["2"]);
    assert_eq!(e.memory.len(), 1);
}

#[test]
fn list_literal_holds_what_its_code_pushes() {
    let e = run("7 [1 (x) true]");
    assert_eq!(shown(&e), vec!["7", "[1 (x) true]"]);
}

#[test]
fn string_as_list_gives_its_characters() {
    let s = Type::String("héllo".to_string());
    let items = s.get_list();
    assert_eq!(items.len(), 5);
    let back: String = items.iter().map(|x| x.get_string()).collect();
    assert_eq!(back, "héllo");
}

#[test]
fn matrix_display_cuts_rows() {
    let e = run("{1, 2, 3; 4, 5, 6}");
    assert_eq!(shown(&e), vec!["{ 1, 2, 3; 4, 5, 6}"]);
}

#[test]
fn evaluation_of_joined_programs_is_evaluation_in_turn() {
    let a = "1 (x) var [1 2] (i) (x i add (x) var) for";
    let b = "x 10 add (y) var (s t) x";
    let mut e = Executor::new(Mode::Script);
    run_in(&mut e, a);
    run_in(&mut e, b);
    let whole = run(&format!("{a} {b}"));
    assert_eq!(shown(&e), shown(&whole));
    let vars = |x: &Executor| -> Vec<(String, String)> {
        x.memory.iter().map(|(n, v)| (n.clone(), v.display())).collect()
    };
    assert_eq!(vars(&e), vars(&whole));
    assert_eq!(vars(&e), vec![("x".to_string(), "4".to_string()), ("i".to_string(), "2".to_string()), ("y".to_string(), "14".to_string())]);
}

#[test]
fn joined_program_splits_into_its_parts() {
    let a = "1 2 add (a) var";
    let b = "a a add";
    let whole = run(&format!("{a} {b}"));
    let mut e = Executor::new(Mode::Script);
    run_in(&mut e, a);
    run_in(&mut e, b);
    assert_eq!(shown(&whole), vec!["6"]);
    assert_eq!(shown(&e), shown(&whole));
}

#[test]
fn comment_text_leaves_stack_and_variables() {
    let mut e = run("5 (v) var 6");
    run_in(&mut e, "  #note (x y) [1]#\n\t#second#  ");
    assert_eq!(shown(&e), vec!["6"]);
    assert_eq!(e.memory.len(), 1);
    assert_eq!(e.memory[0].0, "v");
}
