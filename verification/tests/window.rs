use stack_lang::machine::{Executor, Mode};
use stack_lang::numeral::{to_i32, Numeral};
use stack_lang::value::Type;
use stack_lang::window::window_options;

fn numeral(x: f64) -> Numeral {
    Numeral { bits: x.to_bits(), text: x.to_string() }
}

fn parse(s: String) -> Option<Numeral> {
    s.parse::<f64>().ok().map(numeral)
}

fn host(_command: String, e: Executor) -> Executor {
    e
}

fn run(code: &str) -> Executor {
    let mut e = Executor::new(Mode::Script);
    e.evaluate_program(code, &parse, &host, 1_000_000);
    e
}

#[test]
fn window_options_read_properties() {
    let mut e = run("[(Main) [(width) 1024.7] [(layout) (<p>x</p>)]] [] instance");
    let option = e.pop_stack();
    let (title, width, height, layout) = window_options(&option, &parse);
    assert_eq!(title, "Main");
    assert_eq!(width, 1024);
    assert_eq!(height, 600);
    assert_eq!(layout, "<p>x</p>");
}

#[test]
fn window_options_default_for_other_values() {
    let (title, width, height, layout) = window_options(&Type::Bool(true), &parse);
    assert_eq!(title, "Hello");
    assert_eq!((width, height), (800, 600));
    assert_eq!(layout, "<h1>Hello, StackGUI !!!</h1>");
}

#[test]
fn window_event_runs_code_method() {
    let mut e = run("[(w) [(code) ((ok: ) swap concat)]] [] instance");
    let object = e.pop_stack();
    let (rest, script) = e.window_event("hello".to_string(), &object, &parse, &host, 1000);
    assert!(rest < 1000);
    assert_eq!(script, "ok: hello");
    assert!(e.stack.is_empty());
}

#[test]
fn number_to_i32_saturates_and_truncates() {
    assert_eq!(to_i32(&numeral(3.9)), 3);
    assert_eq!(to_i32(&numeral(-3.9)), -3);
    assert_eq!(to_i32(&numeral(1e12)), i32::MAX);
    assert_eq!(to_i32(&numeral(-1e12)), i32::MIN);
    assert_eq!(to_i32(&numeral(f64::NAN)), 0);
    assert_eq!(to_i32(&numeral(f64::NEG_INFINITY)), i32::MIN);
}
