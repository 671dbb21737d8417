use stack_lang::machine::{Executor, Mode};
use stack_lang::numeral::Numeral;
use stack_lang::value::Type;

fn numeral(x: f64) -> Numeral {
    Numeral { bits: x.to_bits(), text: x.to_string() }
}

fn parse(s: String) -> Option<Numeral> {
    s.parse::<f64>().ok().map(numeral)
}

fn host(_command: String, e: Executor) -> Executor {
    e
}

fn run(code: &str) -> Executor {
    let mut e = Executor::new(Mode::Script);
    e.evaluate_program(code, &parse, &host, 1_000_000);
    e
}

fn shown(code: &str) -> Vec<String> {
    run(code).stack.iter().map(|v| v.display()).collect()
}

#[test]
fn logic_commands() {
    assert_eq!(shown("true false and"), vec!["false"]);
    assert_eq!(shown("true false or"), vec!["true"]);
    assert_eq!(shown("false not"), vec!["true"]);
    assert_eq!(shown("(a) (a) equal"), vec!["true"]);
    assert_eq!(shown("1 (1) equal"), vec!["true"]);
}

#[test]
fn string_commands() {
    assert_eq!(shown("(ab) (cd) concat"), vec!["(abcd)"]);
    assert_eq!(shown("(a-b-c) (-) (+) replace"), vec!["(a+b+c)"]);
    assert_eq!(shown("(a,b,,c) (,) split"), vec!["[(a) (b) () (c)]"]);
    assert_eq!(shown("(Hello) (upper) case"), vec!["(HELLO)"]);
    assert_eq!(shown("(Hello) (lower) case"), vec!["(hello)"]);
    assert_eq!(shown("(Hello) (other) case"), vec!["(Hello)"]);
    assert_eq!(shown("[1 2 3] (-) join"), vec!["(1-2-3)"]);
    assert_eq!(shown("(haystack) (st) find"), vec!["true"]);
    assert_eq!(shown("(haystack) (xy) find"), vec!["false"]);
    assert_eq!(shown("(ab) 3 repeat"), vec!["(ababab)"]);
}

#[test]
fn encode_and_decode() {
    assert_eq!(shown("(A) encode"), vec!["65"]);
    assert_eq!(shown("97 decode"), vec!["(a)"]);
    assert_eq!(shown("() encode"), vec!["error:string-encoding"]);
    assert_eq!(shown("55296 decode"), vec!["error:number-decoding"]);
    assert_eq!(shown("1 (éa) encode decode"), vec!["1", "(é)"]);
    assert_eq!(shown("(😀!) encode decode"), vec!["(😀)"]);
}

#[test]
fn type_names() {
    assert_eq!(shown("1 type"), vec!["(number)"]);
    assert_eq!(shown("(s) type"), vec!["(string)"]);
    assert_eq!(shown("true type"), vec!["(bool)"]);
    assert_eq!(shown("[1] type"), vec!["(list)"]);
    assert_eq!(shown("error:e type"), vec!["(error)"]);
}

#[test]
fn stack_commands() {
    assert_eq!(shown("1 2 pop"), vec!["1"]);
    assert_eq!(shown("1 copy"), vec!["1", "1"]);
    assert_eq!(shown("1 2 swap"), vec!["2", "1"]);
    assert_eq!(shown("1 2 get-stack"), vec!["1", "2", "[1 2]"]);
    assert_eq!(shown("1 2 size-stack"), vec!["1", "2", "2"]);
}

#[test]
fn list_commands() {
    assert_eq!(shown("[1 2 3] reverse"), vec!["[3 2 1]"]);
    assert_eq!(shown("[1 2] 3 append"), vec!["[1 2 3]"]);
    assert_eq!(shown("[(a) (b) (c)] 1 get"), vec!["(b)"]);
    assert_eq!(shown("[(a) (b)] 5 get"), vec!["error:index-out-range"]);
    assert_eq!(shown("[(a) (b)] 0 (z) set"), vec!["[(z) (b)]"]);
    assert_eq!(shown("[(a) (b)] 0 del"), vec!["[(b)]"]);
    assert_eq!(shown("[(a) (c)] 1 (b) insert"), vec!["[(a) (b) (c)]"]);
    assert_eq!(shown("[1 2 3] len"), vec!["3"]);
    assert_eq!(shown("[(a) (b)] (b) index"), vec!["1"]);
    assert_eq!(shown("[(a) (b)] (z) index"), vec!["error:item-not-found"]);
    assert_eq!(shown("[(b) (c) (a)] sort"), vec!["[(a) (b) (c)]"]);
    assert_eq!(shown("(abc) len"), vec!["3"]);
}

#[test]
fn random_commands() {
    assert_eq!(shown("[7] rand"), vec!["7"]);
    assert_eq!(shown("[] rand"), vec!["[]"]);
    let e = run("[1 2 3] shuffle len");
    assert_eq!(e.stack[0].display(), "3");
}

#[test]
fn regex_command() {
    assert_eq!(shown("(a1b22c333) ([0-9]+) regex"), vec!["[(1) (22) (333)]"]);
    assert_eq!(shown("(abc) (\\() regex"), vec!["error:regex"]);
}

#[test]
fn cast_command() {
    assert_eq!(shown("(12) (number) cast"), vec!["12"]);
    assert_eq!(shown("12 (string) cast"), vec!["(12)"]);
    assert_eq!(shown("(x) (bool) cast"), vec!["true"]);
    assert_eq!(shown("(ab) (list) cast"), vec!["[(a) (b)]"]);
    assert_eq!(shown("(bad) (error) cast"), vec!["error:bad"]);
    assert_eq!(shown("(x) (other) cast"), vec!["(x)"]);
}

#[test]
fn objects() {
    let e = run("[(point) [(x)] [(y) 0]] [5] instance");
    assert_eq!(e.stack[0].kind_name(), "point");
    let e = run("[(point) [(x)] [(y) 0]] [5] instance (x) property");
    assert_eq!(e.stack[0].display(), "5");
    let e = run("[(point) [(x)] [(y) 0]] [5] instance (y) 9 modify (y) property");
    assert_eq!(e.stack[0].display(), "9");
    let e = run("[(point) [(x)] [(y) 0]] [5] instance all");
    assert_eq!(e.stack[0].display(), "[(x) (y)]");
    let e = run("[(point) [(x)]] [] instance");
    assert_eq!(e.stack[0].display(), "error:instance-shortage");
    let e = run("[] [] instance");
    assert_eq!(e.stack[0].display(), "error:instance-name");
}

#[test]
fn method_runs_property_code() {
    let e = run("[(box) [(v) 4] [(get) (self (v) property)]] [] instance (get) method");
    assert_eq!(e.stack[0].display(), "4");
}

#[test]
fn json_commands() {
    let e = run("({\"a\": 1, \"b\": \"x\"}) (a) get-json");
    assert_eq!(e.stack[0].kind_name(), "json");
    assert_eq!(e.stack[0].get_string(), "");
    let e = run("({\"a\": 1, \"b\": \"x\"}) (b) get-json");
    assert_eq!(e.stack[0].get_string(), "x");
    let e = run("({}) (k) (\"v\") set-json (k) get-json");
    assert_eq!(e.stack[0].get_string(), "v");
    let e = run("(1) (k) (2) set-json");
    assert_eq!(e.halted, Some("cannot access key \"k\" in JSON number".to_string()));
    let e = run("([1, 2]) (k) (2) set-json");
    assert_eq!(e.halted, Some("cannot access key \"k\" in JSON array".to_string()));
}

#[test]
fn template_refuses_statement_tags() {
    let e = run("({% include \"x\" %}) [(t) [(name) (Bob)]] [] instance template");
    assert_eq!(e.halted, Some("template tags other than {{ name }} are not supported".to_string()));
    let e = run("({{ range(end=3) }}) [(t) [(name) (Bob)]] [] instance template");
    assert!(e.halted.is_some());
    let e = run("(Hi {{ missing }}) [(t) [(name) (Bob)]] [] instance template");
    assert_eq!(e.halted, Some("template rendering failed".to_string()));
}

#[test]
fn template_command() {
    let e = run("(Hi {{ name }}!) [(t) [(name) (Bob)]] [] instance template");
    assert_eq!(e.stack[0].get_string(), "Hi Bob!");
    let e = run("(Hi) 5 template");
    assert_eq!(e.stack.len(), 2);
    assert_eq!(e.stack[0].display(), "(Hi)");
    assert_eq!(e.stack[1].display(), "error:not-object");
}
