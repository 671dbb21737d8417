//! Running programs: tokens are read one by one and either pushed as
//! values or executed as commands. Numbers are parsed, and the commands that
//! compute with fractions or reach the outside world are performed, by the
//! host: two functions the caller supplies.
use vstd::prelude::*;
use crate::value::{Type, Val, val_of, vals_of, lemma_vals_of, text_of, items_of};
use crate::machine::{Executor, Mode, stack_of, memory_of, log_of, logged, effect, arg, number_of, number_value, count_numeral};
use crate::numeral::Numeral;
use crate::store::{get_named, set_named};
use crate::text::{lit, same_text, chars_of, replace_str, starts_with, copy_string, views};
use crate::syntax::{analyze_syntax, literal_string, cut_text, cut, lemma_cut_nonempty};
use crate::commands::{does_and, does_or, does_not, does_equal, does_concat, does_replace, does_split, does_case,
    does_join, does_find, does_type, does_pop, does_copy, does_swap, does_get_stack, does_reverse, does_append,
    does_encode, does_sort, does_rand, does_shuffle, does_regex, does_get, does_set, does_del, does_insert,
    does_len, does_size_stack, does_decode, does_repeat, does_index, does_cast};
use crate::objects::{does_instance, does_property, does_modify, does_all, get_object};
use crate::memory::{does_var, does_free, does_mem};

verus! {

broadcast use vstd::std_specs::vec::group_vec_axioms;

/// The host's number parser may be called with any text.
pub open spec fn parser_total<P: Fn(String) -> Option<Numeral>>(parse: P) -> bool {
    forall|a: String| call_requires(parse, (a,))
}

/// The host's command runner may be called with any command and state.
pub open spec fn host_total<C: Fn(String, Executor) -> Executor>(host: C) -> bool {
    forall|a: String, e: Executor| call_requires(host, (a, e))
}

/// The commands the host performs: arithmetic on fractions, files, the
/// console, the network, the clipboard, sound, images, windows, databases,
/// matrices, threads and time.
pub open spec fn is_host_name(n: Seq<char>) -> bool {
    n == "add"@ ||
        n == "sub"@ ||
        n == "mul"@ ||
        n == "div"@ ||
        n == "mod"@ ||
        n == "pow"@ ||
        n == "round"@ ||
        n == "sin"@ ||
        n == "cos"@ ||
        n == "tan"@ ||
        n == "less"@ ||
        n == "write-file"@ ||
        n == "read-file"@ ||
        n == "read-binary"@ ||
        n == "input"@ ||
        n == "print"@ ||
        n == "println"@ ||
        n == "args-cmd"@ ||
        n == "play-sound"@ ||
        n == "play-file"@ ||
        n == "cls"@ ||
        n == "clear"@ ||
        n == "thread"@ ||
        n == "exit"@ ||
        n == "range"@ ||
        n == "now-time"@ ||
        n == "sleep"@ ||
        n == "request"@ ||
        n == "open"@ ||
        n == "cd"@ ||
        n == "pwd"@ ||
        n == "mkdir"@ ||
        n == "rm"@ ||
        n == "rename"@ ||
        n == "cp"@ ||
        n == "size-file"@ ||
        n == "ls"@ ||
        n == "folder"@ ||
        n == "sys-info"@ ||
        n == "set-clipboard"@ ||
        n == "get-clipboard"@ ||
        n == "sql"@ ||
        n == "start-server"@ ||
        n == "scalar-mul"@ ||
        n == "add-matrix"@ ||
        n == "sub-matrix"@ ||
        n == "mul-matrix"@ ||
        n == "transpose"@ ||
        n == "graph"@ ||
        n == "open-image"@ ||
        n == "show-image"@ ||
        n == "to-grayscale"@ ||
        n == "invert-color"@ ||
        n == "flip-image"@ ||
        n == "gaussian-blur"@ ||
        n == "resize-image"@ ||
        n == "edge-detect"@ ||
        n == "color-map"@ ||
        n == "morphology-operation"@ ||
        n == "histogram-equalization"@ ||
        n == "save-image"@ ||
        n == "to-sharpe"@ ||
        n == "gui"@ ||
        n == "msgbox"@
}

/// The commands that evaluate code.
pub open spec fn is_control_name(n: Seq<char>) -> bool {
    n == "eval"@ ||
        n == "if"@ ||
        n == "while"@ ||
        n == "for"@ ||
        n == "map"@ ||
        n == "filter"@ ||
        n == "reduce"@ ||
        n == "method"@
}

/// The commands on the stack, variables and values alone.
pub open spec fn is_library_name(n: Seq<char>) -> bool {
    n == "and"@ ||
        n == "or"@ ||
        n == "not"@ ||
        n == "equal"@ ||
        n == "concat"@ ||
        n == "replace"@ ||
        n == "split"@ ||
        n == "case"@ ||
        n == "join"@ ||
        n == "find"@ ||
        n == "type"@ ||
        n == "pop"@ ||
        n == "copy"@ ||
        n == "swap"@ ||
        n == "get-stack"@ ||
        n == "reverse"@ ||
        n == "append"@ ||
        n == "encode"@ ||
        n == "sort"@ ||
        n == "rand"@ ||
        n == "shuffle"@ ||
        n == "regex"@ ||
        n == "instance"@ ||
        n == "property"@ ||
        n == "modify"@ ||
        n == "all"@ ||
        n == "var"@ ||
        n == "free"@ ||
        n == "mem"@ ||
        n == "get"@ ||
        n == "set"@ ||
        n == "del"@ ||
        n == "insert"@ ||
        n == "len"@ ||
        n == "size-stack"@ ||
        n == "decode"@ ||
        n == "repeat"@ ||
        n == "index"@ ||
        n == "cast"@ ||
        n == "get-json"@ ||
        n == "set-json"@ ||
        n == "template"@
}

/// What a command on the stack, variables and values alone does (`true`
/// for other names).
pub open spec fn command_done<P: Fn(String) -> Option<Numeral>>(name: Seq<char>, o: Executor, f: Executor, parse: P) -> bool {
    if name == "and"@ {
        does_and(o, f)
    } else if name == "or"@ {
        does_or(o, f)
    } else if name == "not"@ {
        does_not(o, f)
    } else if name == "equal"@ {
        does_equal(o, f)
    } else if name == "concat"@ {
        does_concat(o, f)
    } else if name == "replace"@ {
        does_replace(o, f)
    } else if name == "split"@ {
        does_split(o, f)
    } else if name == "case"@ {
        does_case(o, f)
    } else if name == "join"@ {
        does_join(o, f)
    } else if name == "find"@ {
        does_find(o, f)
    } else if name == "type"@ {
        does_type(o, f)
    } else if name == "pop"@ {
        does_pop(o, f)
    } else if name == "copy"@ {
        does_copy(o, f)
    } else if name == "swap"@ {
        does_swap(o, f)
    } else if name == "get-stack"@ {
        does_get_stack(o, f)
    } else if name == "reverse"@ {
        does_reverse(o, f)
    } else if name == "append"@ {
        does_append(o, f)
    } else if name == "encode"@ {
        does_encode(o, f)
    } else if name == "sort"@ {
        does_sort(o, f)
    } else if name == "rand"@ {
        does_rand(o, f)
    } else if name == "shuffle"@ {
        does_shuffle(o, f)
    } else if name == "regex"@ {
        does_regex(o, f)
    } else if name == "instance"@ {
        does_instance(o, f)
    } else if name == "property"@ {
        does_property(o, f)
    } else if name == "modify"@ {
        does_modify(o, f)
    } else if name == "all"@ {
        does_all(o, f)
    } else if name == "var"@ {
        does_var(o, f)
    } else if name == "free"@ {
        does_free(o, f)
    } else if name == "mem"@ {
        does_mem(o, f)
    } else if name == "get"@ {
        does_get(o, f, parse)
    } else if name == "set"@ {
        does_set(o, f, parse)
    } else if name == "del"@ {
        does_del(o, f, parse)
    } else if name == "insert"@ {
        does_insert(o, f, parse)
    } else if name == "len"@ {
        does_len(o, f, parse)
    } else if name == "size-stack"@ {
        does_size_stack(o, f, parse)
    } else if name == "decode"@ {
        does_decode(o, f, parse)
    } else if name == "repeat"@ {
        does_repeat(o, f, parse)
    } else if name == "index"@ {
        does_index(o, f, parse)
    } else if name == "cast"@ {
        does_cast(o, f, parse)
    } else if name == "get-json"@ {
        crate::documents::does_get_json(o, f)
    } else if name == "set-json"@ {
        crate::documents::does_set_json(o, f)
    } else if name == "template"@ {
        crate::documents::does_template(o, f)
    } else {
        true
    }
}

/// The control commands are neither host nor library commands, and differ.
pub proof fn lemma_control_words()
    ensures
        !is_host_name("eval"@),
        !is_library_name("eval"@),
        is_control_name("eval"@),
        !is_host_name("if"@),
        !is_library_name("if"@),
        is_control_name("if"@),
        !is_host_name("method"@),
        !is_library_name("method"@),
        is_control_name("method"@),
        !is_host_name("while"@),
        !is_library_name("while"@),
        is_control_name("while"@),
        !is_host_name("for"@),
        !is_library_name("for"@),
        is_control_name("for"@),
        !is_host_name("map"@),
        !is_library_name("map"@),
        is_control_name("map"@),
        !is_host_name("filter"@),
        !is_library_name("filter"@),
        is_control_name("filter"@),
        !is_host_name("reduce"@),
        !is_library_name("reduce"@),
        is_control_name("reduce"@),
        "eval"@ != "if"@,
        "eval"@ != "method"@,
        "eval"@ != "while"@,
        "eval"@ != "for"@,
        "eval"@ != "map"@,
        "eval"@ != "filter"@,
        "eval"@ != "reduce"@,
        "if"@ != "method"@,
        "if"@ != "while"@,
        "if"@ != "for"@,
        "if"@ != "map"@,
        "if"@ != "filter"@,
        "if"@ != "reduce"@,
        "method"@ != "while"@,
        "method"@ != "for"@,
        "method"@ != "map"@,
        "method"@ != "filter"@,
        "method"@ != "reduce"@,
        "while"@ != "for"@,
        "while"@ != "map"@,
        "while"@ != "filter"@,
        "while"@ != "reduce"@,
        "for"@ != "map"@,
        "for"@ != "filter"@,
        "for"@ != "reduce"@,
        "map"@ != "filter"@,
        "map"@ != "reduce"@,
        "filter"@ != "reduce"@,
{
    reveal_strlit("eval");
    reveal_strlit("if");
    reveal_strlit("method");
    reveal_strlit("while");
    reveal_strlit("for");
    reveal_strlit("map");
    reveal_strlit("filter");
    reveal_strlit("reduce");
    reveal_strlit("add");
    assert("add"@.len() == 3);
    assert("add"@[0] == 'a');
    assert("for"@[0] == 'f');
    assert("add"@[0] == 'a');
    assert("map"@[0] == 'm');
    reveal_strlit("add-matrix");
    assert("add-matrix"@.len() == 10);
    reveal_strlit("all");
    assert("all"@.len() == 3);
    assert("all"@[0] == 'a');
    assert("for"@[0] == 'f');
    assert("all"@[0] == 'a');
    assert("map"@[0] == 'm');
    reveal_strlit("and");
    assert("and"@.len() == 3);
    assert("and"@[0] == 'a');
    assert("for"@[0] == 'f');
    assert("and"@[0] == 'a');
    assert("map"@[0] == 'm');
    reveal_strlit("append");
    assert("append"@.len() == 6);
    assert("append"@[0] == 'a');
    assert("method"@[0] == 'm');
    assert("append"@[0] == 'a');
    assert("filter"@[0] == 'f');
    assert("append"@[0] == 'a');
    assert("reduce"@[0] == 'r');
    reveal_strlit("args-cmd");
    assert("args-cmd"@.len() == 8);
    reveal_strlit("case");
    assert("case"@.len() == 4);
    assert("case"@[0] == 'c');
    assert("eval"@[0] == 'e');
    reveal_strlit("cast");
    assert("cast"@.len() == 4);
    assert("cast"@[0] == 'c');
    assert("eval"@[0] == 'e');
    reveal_strlit("cd");
    assert("cd"@.len() == 2);
    assert("cd"@[0] == 'c');
    assert("if"@[0] == 'i');
    reveal_strlit("clear");
    assert("clear"@.len() == 5);
    assert("clear"@[0] == 'c');
    assert("while"@[0] == 'w');
    reveal_strlit("cls");
    assert("cls"@.len() == 3);
    assert("cls"@[0] == 'c');
    assert("for"@[0] == 'f');
    assert("cls"@[0] == 'c');
    assert("map"@[0] == 'm');
    reveal_strlit("color-map");
    assert("color-map"@.len() == 9);
    reveal_strlit("concat");
    assert("concat"@.len() == 6);
    assert("concat"@[0] == 'c');
    assert("method"@[0] == 'm');
    assert("concat"@[0] == 'c');
    assert("filter"@[0] == 'f');
    assert("concat"@[0] == 'c');
    assert("reduce"@[0] == 'r');
    reveal_strlit("copy");
    assert("copy"@.len() == 4);
    assert("copy"@[0] == 'c');
    assert("eval"@[0] == 'e');
    reveal_strlit("cos");
    assert("cos"@.len() == 3);
    assert("cos"@[0] == 'c');
    assert("for"@[0] == 'f');
    assert("cos"@[0] == 'c');
    assert("map"@[0] == 'm');
    reveal_strlit("cp");
    assert("cp"@.len() == 2);
    assert("cp"@[0] == 'c');
    assert("if"@[0] == 'i');
    reveal_strlit("decode");
    assert("decode"@.len() == 6);
    assert("decode"@[0] == 'd');
    assert("method"@[0] == 'm');
    assert("decode"@[0] == 'd');
    assert("filter"@[0] == 'f');
    assert("decode"@[0] == 'd');
    assert("reduce"@[0] == 'r');
    reveal_strlit("del");
    assert("del"@.len() == 3);
    assert("del"@[0] == 'd');
    assert("for"@[0] == 'f');
    assert("del"@[0] == 'd');
    assert("map"@[0] == 'm');
    reveal_strlit("div");
    assert("div"@.len() == 3);
    assert("div"@[0] == 'd');
    assert("for"@[0] == 'f');
    assert("div"@[0] == 'd');
    assert("map"@[0] == 'm');
    reveal_strlit("edge-detect");
    assert("edge-detect"@.len() == 11);
    reveal_strlit("encode");
    assert("encode"@.len() == 6);
    assert("encode"@[0] == 'e');
    assert("method"@[0] == 'm');
    assert("encode"@[0] == 'e');
    assert("filter"@[0] == 'f');
    assert("encode"@[0] == 'e');
    assert("reduce"@[0] == 'r');
    reveal_strlit("equal");
    assert("equal"@.len() == 5);
    assert("equal"@[0] == 'e');
    assert("while"@[0] == 'w');
    assert("eval"@.len() == 4);
    reveal_strlit("exit");
    assert("exit"@.len() == 4);
    assert("exit"@[1] == 'x');
    assert("eval"@[1] == 'v');
    assert("filter"@.len() == 6);
    assert("filter"@[0] == 'f');
    assert("method"@[0] == 'm');
    assert("filter"@[0] == 'f');
    assert("reduce"@[0] == 'r');
    reveal_strlit("find");
    assert("find"@.len() == 4);
    assert("find"@[0] == 'f');
    assert("eval"@[0] == 'e');
    reveal_strlit("flip-image");
    assert("flip-image"@.len() == 10);
    reveal_strlit("folder");
    assert("folder"@.len() == 6);
    assert("folder"@[0] == 'f');
    assert("method"@[0] == 'm');
    assert("folder"@[1] == 'o');
    assert("filter"@[1] == 'i');
    assert("folder"@[0] == 'f');
    assert("reduce"@[0] == 'r');
    assert("for"@.len() == 3);
    assert("for"@[0] == 'f');
    assert("map"@[0] == 'm');
    reveal_strlit("free");
    assert("free"@.len() == 4);
    assert("free"@[0] == 'f');
    assert("eval"@[0] == 'e');
    reveal_strlit("gaussian-blur");
    assert("gaussian-blur"@.len() == 13);
    reveal_strlit("get");
    assert("get"@.len() == 3);
    assert("get"@[0] == 'g');
    assert("for"@[0] == 'f');
    assert("get"@[0] == 'g');
    assert("map"@[0] == 'm');
    reveal_strlit("get-clipboard");
    assert("get-clipboard"@.len() == 13);
    reveal_strlit("get-json");
    assert("get-json"@.len() == 8);
    reveal_strlit("get-stack");
    assert("get-stack"@.len() == 9);
    reveal_strlit("graph");
    assert("graph"@.len() == 5);
    assert("graph"@[0] == 'g');
    assert("while"@[0] == 'w');
    reveal_strlit("gui");
    assert("gui"@.len() == 3);
    assert("gui"@[0] == 'g');
    assert("for"@[0] == 'f');
    assert("gui"@[0] == 'g');
    assert("map"@[0] == 'm');
    reveal_strlit("histogram-equalization");
    assert("histogram-equalization"@.len() == 22);
    assert("if"@.len() == 2);
    reveal_strlit("index");
    assert("index"@.len() == 5);
    assert("index"@[0] == 'i');
    assert("while"@[0] == 'w');
    reveal_strlit("input");
    assert("input"@.len() == 5);
    assert("input"@[0] == 'i');
    assert("while"@[0] == 'w');
    reveal_strlit("insert");
    assert("insert"@.len() == 6);
    assert("insert"@[0] == 'i');
    assert("method"@[0] == 'm');
    assert("insert"@[0] == 'i');
    assert("filter"@[0] == 'f');
    assert("insert"@[0] == 'i');
    assert("reduce"@[0] == 'r');
    reveal_strlit("instance");
    assert("instance"@.len() == 8);
    reveal_strlit("invert-color");
    assert("invert-color"@.len() == 12);
    reveal_strlit("join");
    assert("join"@.len() == 4);
    assert("join"@[0] == 'j');
    assert("eval"@[0] == 'e');
    reveal_strlit("len");
    assert("len"@.len() == 3);
    assert("len"@[0] == 'l');
    assert("for"@[0] == 'f');
    assert("len"@[0] == 'l');
    assert("map"@[0] == 'm');
    reveal_strlit("less");
    assert("less"@.len() == 4);
    assert("less"@[0] == 'l');
    assert("eval"@[0] == 'e');
    reveal_strlit("ls");
    assert("ls"@.len() == 2);
    assert("ls"@[0] == 'l');
    assert("if"@[0] == 'i');
    assert("map"@.len() == 3);
    assert("map"@[0] == 'm');
    assert("for"@[0] == 'f');
    reveal_strlit("mem");
    assert("mem"@.len() == 3);
    assert("mem"@[0] == 'm');
    assert("for"@[0] == 'f');
    assert("mem"@[1] == 'e');
    assert("map"@[1] == 'a');
    assert("method"@.len() == 6);
    assert("method"@[0] == 'm');
    assert("filter"@[0] == 'f');
    assert("method"@[0] == 'm');
    assert("reduce"@[0] == 'r');
    reveal_strlit("mkdir");
    assert("mkdir"@.len() == 5);
    assert("mkdir"@[0] == 'm');
    assert("while"@[0] == 'w');
    reveal_strlit("mod");
    assert("mod"@.len() == 3);
    assert("mod"@[0] == 'm');
    assert("for"@[0] == 'f');
    assert("mod"@[1] == 'o');
    assert("map"@[1] == 'a');
    reveal_strlit("modify");
    assert("modify"@.len() == 6);
    assert("modify"@[1] == 'o');
    assert("method"@[1] == 'e');
    assert("modify"@[0] == 'm');
    assert("filter"@[0] == 'f');
    assert("modify"@[0] == 'm');
    assert("reduce"@[0] == 'r');
    reveal_strlit("morphology-operation");
    assert("morphology-operation"@.len() == 20);
    reveal_strlit("msgbox");
    assert("msgbox"@.len() == 6);
    assert("msgbox"@[1] == 's');
    assert("method"@[1] == 'e');
    assert("msgbox"@[0] == 'm');
    assert("filter"@[0] == 'f');
    assert("msgbox"@[0] == 'm');
    assert("reduce"@[0] == 'r');
    reveal_strlit("mul");
    assert("mul"@.len() == 3);
    assert("mul"@[0] == 'm');
    assert("for"@[0] == 'f');
    assert("mul"@[1] == 'u');
    assert("map"@[1] == 'a');
    reveal_strlit("mul-matrix");
    assert("mul-matrix"@.len() == 10);
    reveal_strlit("not");
    assert("not"@.len() == 3);
    assert("not"@[0] == 'n');
    assert("for"@[0] == 'f');
    assert("not"@[0] == 'n');
    assert("map"@[0] == 'm');
    reveal_strlit("now-time");
    assert("now-time"@.len() == 8);
    reveal_strlit("open");
    assert("open"@.len() == 4);
    assert("open"@[0] == 'o');
    assert("eval"@[0] == 'e');
    reveal_strlit("open-image");
    assert("open-image"@.len() == 10);
    reveal_strlit("or");
    assert("or"@.len() == 2);
    assert("or"@[0] == 'o');
    assert("if"@[0] == 'i');
    reveal_strlit("play-file");
    assert("play-file"@.len() == 9);
    reveal_strlit("play-sound");
    assert("play-sound"@.len() == 10);
    reveal_strlit("pop");
    assert("pop"@.len() == 3);
    assert("pop"@[0] == 'p');
    assert("for"@[0] == 'f');
    assert("pop"@[0] == 'p');
    assert("map"@[0] == 'm');
    reveal_strlit("pow");
    assert("pow"@.len() == 3);
    assert("pow"@[0] == 'p');
    assert("for"@[0] == 'f');
    assert("pow"@[0] == 'p');
    assert("map"@[0] == 'm');
    reveal_strlit("print");
    assert("print"@.len() == 5);
    assert("print"@[0] == 'p');
    assert("while"@[0] == 'w');
    reveal_strlit("println");
    assert("println"@.len() == 7);
    reveal_strlit("property");
    assert("property"@.len() == 8);
    reveal_strlit("pwd");
    assert("pwd"@.len() == 3);
    assert("pwd"@[0] == 'p');
    assert("for"@[0] == 'f');
    assert("pwd"@[0] == 'p');
    assert("map"@[0] == 'm');
    reveal_strlit("rand");
    assert("rand"@.len() == 4);
    assert("rand"@[0] == 'r');
    assert("eval"@[0] == 'e');
    reveal_strlit("range");
    assert("range"@.len() == 5);
    assert("range"@[0] == 'r');
    assert("while"@[0] == 'w');
    reveal_strlit("read-binary");
    assert("read-binary"@.len() == 11);
    reveal_strlit("read-file");
    assert("read-file"@.len() == 9);
    assert("reduce"@.len() == 6);
    assert("reduce"@[0] == 'r');
    assert("method"@[0] == 'm');
    assert("reduce"@[0] == 'r');
    assert("filter"@[0] == 'f');
    reveal_strlit("regex");
    assert("regex"@.len() == 5);
    assert("regex"@[0] == 'r');
    assert("while"@[0] == 'w');
    reveal_strlit("rename");
    assert("rename"@.len() == 6);
    assert("rename"@[0] == 'r');
    assert("method"@[0] == 'm');
    assert("rename"@[0] == 'r');
    assert("filter"@[0] == 'f');
    assert("rename"@[2] == 'n');
    assert("reduce"@[2] == 'd');
    reveal_strlit("repeat");
    assert("repeat"@.len() == 6);
    assert("repeat"@[0] == 'r');
    assert("method"@[0] == 'm');
    assert("repeat"@[0] == 'r');
    assert("filter"@[0] == 'f');
    assert("repeat"@[2] == 'p');
    assert("reduce"@[2] == 'd');
    reveal_strlit("replace");
    assert("replace"@.len() == 7);
    reveal_strlit("request");
    assert("request"@.len() == 7);
    reveal_strlit("resize-image");
    assert("resize-image"@.len() == 12);
    reveal_strlit("reverse");
    assert("reverse"@.len() == 7);
    reveal_strlit("rm");
    assert("rm"@.len() == 2);
    assert("rm"@[0] == 'r');
    assert("if"@[0] == 'i');
    reveal_strlit("round");
    assert("round"@.len() == 5);
    assert("round"@[0] == 'r');
    assert("while"@[0] == 'w');
    reveal_strlit("save-image");
    assert("save-image"@.len() == 10);
    reveal_strlit("scalar-mul");
    assert("scalar-mul"@.len() == 10);
    reveal_strlit("set");
    assert("set"@.len() == 3);
    assert("set"@[0] == 's');
    assert("for"@[0] == 'f');
    assert("set"@[0] == 's');
    assert("map"@[0] == 'm');
    reveal_strlit("set-clipboard");
    assert("set-clipboard"@.len() == 13);
    reveal_strlit("set-json");
    assert("set-json"@.len() == 8);
    reveal_strlit("show-image");
    assert("show-image"@.len() == 10);
    reveal_strlit("shuffle");
    assert("shuffle"@.len() == 7);
    reveal_strlit("sin");
    assert("sin"@.len() == 3);
    assert("sin"@[0] == 's');
    assert("for"@[0] == 'f');
    assert("sin"@[0] == 's');
    assert("map"@[0] == 'm');
    reveal_strlit("size-file");
    assert("size-file"@.len() == 9);
    reveal_strlit("size-stack");
    assert("size-stack"@.len() == 10);
    reveal_strlit("sleep");
    assert("sleep"@.len() == 5);
    assert("sleep"@[0] == 's');
    assert("while"@[0] == 'w');
    reveal_strlit("sort");
    assert("sort"@.len() == 4);
    assert("sort"@[0] == 's');
    assert("eval"@[0] == 'e');
    reveal_strlit("split");
    assert("split"@.len() == 5);
    assert("split"@[0] == 's');
    assert("while"@[0] == 'w');
    reveal_strlit("sql");
    assert("sql"@.len() == 3);
    assert("sql"@[0] == 's');
    assert("for"@[0] == 'f');
    assert("sql"@[0] == 's');
    assert("map"@[0] == 'm');
    reveal_strlit("start-server");
    assert("start-server"@.len() == 12);
    reveal_strlit("sub");
    assert("sub"@.len() == 3);
    assert("sub"@[0] == 's');
    assert("for"@[0] == 'f');
    assert("sub"@[0] == 's');
    assert("map"@[0] == 'm');
    reveal_strlit("sub-matrix");
    assert("sub-matrix"@.len() == 10);
    reveal_strlit("swap");
    assert("swap"@.len() == 4);
    assert("swap"@[0] == 's');
    assert("eval"@[0] == 'e');
    reveal_strlit("sys-info");
    assert("sys-info"@.len() == 8);
    reveal_strlit("tan");
    assert("tan"@.len() == 3);
    assert("tan"@[0] == 't');
    assert("for"@[0] == 'f');
    assert("tan"@[0] == 't');
    assert("map"@[0] == 'm');
    reveal_strlit("template");
    assert("template"@.len() == 8);
    reveal_strlit("thread");
    assert("thread"@.len() == 6);
    assert("thread"@[0] == 't');
    assert("method"@[0] == 'm');
    assert("thread"@[0] == 't');
    assert("filter"@[0] == 'f');
    assert("thread"@[0] == 't');
    assert("reduce"@[0] == 'r');
    reveal_strlit("to-grayscale");
    assert("to-grayscale"@.len() == 12);
    reveal_strlit("to-sharpe");
    assert("to-sharpe"@.len() == 9);
    reveal_strlit("transpose");
    assert("transpose"@.len() == 9);
    reveal_strlit("type");
    assert("type"@.len() == 4);
    assert("type"@[0] == 't');
    assert("eval"@[0] == 'e');
    reveal_strlit("var");
    assert("var"@.len() == 3);
    assert("var"@[0] == 'v');
    assert("for"@[0] == 'f');
    assert("var"@[0] == 'v');
    assert("map"@[0] == 'm');
    assert("while"@.len() == 5);
    reveal_strlit("write-file");
    assert("write-file"@.len() == 10);
}

/// Whether a command is performed by the host.
pub fn is_host_command(n: &str) -> (r: bool)
    ensures
        r == is_host_name(n@),
{
    same_text(n, "add") ||
        same_text(n, "sub") ||
        same_text(n, "mul") ||
        same_text(n, "div") ||
        same_text(n, "mod") ||
        same_text(n, "pow") ||
        same_text(n, "round") ||
        same_text(n, "sin") ||
        same_text(n, "cos") ||
        same_text(n, "tan") ||
        same_text(n, "less") ||
        same_text(n, "write-file") ||
        same_text(n, "read-file") ||
        same_text(n, "read-binary") ||
        same_text(n, "input") ||
        same_text(n, "print") ||
        same_text(n, "println") ||
        same_text(n, "args-cmd") ||
        same_text(n, "play-sound") ||
        same_text(n, "play-file") ||
        same_text(n, "cls") ||
        same_text(n, "clear") ||
        same_text(n, "thread") ||
        same_text(n, "exit") ||
        same_text(n, "range") ||
        same_text(n, "now-time") ||
        same_text(n, "sleep") ||
        same_text(n, "request") ||
        same_text(n, "open") ||
        same_text(n, "cd") ||
        same_text(n, "pwd") ||
        same_text(n, "mkdir") ||
        same_text(n, "rm") ||
        same_text(n, "rename") ||
        same_text(n, "cp") ||
        same_text(n, "size-file") ||
        same_text(n, "ls") ||
        same_text(n, "folder") ||
        same_text(n, "sys-info") ||
        same_text(n, "set-clipboard") ||
        same_text(n, "get-clipboard") ||
        same_text(n, "sql") ||
        same_text(n, "start-server") ||
        same_text(n, "scalar-mul") ||
        same_text(n, "add-matrix") ||
        same_text(n, "sub-matrix") ||
        same_text(n, "mul-matrix") ||
        same_text(n, "transpose") ||
        same_text(n, "graph") ||
        same_text(n, "open-image") ||
        same_text(n, "show-image") ||
        same_text(n, "to-grayscale") ||
        same_text(n, "invert-color") ||
        same_text(n, "flip-image") ||
        same_text(n, "gaussian-blur") ||
        same_text(n, "resize-image") ||
        same_text(n, "edge-detect") ||
        same_text(n, "color-map") ||
        same_text(n, "morphology-operation") ||
        same_text(n, "histogram-equalization") ||
        same_text(n, "save-image") ||
        same_text(n, "to-sharpe") ||
        same_text(n, "gui") ||
        same_text(n, "msgbox")
}

impl Executor {
    /// A copy of the executor.
    pub fn duplicate(&self) -> (r: Executor)
        ensures
            stack_of(r) == stack_of(*self),
            memory_of(r) == memory_of(*self),
            log_of(r) == log_of(*self),
            r.mode == self.mode,
            r.halted == self.halted,
    {
        let stack = crate::value::copy_values(&self.stack);
        let mut memory: Vec<(String, Type)> = Vec::new();
        let mut i: usize = 0;
        while i < self.memory.len()
            invariant
                i <= self.memory@.len(),
                memory@.len() == i,
                forall|j: int| 0 <= j < i ==> (#[trigger] memory@[j]).0@ == self.memory@[j].0@
                    && val_of(memory@[j].1) == val_of(self.memory@[j].1),
            decreases self.memory@.len() - i,
        {
            memory.push((copy_string(&self.memory[i].0), self.memory[i].1.duplicate()));
            i = i + 1;
        }
        proof {
            crate::value::lemma_fields_ext(memory@, self.memory@);
        }
        let mut log: Vec<String> = Vec::new();
        let mut k: usize = 0;
        while k < self.log.len()
            invariant
                k <= self.log@.len(),
                log@.len() == k,
                forall|j: int| 0 <= j < k ==> (#[trigger] log@[j])@ == self.log@[j]@,
            decreases self.log@.len() - k,
        {
            log.push(copy_string(&self.log[k]));
            k = k + 1;
        }
        proof {
            assert(crate::text::views(log@) =~= crate::text::views(self.log@));
        }
        let mode = match self.mode {
            Mode::Script => Mode::Script,
            Mode::Debug => Mode::Debug,
        };
        let halted = match &self.halted {
            Some(m) => Some(m.clone()),
            None => None,
        };
        Executor { stack, memory, mode, log, halted }
    }

    /// Hands the executor to the host to perform a command.
    fn run_on_host<C>(&mut self, command: String, host: &C)
        where
            C: Fn(String, Executor) -> Executor,
        requires
            host_total(*host),
        ensures
            call_ensures(*host, (command, *old(self)), *final(self)),
    {
        let mut taken = Executor::new(Mode::Script);
        std::mem::swap(self, &mut taken);
        let result = host(command, taken);
        *self = result;
    }

    /// Executes a command: a library command as its contract says, a host
    /// command by the host, a control command by evaluating code; any other
    /// word is pushed as a string.
    pub fn execute_command<P, C>(&mut self, command: String, parse: &P, host: &C, fuel: u64) -> (rest: u64)
        where
            P: Fn(String) -> Option<Numeral>,
            C: Fn(String, Executor) -> Executor,
        requires
            parser_total(*parse),
            host_total(*host),
        ensures
            rest <= fuel,
            command_ran(command@, *old(self), *final(self), *parse, *host, fuel as nat + 1, rest as nat),
        decreases fuel, 2u64,
    {
        let c = command.as_str();
        proof {
            lemma_control_words();
        }
        if same_text(c, "eval") {
            let ghost o = *self;
            let code = self.pop_stack().get_string();
            let ghost m = *self;
            proof {
                crate::machine::lemma_effect_pop1(o, m);
            }
            let r = self.evaluate_program(code.as_str(), parse, host, fuel);
            proof {
                assert(effect(o, m, 1, seq![], seq![]));
            }
            return r;
        } else if same_text(c, "if") {
            let ghost o = *self;
            let (cv, ev, iv) = self.pop3();
            let ghost m = *self;
            let condition = cv.get_bool();
            let code_else = ev.get_string();
            let code_if = iv.get_string();
            let r = if condition {
                self.evaluate_program(code_if.as_str(), parse, host, fuel)
            } else {
                self.evaluate_program(code_else.as_str(), parse, host, fuel)
            };
            proof {
                assert(effect(o, m, 3, seq![], seq![]));
            }
            return r;
        } else if same_text(c, "while") {
            return self.run_while(parse, host, fuel);
        } else if same_text(c, "for") {
            return self.run_for(parse, host, fuel);
        } else if same_text(c, "map") {
            return self.run_map(parse, host, fuel);
        } else if same_text(c, "filter") {
            return self.run_filter(parse, host, fuel);
        } else if same_text(c, "reduce") {
            return self.run_reduce(parse, host, fuel);
        } else if same_text(c, "method") {
            return self.run_method(parse, host, fuel);
        } else if same_text(c, "and") {
            self.cmd_and();
        } else if same_text(c, "or") {
            self.cmd_or();
        } else if same_text(c, "not") {
            self.cmd_not();
        } else if same_text(c, "equal") {
            self.cmd_equal();
        } else if same_text(c, "concat") {
            self.cmd_concat();
        } else if same_text(c, "replace") {
            self.cmd_replace();
        } else if same_text(c, "split") {
            self.cmd_split();
        } else if same_text(c, "case") {
            self.cmd_case();
        } else if same_text(c, "join") {
            self.cmd_join();
        } else if same_text(c, "find") {
            self.cmd_find();
        } else if same_text(c, "type") {
            self.cmd_type();
        } else if same_text(c, "pop") {
            self.cmd_pop();
        } else if same_text(c, "copy") {
            self.cmd_copy();
        } else if same_text(c, "swap") {
            self.cmd_swap();
        } else if same_text(c, "get-stack") {
            self.cmd_get_stack();
        } else if same_text(c, "reverse") {
            self.cmd_reverse();
        } else if same_text(c, "append") {
            self.cmd_append();
        } else if same_text(c, "encode") {
            self.cmd_encode();
        } else if same_text(c, "sort") {
            self.cmd_sort();
        } else if same_text(c, "rand") {
            self.cmd_rand();
        } else if same_text(c, "shuffle") {
            self.cmd_shuffle();
        } else if same_text(c, "regex") {
            self.cmd_regex();
        } else if same_text(c, "instance") {
            self.cmd_instance();
        } else if same_text(c, "property") {
            self.cmd_property();
        } else if same_text(c, "modify") {
            self.cmd_modify();
        } else if same_text(c, "all") {
            self.cmd_all();
        } else if same_text(c, "var") {
            self.cmd_var();
        } else if same_text(c, "free") {
            self.cmd_free();
        } else if same_text(c, "mem") {
            self.cmd_mem();
        } else if same_text(c, "get") {
            self.cmd_get(parse);
        } else if same_text(c, "set") {
            self.cmd_set(parse);
        } else if same_text(c, "del") {
            self.cmd_del(parse);
        } else if same_text(c, "insert") {
            self.cmd_insert(parse);
        } else if same_text(c, "len") {
            self.cmd_len(parse);
        } else if same_text(c, "size-stack") {
            self.cmd_size_stack(parse);
        } else if same_text(c, "decode") {
            self.cmd_decode(parse);
        } else if same_text(c, "repeat") {
            self.cmd_repeat(parse);
        } else if same_text(c, "index") {
            self.cmd_index(parse);
        } else if same_text(c, "cast") {
            self.cmd_cast(parse);
        } else if same_text(c, "get-json") {
            self.cmd_get_json();
        } else if same_text(c, "set-json") {
            self.cmd_set_json();
        } else if same_text(c, "template") {
            self.cmd_template();        } else if is_host_command(c) {
            self.run_on_host(command, host);
        } else {
            let ghost o = *self;
            self.push(Type::String(command));
            proof {
                crate::machine::lemma_effect_none(o);
                crate::machine::lemma_effect_push(o, o, *self, 0, seq![], Val::Text(command@), seq![]);
            }
        }
        fuel
    }
}


/// The debug view of the stack, bottom first.
pub open spec fn stack_text(e: Executor) -> Seq<char> {
    "Stack〔 "@ + crate::text::join_spec(crate::value::displays(stack_of(e)), " | "@) + " 〕"@
}

/// `e2` is `e` after the debug line announcing token `t` was logged.
pub open spec fn announced(e: Executor, e2: Executor, t: Seq<char>) -> bool {
    &&& e2.stack == e.stack
    &&& e2.memory == e.memory
    &&& e2.mode == e.mode
    &&& e2.halted == e.halted
    &&& log_of(e2) == logged(e, seq![stack_text(e) + " ←  "@ + t + "\n"@])
}

/// `f` is `e` after the debug line showing the final stack was logged;
/// outside debug mode nothing is written and `f` is `e`.
pub open spec fn closed(e: Executor, f: Executor) -> bool {
    &&& !crate::machine::debugging(e) ==> f == e
    &&& f.stack == e.stack
    &&& f.memory == e.memory
    &&& f.mode == e.mode
    &&& f.halted == e.halted
    &&& log_of(f) == logged(e, seq![stack_text(e) + "\n"@])
}

/// `b` is `a` with the variable `name` bound to `v`.
pub open spec fn bound(a: Executor, b: Executor, name: Seq<char>, v: Val) -> bool {
    &&& b.stack == a.stack
    &&& b.log == a.log
    &&& b.mode == a.mode
    &&& b.halted == a.halted
    &&& memory_of(b) == crate::store::assign(memory_of(a), name, v)
}

/// The list a loop command runs over, third from the top.
pub open spec fn loop_items(o: Executor) -> Seq<Val> {
    crate::value::items_of(arg(o, 2))
}

/// The variable a loop command binds, second from the top.
pub open spec fn loop_name(o: Executor) -> Seq<char> {
    text_of(arg(o, 1))
}

/// The code a loop command runs, on top.
pub open spec fn loop_code(o: Executor) -> Seq<char> {
    text_of(arg(o, 0))
}

/// A loop ran `k` of `n` rounds and stopped in `f`: all of them, or fewer
/// because the program halted.
pub open spec fn stopped_at(k: int, n: int, f: Executor) -> bool {
    0 <= k <= n && (k == n || f.halted is Some)
}

/// The rounds of `for` over `items`, from `o` with `fuel` to `f` with
/// `rest`: in each round, unless the program has halted, the variable is
/// bound to the item and the code evaluated (with less fuel than `cap`).
pub open spec fn looped<P: Fn(String) -> Option<Numeral>, C: Fn(String, Executor) -> Executor>(
    items: Seq<Val>, name: Seq<char>, code: Seq<char>, o: Executor, f: Executor, parse: P, host: C,
    cap: nat, fuel: nat, rest: nat,
) -> bool
    decreases cap, 0nat, items.len(),
{
    if items.len() == 0 {
        f == o && rest == fuel
    } else {
        exists|m: Executor, a: Executor, mid: nat|
            #![trigger bound(m, a, name, items.last()), within(mid, fuel)]
            within(mid, fuel) && mid < cap && looped(items.drop_last(), name, code, o, m, parse, host, cap, fuel, mid)
            && m.halted is None && bound(m, a, name, items.last()) && evaluated(code, a, f, parse, host, mid, rest)
    }
}

/// The rounds of `map` over `items`: as for `for`, and after each round
/// the top value is popped into `results`.
pub open spec fn mapped<P: Fn(String) -> Option<Numeral>, C: Fn(String, Executor) -> Executor>(
    items: Seq<Val>, name: Seq<char>, code: Seq<char>, o: Executor, f: Executor, results: Seq<Val>, parse: P, host: C,
    cap: nat, fuel: nat, rest: nat,
) -> bool
    decreases cap, 0nat, items.len(),
{
    if items.len() == 0 {
        f == o && rest == fuel && results.len() == 0
    } else {
        exists|m: Executor, a: Executor, b: Executor, mid: nat|
            #![trigger bound(m, a, name, items.last()), within(mid, fuel), effect(b, f, 1, seq![], seq![])]
            within(mid, fuel) && mid < cap && results.len() == items.len()
            && mapped(items.drop_last(), name, code, o, m, results.drop_last(), parse, host, cap, fuel, mid)
            && m.halted is None && bound(m, a, name, items.last()) && evaluated(code, a, b, parse, host, mid, rest)
            && results.last() == crate::machine::top(stack_of(b)) && effect(b, f, 1, seq![], seq![])
    }
}

/// The items kept so far after one more round of `filter`.
pub open spec fn keep(kept: Seq<Val>, verdict: Val, item: Val) -> Seq<Val> {
    if crate::value::truth(verdict) {
        kept.push(item)
    } else {
        kept
    }
}

/// The rounds of `filter` over `items`: as for `for`, and after each round
/// the top value is popped; the item is kept when it is true.
pub open spec fn filtered<P: Fn(String) -> Option<Numeral>, C: Fn(String, Executor) -> Executor>(
    items: Seq<Val>, name: Seq<char>, code: Seq<char>, o: Executor, f: Executor, kept: Seq<Val>, parse: P, host: C,
    cap: nat, fuel: nat, rest: nat,
) -> bool
    decreases cap, 0nat, items.len(),
{
    if items.len() == 0 {
        f == o && rest == fuel && kept.len() == 0
    } else {
        exists|m: Executor, a: Executor, b: Executor, mid: nat, before: Seq<Val>|
            #![trigger bound(m, a, name, items.last()), within(mid, fuel), keep(before, crate::machine::top(stack_of(b)), items.last())]
            within(mid, fuel) && mid < cap
            && filtered(items.drop_last(), name, code, o, m, before, parse, host, cap, fuel, mid)
            && m.halted is None && bound(m, a, name, items.last()) && evaluated(code, a, b, parse, host, mid, rest)
            && kept == keep(before, crate::machine::top(stack_of(b)), items.last()) && effect(b, f, 1, seq![], seq![])
    }
}

/// How `map` or `filter` ended after `k` of `n` rounds in `q`: all rounds
/// ran and the list was pushed, or the program halted.
pub open spec fn listed_at(k: int, n: int, q: Executor, f: Executor, list: Seq<Val>) -> bool {
    0 <= k <= n && if k == n {
        effect(q, f, 0, seq![Val::List(list)], seq![])
    } else {
        f == q && q.halted is Some
    }
}

/// The rounds of `reduce` over `items`: in each round, unless the program
/// has halted, the item variable is bound to the item, the code evaluated,
/// and the value it leaves on top popped into the accumulator variable.
pub open spec fn reduced<P: Fn(String) -> Option<Numeral>, C: Fn(String, Executor) -> Executor>(
    items: Seq<Val>, now: Seq<char>, acc: Seq<char>, code: Seq<char>, o: Executor, f: Executor, parse: P, host: C,
    cap: nat, fuel: nat, rest: nat,
) -> bool
    decreases cap, 0nat, items.len(),
{
    if items.len() == 0 {
        f == o && rest == fuel
    } else {
        exists|m: Executor, a: Executor, b: Executor, c: Executor, mid: nat|
            #![trigger bound(m, a, now, items.last()), within(mid, fuel), bound(c, f, acc, crate::machine::top(stack_of(b)))]
            within(mid, fuel) && mid < cap
            && reduced(items.drop_last(), now, acc, code, o, m, parse, host, cap, fuel, mid)
            && m.halted is None && bound(m, a, now, items.last()) && evaluated(code, a, b, parse, host, mid, rest)
            && effect(b, c, 1, seq![], seq![]) && bound(c, f, acc, crate::machine::top(stack_of(b)))
    }
}

/// How `reduce` ended after `k` of `n` rounds in `q`: all rounds ran, the
/// accumulator's value (the empty string if it has none) was pushed and
/// the accumulator set to the empty string; or the program halted.
pub open spec fn folded_at(k: int, n: int, q: Executor, f: Executor, acc: Seq<char>) -> bool {
    0 <= k <= n && if k == n {
        let v = match crate::store::lookup(memory_of(q), acc) {
            Some(v) => v,
            None => Val::Text(seq![]),
        };
        &&& stack_of(f) == stack_of(q).push(v)
        &&& memory_of(f) == crate::store::assign(memory_of(q), acc, Val::Text(seq![]))
        &&& log_of(f) == log_of(q)
        &&& f.mode == q.mode
        &&& f.halted == q.halted
    } else {
        f == q && q.halted is Some
    }
}

/// An evaluation that can go on: fuel is left and the program has not
/// halted.
pub open spec fn running(e: Executor, fuel: nat) -> bool {
    fuel >= 1 && e.halted is None
}

/// `while` from state `q` with `fuel`: while fuel is left and the program
/// runs, one unit is spent, the condition evaluated and its value popped;
/// if it is true (and the program still runs) the body is evaluated and the
/// loop goes on.
pub open spec fn while_from<P: Fn(String) -> Option<Numeral>, C: Fn(String, Executor) -> Executor>(
    cond: Seq<char>, code: Seq<char>, q: Executor, f: Executor, parse: P, host: C, cap: nat, tests: nat, fuel: nat, rest: nat,
) -> bool
    decreases cap, 0nat, tests,
{
    if !running(q, fuel) || fuel >= cap {
        f == q && rest == fuel && tests == 0
    } else {
        tests >= 1 && exists|a: Executor, b: Executor, c: Executor, mid2: nat, mid3: nat|
            #[trigger] round_of(a, b, c, mid2, mid3) && within(mid2, (fuel - 1) as nat)
            && evaluated(cond, q, a, parse, host, (fuel - 1) as nat, mid2)
            && (stops(a, b) ==> f == b && rest == mid2 && c == b && mid3 == mid2 && tests == 1)
            && (!stops(a, b) ==> evaluated(code, b, c, parse, host, mid2, mid3))
            && (!stops(a, b) && running(c, mid3) ==> while_from(cond, code, c, f, parse, host, cap, (tests - 1) as nat, mid3, rest))
            && (!stops(a, b) && !running(c, mid3) ==> f == c && rest == mid3 && tests == 1)
    }
}

/// One round of `while`: the test's value was popped from `a` to give `b`,
/// and the body, if it ran, went from `b` to `c` and left `mid3` of `mid2`.
pub open spec fn round_of(a: Executor, b: Executor, c: Executor, mid2: nat, mid3: nat) -> bool {
    effect(a, b, 1, seq![], seq![]) && within(mid3, mid2)
}

/// `while` stops after its test: the condition left a false value, or the
/// program halted.
pub open spec fn stops(a: Executor, b: Executor) -> bool {
    !crate::value::truth(crate::machine::top(stack_of(a))) || b.halted is Some
}

/// The cells of a matrix literal from state `q` with `fuel`: each cell's
/// code is evaluated and the value it leaves on top popped; `nums` are the
/// number values of those values, in order.
pub open spec fn cells_from<P: Fn(String) -> Option<Numeral>, C: Fn(String, Executor) -> Executor>(
    cells: Seq<Seq<char>>, q: Executor, f: Executor, nums: Seq<(u64, Seq<char>)>, parse: P, host: C,
    cap: nat, fuel: nat, rest: nat,
) -> bool
    decreases cap, 0nat, cells.len(),
{
    if cells.len() == 0 {
        f == q && rest == fuel && nums.len() == 0
    } else {
        fuel < cap && nums.len() > 0 && exists|b: Executor, c: Executor, mid: nat|
            #![trigger effect(b, c, 1, seq![], seq![]), within(mid, fuel)]
            evaluated(cells[0], q, b, parse, host, fuel, mid) && within(mid, fuel) && effect(b, c, 1, seq![], seq![])
            && number_value(parse, crate::machine::top(stack_of(b)), nums[0])
            && cells_from(cells.drop_first(), c, f, nums.drop_first(), parse, host, cap, mid, rest)
    }
}

/// The models of some numbers.
pub open spec fn nums_of(v: Seq<Numeral>) -> Seq<(u64, Seq<char>)> {
    v.map_values(|x: Numeral| crate::value::num_val(x))
}

/// The text of a matrix literal's first row.
pub open spec fn first_row(body: Seq<char>) -> Seq<char> {
    cut(body, seq![';'])[0]
}

/// A matrix literal's body left a matrix on top of `f`: one entry per cell
/// (cells are separated by `,` and `;`), as many rows as `;`-separated
/// parts, as many columns as cells in the first row.
pub open spec fn matrix_made(body: Seq<char>, f: Executor) -> bool {
    let s = stack_of(f);
    &&& s.len() > 0
    &&& s.last() matches Val::Matrix(nums, rows, cols)
    &&& nums.len() == cut(body, seq![',', ';']).len()
    &&& rows == cut(body, seq![';']).len()
    &&& cols == cut(first_row(body), seq![',']).len()
}

/// `f` is `m`, after a list literal's code ran from `o` to `m`, with the
/// values the code added above `o`'s stack gathered into one list.
pub open spec fn listed(o: Executor, m: Executor, f: Executor) -> bool {
    let n0 = stack_of(o).len();
    let s = stack_of(m);
    &&& stack_of(f) == (if s.len() > n0 {
        s.take(n0 as int).push(Val::List(s.skip(n0 as int)))
    } else {
        s.push(Val::List(seq![]))
    })
    &&& log_of(f) == log_of(m)
    &&& f.memory == m.memory
    &&& f.mode == m.mode
    &&& f.halted == m.halted
}

/// `m` is `o` after `method` popped the method's name and the object and
/// bound `self` to the object.
pub open spec fn method_bound(o: Executor, m: Executor) -> bool {
    let parts = crate::objects::object_parts(arg(o, 1));
    &&& stack_of(m) == crate::machine::after_pops(stack_of(o), 2)
    &&& log_of(m) == logged(o, crate::machine::underflow(stack_of(o).len(), 2))
    &&& memory_of(m) == crate::store::assign(memory_of(o), "self"@, Val::Object(parts.0, parts.1))
    &&& m.mode == o.mode
    &&& m.halted == o.halted
}

/// The code `method` runs: the string form of the object's property named
/// by the top value, nothing if there is none.
pub open spec fn method_code(o: Executor) -> Seq<char> {
    match crate::store::lookup(crate::objects::object_parts(arg(o, 1)).1, text_of(arg(o, 0))) {
        Some(v) => text_of(v),
        None => seq![],
    }
}

/// The code `if` runs: the code below the else-code when the top value is
/// true, else the else-code.
pub open spec fn branch_code(o: Executor) -> Seq<char> {
    if crate::value::truth(arg(o, 0)) {
        text_of(arg(o, 2))
    } else {
        text_of(arg(o, 1))
    }
}

/// What running a command does, given `fuel` for the step that runs it (the
/// command itself may spend one less): a library command as its contract
/// says, a host command what the host answers, an unknown word is pushed
/// as a string, all returning the fuel unspent; `eval`, `if` and `method`
/// evaluate code once; `while` runs rounds of test and body
/// (`while_from`); `for`, `map`, `filter` and `reduce` run their code once
/// per item of the list (`looped`, `mapped`, `filtered`, `reduced`).
pub open spec fn command_ran<P: Fn(String) -> Option<Numeral>, C: Fn(String, Executor) -> Executor>(
    t: Seq<char>, o: Executor, f: Executor, parse: P, host: C, fuel: nat, rest: nat,
) -> bool
    decreases fuel, 1nat, 0nat,
{
    fuel >= 1 && {
        let g = (fuel - 1) as nat;
        &&& command_done(t, o, f, parse)
        &&& is_host_name(t) && !is_library_name(t) ==> exists|a: String| a@ == t && #[trigger] call_ensures(host, (a, o), f)
        &&& !is_host_name(t) && !is_control_name(t) && !is_library_name(t) ==> effect(o, f, 0, seq![Val::Text(t)], seq![])
        &&& !is_control_name(t) ==> rest == g
        &&& is_control_name(t) ==> rest <= g
        &&& t == "eval"@ ==> exists|m: Executor| #[trigger] effect(o, m, 1, seq![], seq![])
            && evaluated(text_of(arg(o, 0)), m, f, parse, host, g, rest)
        &&& t == "if"@ ==> exists|m: Executor| #[trigger] effect(o, m, 3, seq![], seq![])
            && evaluated(branch_code(o), m, f, parse, host, g, rest)
        &&& t == "method"@ ==> exists|m: Executor| #[trigger] method_bound(o, m)
            && evaluated(method_code(o), m, f, parse, host, g, rest)
        &&& t == "map"@ ==> exists|p: Executor, k: int, q: Executor, list: Seq<Val>|
            #![trigger effect(o, p, 3, seq![], seq![]), listed_at(k, loop_items(o).len() as int, q, f, list)]
            effect(o, p, 3, seq![], seq![]) && listed_at(k, loop_items(o).len() as int, q, f, list)
            && mapped(loop_items(o).take(k), loop_name(o), loop_code(o), p, q, list, parse, host, fuel, g, rest)
        &&& t == "filter"@ ==> exists|p: Executor, k: int, q: Executor, list: Seq<Val>|
            #![trigger effect(o, p, 3, seq![], seq![]), listed_at(k, loop_items(o).len() as int, q, f, list)]
            effect(o, p, 3, seq![], seq![]) && listed_at(k, loop_items(o).len() as int, q, f, list)
            && filtered(loop_items(o).take(k), loop_name(o), loop_code(o), p, q, list, parse, host, fuel, g, rest)
        &&& t == "reduce"@ ==> exists|p: Executor, p0: Executor, k: int, q: Executor|
            #![trigger effect(o, p, 5, seq![], seq![]), bound(p, p0, text_of(arg(o, 3)), arg(o, 2)),
                folded_at(k, crate::value::items_of(arg(o, 4)).len() as int, q, f, text_of(arg(o, 3)))]
            effect(o, p, 5, seq![], seq![]) && bound(p, p0, text_of(arg(o, 3)), arg(o, 2))
            && folded_at(k, crate::value::items_of(arg(o, 4)).len() as int, q, f, text_of(arg(o, 3)))
            && reduced(crate::value::items_of(arg(o, 4)).take(k), text_of(arg(o, 1)), text_of(arg(o, 3)), text_of(arg(o, 0)),
                p0, q, parse, host, fuel, g, rest)
        &&& t == "while"@ ==> exists|p: Executor, n: nat| #![trigger effect(o, p, 2, seq![], seq![]), within(n, g)]
            effect(o, p, 2, seq![], seq![]) && within(n, g)
            && while_from(text_of(arg(o, 0)), text_of(arg(o, 1)), p, f, parse, host, fuel, n, g, rest)
        &&& t == "for"@ ==> exists|p: Executor, k: int|
            #![trigger effect(o, p, 3, seq![], seq![]), stopped_at(k, loop_items(o).len() as int, f)]
            effect(o, p, 3, seq![], seq![]) && stopped_at(k, loop_items(o).len() as int, f)
            && looped(loop_items(o).take(k), loop_name(o), loop_code(o), p, f, parse, host, fuel, g, rest)
    }
}

/// What a token that is not a number does: `true` and `false` push truths,
/// `(..)` a string, `error:..` an error, a variable's name its value, and
/// `#..#` logs a comment, `[..]` gathers what its code adds into a list;
/// `{..}` makes a matrix of the number values its cells' code leaves;
/// other words run as commands.
pub open spec fn word_done<P: Fn(String) -> Option<Numeral>, C: Fn(String, Executor) -> Executor>(
    t: Seq<char>, o: Executor, f: Executor, parse: P, host: C, fuel: nat, rest: nat,
) -> bool
    decreases fuel, 2nat, 0nat,
{
    let g = (fuel - 1) as nat;
    if t == "true"@ {
        effect(o, f, 0, seq![Val::Bool(true)], seq![]) && rest == g
    } else if t == "false"@ {
        effect(o, f, 0, seq![Val::Bool(false)], seq![]) && rest == g
    } else if t.len() > 0 && t[0] == '(' && t.last() == ')' {
        effect(o, f, 0, seq![Val::Text(crate::syntax::literal_text(t.subrange(1, t.len() - 1)))], seq![]) && rest == g
    } else if t.len() > 0 && t[0] == '[' && t.last() == ']' {
        fuel >= 1 && exists|m: Executor| #[trigger] listed(o, m, f)
            && evaluated(t.subrange(1, t.len() - 1), o, m, parse, host, g, rest)
    } else if t.len() > 0 && t[0] == '{' && t.last() == '}' {
        fuel >= 1 && matrix_made(t.subrange(1, t.len() - 1), f) && exists|c: Executor, nums: Seq<(u64, Seq<char>)>|
            #[trigger] effect(c, f, 0, seq![Val::Matrix(nums,
                cut(t.subrange(1, t.len() - 1), seq![';']).len(),
                cut(first_row(t.subrange(1, t.len() - 1)), seq![',']).len())], seq![])
            && cells_from(cut(t.subrange(1, t.len() - 1), seq![',', ';']), o, c, nums, parse, host, fuel, g, rest)
    } else if 6 <= t.len() && t.take(6) == "error:"@ {
        effect(o, f, 0, seq![Val::Error(crate::text::replace_spec(t, "error:"@, seq![]))], seq![]) && rest == g
    } else if crate::store::lookup(memory_of(o), t) is Some {
        effect(o, f, 0, seq![crate::store::lookup(memory_of(o), t)->0], seq![]) && rest == g
    } else if t.len() > 0 && t[0] == '#' && t.last() == '#' {
        effect(o, f, 0, seq![], seq!["* Comment \""@ + crate::text::replace_spec(t, "#"@, seq![]) + "\"\n"@]) && rest == g
    } else {
        command_ran(t, o, f, parse, host, fuel, rest)
    }
}

/// What a token does, given `fuel` for its step (the token may spend one
/// less): a text the host reads as a number pushes it; otherwise the token
/// acts as a word.
pub open spec fn token_done<P: Fn(String) -> Option<Numeral>, C: Fn(String, Executor) -> Executor>(
    t: Seq<char>, o: Executor, f: Executor, parse: P, host: C, fuel: nat, rest: nat,
) -> bool
    decreases fuel, 3nat, 0nat,
{
    ||| (exists|a: String, n: Numeral| a@ == t && #[trigger] call_ensures(parse, (a,), Some(n))
        && effect(o, f, 0, seq![Val::Number(n.bits, n.text@)], seq![])) && rest == (fuel - 1) as nat
    ||| (exists|a: String| a@ == t && #[trigger] call_ensures(parse, (a,), None::<Numeral>))
        && word_done(t, o, f, parse, host, fuel, rest)
}

/// One step of a program, which costs one unit of fuel: the token is
/// announced, then done.
pub open spec fn stepped<P: Fn(String) -> Option<Numeral>, C: Fn(String, Executor) -> Executor>(
    t: Seq<char>, e: Executor, f: Executor, parse: P, host: C, fuel: nat, rest: nat,
) -> bool {
    fuel >= 1 && exists|e2: Executor| #[trigger] announced(e, e2, t) && token_done(t, e2, f, parse, host, fuel, rest)
}

/// A budget spent down from `fuel`.
pub open spec fn within(mid: nat, fuel: nat) -> bool {
    mid <= fuel
}

/// Running the tokens in order takes `o` with `fuel` to `f` with `rest`:
/// each token is announced, then done with what the earlier ones left,
/// spending fuel.
pub open spec fn ran<P: Fn(String) -> Option<Numeral>, C: Fn(String, Executor) -> Executor>(
    ts: Seq<Seq<char>>, o: Executor, f: Executor, parse: P, host: C, fuel: nat, rest: nat,
) -> bool
    decreases fuel, 5nat, ts.len(),
{
    if ts.len() == 0 {
        f == o && rest == fuel
    } else {
        exists|m: Executor, e2: Executor, mid: nat|
            #![trigger announced(m, e2, ts.last()), within(mid, fuel)]
            within(mid, fuel) && mid >= 1 && ran(ts.drop_last(), o, m, parse, host, fuel, mid)
            && announced(m, e2, ts.last()) && token_done(ts.last(), e2, f, parse, host, mid, rest) && rest <= mid
    }
}

/// How an evaluation that ran `k` of its `n` tokens to `m` ended in `f`:
/// with all tokens run, the final stack is logged; otherwise it stopped
/// before a token, out of fuel or halted.
pub open spec fn ended(k: int, n: int, m: Executor, f: Executor, rest: nat) -> bool {
    if k == n {
        closed(m, f)
    } else {
        f == m && (rest == 0 || m.halted is Some)
    }
}

/// Evaluating a program with `fuel` leaves `rest`, at most `fuel`: its
/// tokens run in order;
/// either all of them, and the final stack is logged, or evaluation stopped
/// before a token because the fuel ran out or the program halted.
pub open spec fn evaluated<P: Fn(String) -> Option<Numeral>, C: Fn(String, Executor) -> Executor>(
    code: Seq<char>, o: Executor, f: Executor, parse: P, host: C, fuel: nat, rest: nat,
) -> bool
    decreases fuel, 6nat, 0nat,
{
    let ts = crate::syntax::tokenize(code);
    rest <= fuel && exists|k: int, m: Executor| 0 <= k <= ts.len() && ran(ts.take(k), o, m, parse, host, fuel, rest)
        && #[trigger] ended(k, ts.len() as int, m, f, rest)
}

proof fn lemma_ran_step<P: Fn(String) -> Option<Numeral>, C: Fn(String, Executor) -> Executor>(
    ts: Seq<Seq<char>>, k: int, o: Executor, e: Executor, e2: Executor, f: Executor, parse: P, host: C, fuel: nat, mid: nat, rest: nat,
)
    requires
        0 <= k < ts.len(),
        1 <= mid <= fuel,
        ran(ts.take(k), o, e, parse, host, fuel, mid),
        announced(e, e2, ts[k]),
        token_done(ts[k], e2, f, parse, host, mid, rest),
        rest <= mid,
    ensures
        ran(ts.take(k + 1), o, f, parse, host, fuel, rest),
{
    let x = ts.take(k + 1);
    assert(x.drop_last() =~= ts.take(k));
    assert(x.last() == ts[k]);
    assert(x.len() > 0);
    assert(within(mid, fuel));
    assert(announced(e, e2, x.last()));
}

proof fn lemma_looped_step<P: Fn(String) -> Option<Numeral>, C: Fn(String, Executor) -> Executor>(
    items: Seq<Val>, i: int, name: Seq<char>, code: Seq<char>, o: Executor, m: Executor, a: Executor, f: Executor,
    parse: P, host: C, cap: nat, fuel: nat, mid: nat, rest: nat,
)
    requires
        0 <= i < items.len(),
        mid <= fuel < cap,
        looped(items.take(i), name, code, o, m, parse, host, cap, fuel, mid),
        m.halted is None,
        bound(m, a, name, items[i]),
        evaluated(code, a, f, parse, host, mid, rest),
    ensures
        looped(items.take(i + 1), name, code, o, f, parse, host, cap, fuel, rest),
{
    let x = items.take(i + 1);
    assert(x.drop_last() =~= items.take(i));
    assert(x.last() == items[i]);
    assert(within(mid, fuel));
    assert(bound(m, a, name, x.last()));
}

proof fn lemma_mapped_step<P: Fn(String) -> Option<Numeral>, C: Fn(String, Executor) -> Executor>(
    items: Seq<Val>, i: int, name: Seq<char>, code: Seq<char>, o: Executor, m: Executor, a: Executor, b: Executor, f: Executor,
    results: Seq<Val>, v: Val, parse: P, host: C, cap: nat, fuel: nat, mid: nat, rest: nat,
)
    requires
        0 <= i < items.len(),
        mid <= fuel < cap,
        mapped(items.take(i), name, code, o, m, results, parse, host, cap, fuel, mid),
        m.halted is None,
        bound(m, a, name, items[i]),
        evaluated(code, a, b, parse, host, mid, rest),
        v == crate::machine::top(stack_of(b)),
        effect(b, f, 1, seq![], seq![]),
    ensures
        mapped(items.take(i + 1), name, code, o, f, results.push(v), parse, host, cap, fuel, rest),
        results.len() == i,
    decreases i,
{
    lemma_mapped_len(items.take(i), name, code, o, m, results, parse, host, cap, fuel, mid);
    let x = items.take(i + 1);
    assert(x.drop_last() =~= items.take(i));
    assert(x.last() == items[i]);
    assert(results.push(v).drop_last() =~= results);
    assert(within(mid, fuel));
    assert(bound(m, a, name, x.last()));
}

proof fn lemma_mapped_len<P: Fn(String) -> Option<Numeral>, C: Fn(String, Executor) -> Executor>(
    items: Seq<Val>, name: Seq<char>, code: Seq<char>, o: Executor, f: Executor,
    results: Seq<Val>, parse: P, host: C, cap: nat, fuel: nat, rest: nat,
)
    requires
        mapped(items, name, code, o, f, results, parse, host, cap, fuel, rest),
    ensures
        results.len() == items.len(),
{
}

proof fn lemma_filtered_step<P: Fn(String) -> Option<Numeral>, C: Fn(String, Executor) -> Executor>(
    items: Seq<Val>, i: int, name: Seq<char>, code: Seq<char>, o: Executor, m: Executor, a: Executor, b: Executor, f: Executor,
    kept: Seq<Val>, parse: P, host: C, cap: nat, fuel: nat, mid: nat, rest: nat,
)
    requires
        0 <= i < items.len(),
        mid <= fuel < cap,
        filtered(items.take(i), name, code, o, m, kept, parse, host, cap, fuel, mid),
        m.halted is None,
        bound(m, a, name, items[i]),
        evaluated(code, a, b, parse, host, mid, rest),
        effect(b, f, 1, seq![], seq![]),
    ensures
        filtered(items.take(i + 1), name, code, o, f, keep(kept, crate::machine::top(stack_of(b)), items[i]),
            parse, host, cap, fuel, rest),
{
    let x = items.take(i + 1);
    assert(x.drop_last() =~= items.take(i));
    assert(x.last() == items[i]);
    assert(within(mid, fuel));
    assert(bound(m, a, name, x.last()));
}

proof fn lemma_reduced_step<P: Fn(String) -> Option<Numeral>, C: Fn(String, Executor) -> Executor>(
    items: Seq<Val>, i: int, now: Seq<char>, acc: Seq<char>, code: Seq<char>, o: Executor, m: Executor, a: Executor,
    b: Executor, c: Executor, f: Executor, parse: P, host: C, cap: nat, fuel: nat, mid: nat, rest: nat,
)
    requires
        0 <= i < items.len(),
        mid <= fuel < cap,
        reduced(items.take(i), now, acc, code, o, m, parse, host, cap, fuel, mid),
        m.halted is None,
        bound(m, a, now, items[i]),
        evaluated(code, a, b, parse, host, mid, rest),
        effect(b, c, 1, seq![], seq![]),
        bound(c, f, acc, crate::machine::top(stack_of(b))),
    ensures
        reduced(items.take(i + 1), now, acc, code, o, f, parse, host, cap, fuel, rest),
{
    let x = items.take(i + 1);
    assert(x.drop_last() =~= items.take(i));
    assert(x.last() == items[i]);
    assert(within(mid, fuel));
    assert(bound(m, a, now, x.last()));
}

proof fn lemma_while_stop<P: Fn(String) -> Option<Numeral>, C: Fn(String, Executor) -> Executor>(
    cond: Seq<char>, code: Seq<char>, q: Executor, a: Executor, b: Executor, parse: P, host: C, cap: nat, fuel: nat, mid2: nat,
)
    requires
        running(q, fuel),
        fuel < cap,
        evaluated(cond, q, a, parse, host, (fuel - 1) as nat, mid2),
        mid2 <= fuel - 1,
        effect(a, b, 1, seq![], seq![]),
        stops(a, b),
    ensures
        while_from(cond, code, q, b, parse, host, cap, 1, fuel, mid2),
{
    let g = (fuel - 1) as nat;
    assert(within(mid2, g));
    assert(round_of(a, b, b, mid2, mid2));
    if running(b, mid2) {
        assert(b.halted is None);
    }
}

proof fn lemma_while_round<P: Fn(String) -> Option<Numeral>, C: Fn(String, Executor) -> Executor>(
    cond: Seq<char>, code: Seq<char>, q: Executor, a: Executor, b: Executor, c: Executor, f: Executor,
    parse: P, host: C, cap: nat, n: nat, fuel: nat, mid2: nat, mid3: nat, r: nat,
)
    requires
        running(q, fuel),
        fuel < cap,
        evaluated(cond, q, a, parse, host, (fuel - 1) as nat, mid2),
        mid2 <= fuel - 1,
        effect(a, b, 1, seq![], seq![]),
        !stops(a, b),
        evaluated(code, b, c, parse, host, mid2, mid3),
        mid3 <= mid2,
        while_from(cond, code, c, f, parse, host, cap, n, mid3, r),
    ensures
        while_from(cond, code, q, f, parse, host, cap, n + 1, fuel, r),
{
    let g = (fuel - 1) as nat;
    assert(within(mid2, g));
    assert(round_of(a, b, c, mid2, mid3));
    if !running(c, mid3) {
        assert(f == c && r == mid3 && n == 0);
    } else {
        assert(mid3 < cap);
    }
}

/// `while` never tests its condition more often than it has fuel.
pub proof fn lemma_while_tests<P: Fn(String) -> Option<Numeral>, C: Fn(String, Executor) -> Executor>(
    cond: Seq<char>, code: Seq<char>, q: Executor, f: Executor, parse: P, host: C, cap: nat, tests: nat, fuel: nat, rest: nat,
)
    requires
        while_from(cond, code, q, f, parse, host, cap, tests, fuel, rest),
    ensures
        tests <= fuel,
    decreases tests,
{
    if running(q, fuel) && fuel < cap {
        let (a, b, c, mid2, mid3) = choose|a: Executor, b: Executor, c: Executor, mid2: nat, mid3: nat|
            #[trigger] round_of(a, b, c, mid2, mid3) && within(mid2, (fuel - 1) as nat)
            && evaluated(cond, q, a, parse, host, (fuel - 1) as nat, mid2)
            && (stops(a, b) ==> f == b && rest == mid2 && c == b && mid3 == mid2 && tests == 1)
            && (!stops(a, b) ==> evaluated(code, b, c, parse, host, mid2, mid3))
            && (!stops(a, b) && running(c, mid3) ==> while_from(cond, code, c, f, parse, host, cap, (tests - 1) as nat, mid3, rest))
            && (!stops(a, b) && !running(c, mid3) ==> f == c && rest == mid3 && tests == 1);
        if !stops(a, b) && running(c, mid3) {
            lemma_while_tests(cond, code, c, f, parse, host, cap, (tests - 1) as nat, mid3, rest);
        }
    }
}

proof fn lemma_cells_step<P: Fn(String) -> Option<Numeral>, C: Fn(String, Executor) -> Executor>(
    cells: Seq<Seq<char>>, q: Executor, b: Executor, c: Executor, f: Executor, x: (u64, Seq<char>), nums: Seq<(u64, Seq<char>)>,
    parse: P, host: C, cap: nat, fuel: nat, mid: nat, rest: nat,
)
    requires
        cells.len() > 0,
        fuel < cap,
        evaluated(cells[0], q, b, parse, host, fuel, mid),
        mid <= fuel,
        effect(b, c, 1, seq![], seq![]),
        number_value(parse, crate::machine::top(stack_of(b)), x),
        cells_from(cells.drop_first(), c, f, nums, parse, host, cap, mid, rest),
    ensures
        cells_from(cells, q, f, seq![x] + nums, parse, host, cap, fuel, rest),
{
    let all = seq![x] + nums;
    assert(all[0] == x);
    assert(all.drop_first() =~= nums);
    assert(within(mid, fuel));
}

proof fn lemma_stopped<P: Fn(String) -> Option<Numeral>, C: Fn(String, Executor) -> Executor>(
    code: Seq<char>, o: Executor, e: Executor, parse: P, host: C, k: int, fuel: nat, rest: nat,
)
    requires
        0 <= k < crate::syntax::tokenize(code).len(),
        ran(crate::syntax::tokenize(code).take(k), o, e, parse, host, fuel, rest),
        rest == 0 || e.halted is Some,
        rest <= fuel,
    ensures
        evaluated(code, o, e, parse, host, fuel, rest),
{
    assert(ended(k, crate::syntax::tokenize(code).len() as int, e, e, rest));
}

/// Pushing a string is an effect that pushes its text.
pub proof fn lemma_pushed_text(o: Executor, f: Executor, t: Seq<char>)
    requires
        stack_of(f) == stack_of(o).push(Val::Text(t)),
        f.memory == o.memory,
        f.log == o.log,
        f.mode == o.mode,
        f.halted == o.halted,
    ensures
        effect(o, f, 0, seq![Val::Text(t)], seq![]),
{
    lemma_pushed(o, f, Val::Text(t));
}

proof fn lemma_pushed(o: Executor, f: Executor, v: Val)
    requires
        stack_of(f) == stack_of(o).push(v),
        f.memory == o.memory,
        f.log == o.log,
        f.mode == o.mode,
        f.halted == o.halted,
    ensures
        effect(o, f, 0, seq![v], seq![]),
{
    crate::machine::lemma_effect_none(o);
    crate::machine::lemma_effect_push(o, o, f, 0, seq![], v, seq![]);
    assert(Seq::<Val>::empty().push(v) =~= seq![v]);
}

impl Executor {
    /// Evaluates a program: its tokens in order, each costing one unit of
    /// `fuel`; evaluation stops when the fuel runs out or the program halts.
    /// Returns the fuel left.
    pub fn evaluate_program<P, C>(&mut self, code: &str, parse: &P, host: &C, fuel: u64) -> (rest: u64)
        where
            P: Fn(String) -> Option<Numeral>,
            C: Fn(String, Executor) -> Executor,
        requires
            parser_total(*parse),
            host_total(*host),
        ensures
            rest <= fuel,
            evaluated(code@, *old(self), *final(self), *parse, *host, fuel as nat, rest as nat),
        decreases fuel, 0u64,
    {
        let syntax = analyze_syntax(code);
        proof {
            crate::syntax::law_tokens_nonempty(code@);
            assert forall|i: int| 0 <= i < syntax@.len() implies (#[trigger] syntax@[i])@.len() > 0 by {
                assert(crate::text::views(syntax@)[i] == syntax@[i]@);
            }
        }
        let ghost o = *self;
        let ghost ts = crate::syntax::tokenize(code@);
        proof {
            assert(ts.take(0) =~= Seq::<Seq<char>>::empty());
        }
        let mut left = fuel;
        let mut k: usize = 0;
        while k < syntax.len()
            invariant
                left <= fuel,
                k <= syntax@.len(),
                parser_total(*parse),
                host_total(*host),
                crate::text::views(syntax@) == ts,
                ts == crate::syntax::tokenize(code@),
                ts.len() == syntax@.len(),
                forall|i: int| 0 <= i < syntax@.len() ==> (#[trigger] syntax@[i])@.len() > 0,
                ran(ts.take(k as int), o, *self, *parse, *host, fuel as nat, left as nat),
                o == *old(self),
            decreases syntax@.len() - k,
        {
            if left == 0 {
                proof {
                    lemma_stopped(code@, o, *self, *parse, *host, k as int, fuel as nat, 0);
                }
                return 0;
            }
            if self.halted.is_some() {
                proof {
                    lemma_stopped(code@, o, *self, *parse, *host, k as int, fuel as nat, left as nat);
                }
                return left;
            }
            let ghost mid: nat = left as nat;
            left = left - 1;
            let token = &syntax[k];
            let ghost e = *self;
            proof {
                assert(ts[k as int] == token@);
            }
            if self.is_debug() {
                let mut line = self.show_stack();
                line.append(" ←  ");
                line.append(token.as_str());
                line.append("\n");
                self.log_print(line);
            }
            let ghost e2 = *self;
            proof {
                reveal_strlit(" ←  ");
                reveal_strlit("\n");
                assert(announced(e, e2, token@));
            }
            left = self.evaluate_token(token, parse, host, left);
            proof {
                lemma_ran_step(ts, k as int, o, e, e2, *self, *parse, *host, fuel as nat, mid, left as nat);
            }
            k = k + 1;
        }
        let ghost m = *self;
        if self.is_debug() {
            let mut line = self.show_stack();
            line.append("\n");
            self.log_print(line);
        }
        proof {
            reveal_strlit("\n");
            assert(closed(m, *self));
            assert(ts.take(ts.len() as int) =~= ts);
            assert(ran(ts.take(ts.len() as int), o, m, *parse, *host, fuel as nat, left as nat));
            assert(ended(ts.len() as int, ts.len() as int, m, *self, left as nat));
        }
        left
    }

    /// Evaluates one token: a number, a truth value, a string, list or
    /// matrix literal, an error, a variable, a comment, or a command.
    fn evaluate_token<P, C>(&mut self, token: &String, parse: &P, host: &C, fuel: u64) -> (rest: u64)
        where
            P: Fn(String) -> Option<Numeral>,
            C: Fn(String, Executor) -> Executor,
        requires
            parser_total(*parse),
            host_total(*host),
            token@.len() > 0,
        ensures
            rest <= fuel,
            token_done(token@, *old(self), *final(self), *parse, *host, fuel as nat + 1, rest as nat),
        decreases fuel, 3u64,
    {
        let ghost o = *self;
        let t = token.as_str();
        let word = copy_string(token);
        let ghost wv = word;
        let res = parse(word);
        proof {
            assert(call_ensures(*parse, (wv,), res));
        }
        match res {
            Some(n) => {
                let v = Type::Number(n);
                self.push(v);
                proof {
                    lemma_pushed(o, *self, v@);
                }
                return fuel;
            },
            None => {},
        }
        proof {
            assert(call_ensures(*parse, (wv,), None::<Numeral>));
            reveal_strlit("true");
            reveal_strlit("false");
            reveal_strlit("error:");
            reveal_strlit("#");
        }
        if same_text(t, "true") {
            self.push(Type::Bool(true));
            proof {
                lemma_pushed(o, *self, Val::Bool(true));
                assert(word_done(token@, o, *self, *parse, *host, fuel as nat + 1, fuel as nat));
            }
            return fuel;
        }
        if same_text(t, "false") {
            self.push(Type::Bool(false));
            proof {
                lemma_pushed(o, *self, Val::Bool(false));
                assert(word_done(token@, o, *self, *parse, *host, fuel as nat + 1, fuel as nat));
            }
            return fuel;
        }
        let cs = chars_of(t);
        let n = cs.len();
        let first = cs[0];
        let last = cs[n - 1];
        proof {
            assert(t@.last() == cs@[n - 1]);
        }
        if first == '(' && last == ')' {
            let s = literal_string(&cs, 1, n - 1);
            let v = Type::String(s);
            self.push(v);
            proof {
                lemma_pushed(o, *self, v@);
                assert(word_done(token@, o, *self, *parse, *host, fuel as nat + 1, fuel as nat));
            }
            fuel
        } else if first == '[' && last == ']' {
            let inner = crate::text::string_of_range(&cs, 1, n - 1);
            let old_len = self.stack.len();
            let left = self.evaluate_program(inner.as_str(), parse, host, fuel);
            let ghost m = *self;
            let ghost sm = stack_of(m);
            proof {
                lemma_vals_of(o.stack@);
                lemma_vals_of(m.stack@);
            }
            let mut list: Vec<Type> = Vec::new();
            if self.stack.len() > old_len {
                let count = self.stack.len() - old_len;
                let mut i: usize = 0;
                proof {
                    assert(sm.take(sm.len() - i) =~= sm);
                    assert(vals_of(list@) =~= sm.skip(sm.len() - i).reverse());
                }
                while i < count
                    invariant
                        i <= count,
                        count == sm.len() - old_len,
                        old_len < sm.len(),
                        stack_of(*self) == sm.take(sm.len() - i),
                        vals_of(list@) == sm.skip(sm.len() - i).reverse(),
                        log_of(*self) == log_of(m),
                        self.memory == m.memory,
                        self.mode == m.mode,
                        self.halted == m.halted,
                    decreases count - i,
                {
                    let ghost before = list@;
                    let ghost e = *self;
                    let v = self.pop_stack();
                    list.push(v);
                    proof {
                        crate::value::lemma_vals_push(before, v);
                        let k = sm.len() - i;
                        assert(stack_of(e).len() == k);
                        assert(v@ == sm[k - 1]);
                        assert(sm.take(k).drop_last() =~= sm.take(k - 1));
                        assert(sm.skip(k - 1).reverse() =~= sm.skip(k).reverse().push(sm[k - 1]));
                        assert(crate::machine::underflow(k as nat, 1) =~= Seq::<Seq<char>>::empty());
                        assert(log_of(e) + Seq::<Seq<char>>::empty() =~= log_of(e));
                    }
                    i = i + 1;
                }
            } else {
                proof {
                    assert(vals_of(list@) =~= Seq::<Val>::empty());
                }
            }
            let ghost pre = *self;
            let list = crate::value::reversed(list);
            let ghost lv = vals_of(list@);
            self.push(Type::List(list));
            proof {
                if sm.len() > old_len {
                    assert(sm.skip(old_len as int).reverse().reverse() =~= sm.skip(old_len as int));
                    assert(lv == sm.skip(old_len as int));
                } else {
                    assert(lv =~= Seq::<Val>::empty());
                }
                assert(stack_of(o).len() == old_len);
                assert(listed(o, m, *self));
                assert(evaluated(token@.subrange(1, token@.len() - 1), o, m, *parse, *host, fuel as nat, left as nat));
                assert(word_done(token@, o, *self, *parse, *host, fuel as nat + 1, left as nat));
            }
            left
        } else if first == '{' && last == '}' {
            let r = self.matrix_literal(&cs, parse, host, fuel);
            proof {
                assert(word_done(token@, o, *self, *parse, *host, fuel as nat + 1, r as nat));
            }
            r
        } else if starts_with(t, "error:") {
            let v = Type::Error(replace_str(t, "error:", ""));
            self.push(v);
            proof {
                reveal_strlit("");
                lemma_pushed(o, *self, v@);
                assert(""@ =~= Seq::<char>::empty());
                assert(v@ == Val::Error(crate::text::replace_spec(token@, "error:"@, seq![])));
                assert("error:"@.len() == 6);
                assert(token@.take(6) == "error:"@);
                assert(!(token@[0] == '(' && token@.last() == ')'));
                assert(word_done(token@, o, *self, *parse, *host, fuel as nat + 1, fuel as nat));
            }
            fuel
        } else {
            match get_named(&self.memory, t) {
                Some(v) => {
                    self.push(v);
                    proof {
                        lemma_pushed(o, *self, v@);
                        assert(word_done(token@, o, *self, *parse, *host, fuel as nat + 1, fuel as nat));
                    }
                    fuel
                },
                None => {
                    if first == '#' && last == '#' {
                        let mut line = lit("* Comment \"");
                        line.append(replace_str(t, "#", "").as_str());
                        line.append("\"\n");
                        self.log_print(line);
                        proof {
                            reveal_strlit("");
                            reveal_strlit("* Comment \"");
                            reveal_strlit("\"\n");
                            crate::machine::lemma_effect_none(o);
                            crate::machine::lemma_effect_log(o, o, *self, 0, seq![], seq![], line@);
                            assert(Seq::<Seq<char>>::empty().push(line@) =~= seq![line@]);
                            assert(""@ =~= Seq::<char>::empty());
                            assert("error:"@.len() == 6);
                            assert(line@ == "* Comment \""@ + crate::text::replace_spec(token@, "#"@, seq![]) + "\"\n"@);
                            assert(!(6 <= token@.len() && token@.take(6) == "error:"@));
                            assert(crate::store::lookup(memory_of(o), token@) is None);
                            assert(word_done(token@, o, *self, *parse, *host, fuel as nat + 1, fuel as nat));
                        }
                        fuel
                    } else {
                        let command = copy_string(token);
                        let ghost cv = command;
                        let r = self.execute_command(command, parse, host, fuel);
                        proof {
                            assert(word_done(token@, o, *self, *parse, *host, fuel as nat + 1, r as nat));
                        }
                        r
                    }
                },
            }
        }
    }

    /// A matrix literal `{a, b; c, d}`: its cells are evaluated one by one
    /// and their number values kept, with the number of rows and of cells in
    /// the first row.
    fn matrix_literal<P, C>(&mut self, cs: &Vec<char>, parse: &P, host: &C, fuel: u64) -> (rest: u64)
        where
            P: Fn(String) -> Option<Numeral>,
            C: Fn(String, Executor) -> Executor,
        requires
            parser_total(*parse),
            host_total(*host),
            cs@.len() >= 2,
        ensures
            rest <= fuel,
            matrix_made(cs@.subrange(1, cs@.len() - 1), *final(self)),
            exists|c: Executor, nums: Seq<(u64, Seq<char>)>|
                #[trigger] effect(c, *final(self), 0, seq![Val::Matrix(nums,
                    cut(cs@.subrange(1, cs@.len() - 1), seq![';']).len(),
                    cut(first_row(cs@.subrange(1, cs@.len() - 1)), seq![',']).len())], seq![])
                && cells_from(cut(cs@.subrange(1, cs@.len() - 1), seq![',', ';']), *old(self), c, nums,
                    *parse, *host, fuel as nat + 1, fuel as nat, rest as nat),
        decreases fuel, 1u64,
    {
        let n = cs.len();
        let mut semi: Vec<char> = Vec::new();
        semi.push(';');
        let mut comma: Vec<char> = Vec::new();
        comma.push(',');
        let mut both: Vec<char> = Vec::new();
        both.push(',');
        both.push(';');
        let rows_text = cut_text(cs, 1, n - 1, &semi);
        let row = rows_text.len();
        proof {
            lemma_cut_nonempty(cs@.subrange(1, n - 1), semi@);
        }
        let first_row_chars = chars_of(rows_text[0].as_str());
        let col_pieces = cut_text(&first_row_chars, 0, first_row_chars.len(), &comma);
        proof {
            assert(first_row_chars@.subrange(0, first_row_chars@.len() as int) =~= first_row_chars@);
            assert(views(col_pieces@).len() == col_pieces@.len());
        }
        let col = col_pieces.len();
        let cells = cut_text(cs, 1, n - 1, &both);
        let ghost cv = views(cells@);
        let ghost q0 = *self;
        let ghost cap: nat = fuel as nat + 1;
        let mut values: Vec<Numeral> = Vec::new();
        let mut left = fuel;
        let mut i: usize = 0;
        proof {
            assert(cv.skip(0) =~= cv);
            assert forall|f: Executor, r: nat, ns: Seq<(u64, Seq<char>)>|
                #[trigger] cells_from(cv.skip(0), q0, f, ns, *parse, *host, cap, fuel as nat, r)
                implies cells_from(cv, q0, f, nums_of(values@) + ns, *parse, *host, cap, fuel as nat, r) by {
                assert(nums_of(values@) + ns =~= ns);
            }
        }
        while i < cells.len()
            invariant
                left <= fuel,
                i <= cells@.len(),
                values@.len() == i,
                parser_total(*parse),
                host_total(*host),
                cv == views(cells@),
                cv.len() == cells@.len(),
                cap == fuel as nat + 1,
                forall|f: Executor, r: nat, ns: Seq<(u64, Seq<char>)>|
                    #[trigger] cells_from(cv.skip(i as int), *self, f, ns, *parse, *host, cap, left as nat, r)
                    ==> cells_from(cv, q0, f, nums_of(values@) + ns, *parse, *host, cap, fuel as nat, r),
            decreases cells@.len() - i,
        {
            let ghost q = *self;
            let ghost ql: nat = left as nat;
            let ghost before = values@;
            left = self.evaluate_program(cells[i].as_str(), parse, host, left);
            let ghost b = *self;
            let v = self.pop_stack();
            let ghost c = *self;
            let x = number_of(&v, parse);
            let ghost xv = crate::value::num_val(x);
            values.push(x);
            proof {
                crate::machine::lemma_effect_pop1(b, c);
                assert(cv[i as int] == cells@[i as int]@);
                assert(cv.skip(i as int)[0] == cv[i as int]);
                assert(cv.skip(i as int).drop_first() =~= cv.skip(i + 1));
                assert(nums_of(values@) =~= nums_of(before).push(xv));
                assert forall|f: Executor, r: nat, ns: Seq<(u64, Seq<char>)>|
                    #[trigger] cells_from(cv.skip(i + 1), c, f, ns, *parse, *host, cap, left as nat, r)
                    implies cells_from(cv, q0, f, nums_of(values@) + ns, *parse, *host, cap, fuel as nat, r) by {
                    lemma_cells_step(cv.skip(i as int), q, b, c, f, xv, ns, *parse, *host, cap, ql, left as nat, r);
                    assert(nums_of(before) + (seq![xv] + ns) =~= nums_of(values@) + ns);
                }
            }
            i = i + 1;
        }
        proof {
            assert(semi@ =~= seq![';']);
            assert(comma@ =~= seq![',']);
            assert(both@ =~= seq![',', ';']);
            assert(views(cells@).len() == cells@.len());
            assert(views(rows_text@).len() == rows_text@.len());
            assert(views(rows_text@)[0] == rows_text@[0]@);
            assert(first_row_chars@ == first_row(cs@.subrange(1, n - 1)));
        }
        let ghost nums = values@.map_values(|x: Numeral| crate::value::num_val(x));
        let ghost c = *self;
        self.push(Type::Matrix(values, (row, col)));
        proof {
            assert(nums == nums_of(values@));
            assert(stack_of(*self).last() == Val::Matrix(nums, row as nat, col as nat));
            assert(cv.skip(cv.len() as int) =~= Seq::<Seq<char>>::empty());
            assert(cells_from(cv.skip(i as int), c, c, Seq::<(u64, Seq<char>)>::empty(), *parse, *host, cap, left as nat, left as nat));
            assert(nums_of(values@) + Seq::<(u64, Seq<char>)>::empty() =~= nums_of(values@));
            lemma_pushed(c, *self, Val::Matrix(nums, row as nat, col as nat));
        }
        left
    }

    /// `while`: evaluates the condition code, pops its truth, and while true
    /// evaluates the body; each round costs one unit of fuel.
    fn run_while<P, C>(&mut self, parse: &P, host: &C, fuel: u64) -> (rest: u64)
        where
            P: Fn(String) -> Option<Numeral>,
            C: Fn(String, Executor) -> Executor,
        requires
            parser_total(*parse),
            host_total(*host),
        ensures
            rest <= fuel,
            exists|p: Executor, n: nat| #![trigger effect(*old(self), p, 2, seq![], seq![]), within(n, fuel as nat)]
                effect(*old(self), p, 2, seq![], seq![]) && within(n, fuel as nat)
                && while_from(text_of(arg(*old(self), 0)), text_of(arg(*old(self), 1)), p, *final(self), *parse, *host,
                    fuel as nat + 1, n, fuel as nat, rest as nat),
        decreases fuel, 1u64,
    {
        let ghost o = *self;
        let (cv, bv) = self.pop2();
        let ghost p = *self;
        let cond = cv.get_string();
        let code = bv.get_string();
        let ghost cap: nat = fuel as nat + 1;
        let ghost mut done: nat = 0;
        let mut left = fuel;
        loop
            invariant
                left <= fuel,
                parser_total(*parse),
                host_total(*host),
                cond@ == text_of(arg(o, 0)),
                code@ == text_of(arg(o, 1)),
                cap == fuel as nat + 1,
                o == *old(self),
                effect(o, p, 2, seq![], seq![]),
                forall|f: Executor, r: nat, n: nat| #[trigger] while_from(cond@, code@, *self, f, *parse, *host, cap, n, left as nat, r)
                    ==> while_from(cond@, code@, p, f, *parse, *host, cap, done + n, fuel as nat, r),
            decreases left,
        {
            let ghost q = *self;
            let ghost ql: nat = left as nat;
            if left == 0 || self.halted.is_some() {
                proof {
                    assert(while_from(cond@, code@, q, q, *parse, *host, cap, 0, ql, ql));
                    lemma_while_tests(cond@, code@, p, q, *parse, *host, cap, done, fuel as nat, ql);
                    assert(within(done, fuel as nat));
                }
                return left;
            }
            left = left - 1;
            left = self.evaluate_program(cond.as_str(), parse, host, left);
            let ghost a = *self;
            let ghost mid2: nat = left as nat;
            let verdict = self.pop_stack();
            let go = verdict.get_bool();
            let ghost b = *self;
            proof {
                crate::machine::lemma_effect_pop1(a, b);
            }
            if !go || self.halted.is_some() {
                proof {
                    lemma_while_stop(cond@, code@, q, a, b, *parse, *host, cap, ql, mid2);
                    lemma_while_tests(cond@, code@, p, b, *parse, *host, cap, done + 1, fuel as nat, mid2);
                    assert(within(done + 1, fuel as nat));
                }
                return left;
            }
            left = self.evaluate_program(code.as_str(), parse, host, left);
            proof {
                let c = *self;
                let mid3: nat = left as nat;
                assert forall|f: Executor, r: nat, n: nat| #[trigger] while_from(cond@, code@, c, f, *parse, *host, cap, n, mid3, r)
                    implies while_from(cond@, code@, p, f, *parse, *host, cap, (done + 1) + n, fuel as nat, r) by {
                    lemma_while_round(cond@, code@, q, a, b, c, f, *parse, *host, cap, n, ql, mid2, mid3, r);
                    assert(done + (n + 1) == (done + 1) + n);
                }
                done = done + 1;
            }
        }
    }

    /// Pops the code, the variable name and the list of a loop command.
    fn pop_loop(&mut self) -> (r: (String, String, Vec<Type>))
        ensures
            r.0@ == text_of(arg(*old(self), 0)),
            r.1@ == text_of(arg(*old(self), 1)),
            vals_of(r.2@) == items_of(arg(*old(self), 2)),
            effect(*old(self), *final(self), 3, seq![], seq![]),
    {
        let (code, vars, list) = self.pop3();
        (code.get_string(), vars.get_string(), list.get_list())
    }

    /// `for`: binds the variable to each element in turn and evaluates the code.
    fn run_for<P, C>(&mut self, parse: &P, host: &C, fuel: u64) -> (rest: u64)
        where
            P: Fn(String) -> Option<Numeral>,
            C: Fn(String, Executor) -> Executor,
        requires
            parser_total(*parse),
            host_total(*host),
        ensures
            rest <= fuel,
            exists|p: Executor, k: int|
                #![trigger effect(*old(self), p, 3, seq![], seq![]), stopped_at(k, loop_items(*old(self)).len() as int, *final(self))]
                effect(*old(self), p, 3, seq![], seq![]) && stopped_at(k, loop_items(*old(self)).len() as int, *final(self))
                && looped(loop_items(*old(self)).take(k), loop_name(*old(self)), loop_code(*old(self)), p, *final(self),
                    *parse, *host, fuel as nat + 1, fuel as nat, rest as nat),
        decreases fuel, 1u64,
    {
        let ghost o = *self;
        let (code, vars, list) = self.pop_loop();
        let ghost p = *self;
        let ghost items = loop_items(o);
        proof {
            lemma_vals_of(list@);
            assert(items.take(0) =~= Seq::<Val>::empty());
        }
        let mut left = fuel;
        let mut i: usize = 0;
        while i < list.len()
            invariant
                left <= fuel,
                i <= list@.len(),
                parser_total(*parse),
                host_total(*host),
                items == loop_items(o),
                items == vals_of(list@),
                items.len() == list@.len(),
                forall|j: int| 0 <= j < list@.len() ==> #[trigger] items[j] == list@[j]@,
                code@ == loop_code(o),
                vars@ == loop_name(o),
                looped(items.take(i as int), vars@, code@, p, *self, *parse, *host, fuel as nat + 1, fuel as nat, left as nat),
                o == *old(self),
                effect(o, p, 3, seq![], seq![]),
            decreases list@.len() - i,
        {
            if self.halted.is_some() {
                proof {
                    assert(stopped_at(i as int, items.len() as int, *self));
                }
                return left;
            }
            let ghost m = *self;
            let item = list[i].duplicate();
            set_named(&mut self.memory, copy_string(&vars), item);
            let ghost a = *self;
            let ghost mid: nat = left as nat;
            left = self.evaluate_program(code.as_str(), parse, host, left);
            proof {
                assert(bound(m, a, vars@, items[i as int]));
                lemma_looped_step(items, i as int, vars@, code@, p, m, a, *self, *parse, *host, fuel as nat + 1, fuel as nat, mid, left as nat);
            }
            i = i + 1;
        }
        proof {
            assert(stopped_at(list@.len() as int, items.len() as int, *self));
            assert(items.take(list@.len() as int) =~= items);
        }
        left
    }

    /// `map`: the list of what the code leaves on top for each element.
    fn run_map<P, C>(&mut self, parse: &P, host: &C, fuel: u64) -> (rest: u64)
        where
            P: Fn(String) -> Option<Numeral>,
            C: Fn(String, Executor) -> Executor,
        requires
            parser_total(*parse),
            host_total(*host),
        ensures
            rest <= fuel,
            exists|p: Executor, k: int, q: Executor, list: Seq<Val>|
                #![trigger effect(*old(self), p, 3, seq![], seq![]), listed_at(k, loop_items(*old(self)).len() as int, q, *final(self), list)]
                effect(*old(self), p, 3, seq![], seq![]) && listed_at(k, loop_items(*old(self)).len() as int, q, *final(self), list)
                && mapped(loop_items(*old(self)).take(k), loop_name(*old(self)), loop_code(*old(self)), p, q, list,
                    *parse, *host, fuel as nat + 1, fuel as nat, rest as nat),
        decreases fuel, 1u64,
    {
        let ghost o = *self;
        let (code, vars, list) = self.pop_loop();
        let ghost p = *self;
        let ghost items = loop_items(o);
        proof {
            lemma_vals_of(list@);
            assert(items.take(0) =~= Seq::<Val>::empty());
            assert(vals_of(Seq::<Type>::empty()) =~= Seq::<Val>::empty());
        }
        let mut left = fuel;
        let mut results: Vec<Type> = Vec::new();
        let mut i: usize = 0;
        while i < list.len()
            invariant
                left <= fuel,
                i <= list@.len(),
                parser_total(*parse),
                host_total(*host),
                items == loop_items(o),
                items == vals_of(list@),
                items.len() == list@.len(),
                forall|j: int| 0 <= j < list@.len() ==> #[trigger] items[j] == list@[j]@,
                code@ == loop_code(o),
                vars@ == loop_name(o),
                mapped(items.take(i as int), vars@, code@, p, *self, vals_of(results@), *parse, *host, fuel as nat + 1, fuel as nat, left as nat),
                o == *old(self),
                effect(o, p, 3, seq![], seq![]),
            decreases list@.len() - i,
        {
            if self.halted.is_some() {
                proof {
                    assert(listed_at(i as int, items.len() as int, *self, *self, vals_of(results@)));
                }
                return left;
            }
            let ghost m = *self;
            let item = list[i].duplicate();
            set_named(&mut self.memory, copy_string(&vars), item);
            let ghost a = *self;
            let ghost mid: nat = left as nat;
            left = self.evaluate_program(code.as_str(), parse, host, left);
            let ghost b = *self;
            let v = self.pop_stack();
            let ghost before = results@;
            results.push(v);
            proof {
                crate::machine::lemma_effect_pop1(b, *self);
                assert(bound(m, a, vars@, items[i as int]));
                lemma_mapped_step(items, i as int, vars@, code@, p, m, a, b, *self, vals_of(before), v@,
                    *parse, *host, fuel as nat + 1, fuel as nat, mid, left as nat);
                crate::value::lemma_vals_push(before, v);
            }
            i = i + 1;
        }
        let ghost q = *self;
        let ghost rv = vals_of(results@);
        let out = Type::List(results);
        self.push(out);
        proof {
            lemma_pushed(q, *self, Val::List(rv));
            assert(listed_at(list@.len() as int, items.len() as int, q, *self, rv));
            assert(items.take(list@.len() as int) =~= items);
        }
        left
    }

    /// `filter`: the elements for which the code leaves a true value on top.
    fn run_filter<P, C>(&mut self, parse: &P, host: &C, fuel: u64) -> (rest: u64)
        where
            P: Fn(String) -> Option<Numeral>,
            C: Fn(String, Executor) -> Executor,
        requires
            parser_total(*parse),
            host_total(*host),
        ensures
            rest <= fuel,
            exists|p: Executor, k: int, q: Executor, list: Seq<Val>|
                #![trigger effect(*old(self), p, 3, seq![], seq![]), listed_at(k, loop_items(*old(self)).len() as int, q, *final(self), list)]
                effect(*old(self), p, 3, seq![], seq![]) && listed_at(k, loop_items(*old(self)).len() as int, q, *final(self), list)
                && filtered(loop_items(*old(self)).take(k), loop_name(*old(self)), loop_code(*old(self)), p, q, list,
                    *parse, *host, fuel as nat + 1, fuel as nat, rest as nat),
        decreases fuel, 1u64,
    {
        let ghost o = *self;
        let (code, vars, list) = self.pop_loop();
        let ghost p = *self;
        let ghost items = loop_items(o);
        proof {
            lemma_vals_of(list@);
            assert(items.take(0) =~= Seq::<Val>::empty());
            assert(vals_of(Seq::<Type>::empty()) =~= Seq::<Val>::empty());
        }
        let mut left = fuel;
        let mut results: Vec<Type> = Vec::new();
        let mut i: usize = 0;
        while i < list.len()
            invariant
                left <= fuel,
                i <= list@.len(),
                parser_total(*parse),
                host_total(*host),
                items == loop_items(o),
                items == vals_of(list@),
                items.len() == list@.len(),
                forall|j: int| 0 <= j < list@.len() ==> #[trigger] items[j] == list@[j]@,
                code@ == loop_code(o),
                vars@ == loop_name(o),
                filtered(items.take(i as int), vars@, code@, p, *self, vals_of(results@), *parse, *host, fuel as nat + 1, fuel as nat, left as nat),
                o == *old(self),
                effect(o, p, 3, seq![], seq![]),
            decreases list@.len() - i,
        {
            if self.halted.is_some() {
                proof {
                    assert(listed_at(i as int, items.len() as int, *self, *self, vals_of(results@)));
                }
                return left;
            }
            let ghost m = *self;
            let item = list[i].duplicate();
            set_named(&mut self.memory, copy_string(&vars), item);
            let ghost a = *self;
            let ghost mid: nat = left as nat;
            left = self.evaluate_program(code.as_str(), parse, host, left);
            let ghost b = *self;
            let verdict = self.pop_stack();
            let ghost before = results@;
            if verdict.get_bool() {
                let x = list[i].duplicate();
                results.push(x);
                proof {
                    crate::value::lemma_vals_push(before, x);
                }
            }
            proof {
                crate::machine::lemma_effect_pop1(b, *self);
                assert(bound(m, a, vars@, items[i as int]));
                lemma_filtered_step(items, i as int, vars@, code@, p, m, a, b, *self, vals_of(before),
                    *parse, *host, fuel as nat + 1, fuel as nat, mid, left as nat);
                assert(vals_of(results@) == keep(vals_of(before), crate::machine::top(stack_of(b)), items[i as int]));
            }
            i = i + 1;
        }
        let ghost q = *self;
        let ghost rv = vals_of(results@);
        let out = Type::List(results);
        self.push(out);
        proof {
            lemma_pushed(q, *self, Val::List(rv));
            assert(listed_at(list@.len() as int, items.len() as int, q, *self, rv));
            assert(items.take(list@.len() as int) =~= items);
        }
        left
    }

    /// `reduce`: folds the list into the accumulator variable with the code;
    /// pushes the result and leaves the accumulator as the empty string.
    fn run_reduce<P, C>(&mut self, parse: &P, host: &C, fuel: u64) -> (rest: u64)
        where
            P: Fn(String) -> Option<Numeral>,
            C: Fn(String, Executor) -> Executor,
        requires
            parser_total(*parse),
            host_total(*host),
        ensures
            rest <= fuel,
            exists|p: Executor, p0: Executor, k: int, q: Executor|
                #![trigger effect(*old(self), p, 5, seq![], seq![]), bound(p, p0, text_of(arg(*old(self), 3)), arg(*old(self), 2)),
                    folded_at(k, crate::value::items_of(arg(*old(self), 4)).len() as int, q, *final(self), text_of(arg(*old(self), 3)))]
                effect(*old(self), p, 5, seq![], seq![]) && bound(p, p0, text_of(arg(*old(self), 3)), arg(*old(self), 2))
                && folded_at(k, crate::value::items_of(arg(*old(self), 4)).len() as int, q, *final(self), text_of(arg(*old(self), 3)))
                && reduced(crate::value::items_of(arg(*old(self), 4)).take(k), text_of(arg(*old(self), 1)), text_of(arg(*old(self), 3)),
                    text_of(arg(*old(self), 0)), p0, q, *parse, *host, fuel as nat + 1, fuel as nat, rest as nat),
        decreases fuel, 1u64,
    {
        let ghost o = *self;
        let (cv, nv, init) = self.pop3();
        let ghost m1 = *self;
        let (av, lv) = self.pop2();
        let ghost p = *self;
        proof {
            crate::machine::lemma_effect_chain(o, m1, p, 3, 2);
            assert(arg(m1, 0) == arg(o, 3));
            assert(arg(m1, 1) == arg(o, 4));
        }
        let code = cv.get_string();
        let now = nv.get_string();
        let acc = av.get_string();
        let list = lv.get_list();
        let ghost items = crate::value::items_of(arg(o, 4));
        set_named(&mut self.memory, copy_string(&acc), init);
        let ghost p0 = *self;
        proof {
            lemma_vals_of(list@);
            assert(bound(p, p0, acc@, arg(o, 2)));
            assert(items.take(0) =~= Seq::<Val>::empty());
        }
        let mut left = fuel;
        let mut i: usize = 0;
        while i < list.len()
            invariant
                left <= fuel,
                i <= list@.len(),
                parser_total(*parse),
                host_total(*host),
                items == crate::value::items_of(arg(o, 4)),
                items == vals_of(list@),
                items.len() == list@.len(),
                forall|j: int| 0 <= j < list@.len() ==> #[trigger] items[j] == list@[j]@,
                code@ == text_of(arg(o, 0)),
                now@ == text_of(arg(o, 1)),
                acc@ == text_of(arg(o, 3)),
                reduced(items.take(i as int), now@, acc@, code@, p0, *self, *parse, *host, fuel as nat + 1, fuel as nat, left as nat),
                o == *old(self),
                effect(o, p, 5, seq![], seq![]),
                bound(p, p0, acc@, arg(o, 2)),
            decreases list@.len() - i,
        {
            if self.halted.is_some() {
                proof {
                    assert(folded_at(i as int, items.len() as int, *self, *self, acc@));
                }
                return left;
            }
            let ghost m = *self;
            let item = list[i].duplicate();
            set_named(&mut self.memory, copy_string(&now), item);
            let ghost a = *self;
            let ghost mid: nat = left as nat;
            left = self.evaluate_program(code.as_str(), parse, host, left);
            let ghost b = *self;
            let result = self.pop_stack();
            let ghost c = *self;
            proof {
                crate::machine::lemma_effect_pop1(b, c);
            }
            set_named(&mut self.memory, copy_string(&acc), result);
            proof {
                assert(bound(m, a, now@, items[i as int]));
                assert(bound(c, *self, acc@, crate::machine::top(stack_of(b))));
                lemma_reduced_step(items, i as int, now@, acc@, code@, p0, m, a, b, c, *self,
                    *parse, *host, fuel as nat + 1, fuel as nat, mid, left as nat);
            }
            i = i + 1;
        }
        let ghost q = *self;
        let result = match get_named(&self.memory, acc.as_str()) {
            Some(v) => v,
            None => Type::String(String::new()),
        };
        let ghost rv = result@;
        self.push(result);
        let empty = String::new();
        proof {
            assert(empty@ =~= Seq::<char>::empty());
        }
        set_named(&mut self.memory, acc, Type::String(empty));
        proof {
            assert(folded_at(list@.len() as int, items.len() as int, q, *self, text_of(arg(o, 3))));
            assert(items.take(list@.len() as int) =~= items);
        }
        left
    }

    /// `method`: binds `self` to the object and evaluates the code of its
    /// property named by the method (nothing if there is none).
    fn run_method<P, C>(&mut self, parse: &P, host: &C, fuel: u64) -> (rest: u64)
        where
            P: Fn(String) -> Option<Numeral>,
            C: Fn(String, Executor) -> Executor,
        requires
            parser_total(*parse),
            host_total(*host),
        ensures
            rest <= fuel,
            exists|m: Executor| #[trigger] method_bound(*old(self), m)
                && evaluated(method_code(*old(self)), m, *final(self), *parse, *host, fuel as nat, rest as nat),
        decreases fuel, 1u64,
    {
        let ghost o = *self;
        let (mv, obj) = self.pop2();
        let method = mv.get_string();
        let (name, value) = get_object(obj);
        let program = match get_named(&value, method.as_str()) {
            Some(v) => v.get_string(),
            None => String::new(),
        };
        let ghost nv = name@;
        let ghost fv = crate::value::fields_of(value@);
        set_named(&mut self.memory, lit("self"), Type::Object(name, value));
        let ghost m = *self;
        proof {
            reveal_strlit("self");
            assert(Type::Object(name, value)@ == Val::Object(nv, fv));
            assert(stack_of(m) + Seq::<Val>::empty() =~= stack_of(m));
            assert(crate::machine::underflow(stack_of(o).len(), 2) + Seq::<Seq<char>>::empty()
                =~= crate::machine::underflow(stack_of(o).len(), 2));
            assert(method_bound(o, m));
            assert(program@ == method_code(o));
        }
        self.evaluate_program(program.as_str(), parse, host, fuel)
    }
}

} // verus!
