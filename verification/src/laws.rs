//! What the commands and the evaluator promise across calls: which command
//! undoes which, and what a variable gives back.
use vstd::prelude::*;
use crate::value::{Val, text_of, items_of};
use crate::machine::{Executor, Mode, stack_of, memory_of, wf, arg, top, below, after_pops, nth_pop};
use crate::commands::{does_swap, does_copy, does_pop, does_reverse};
use crate::memory::{does_var, does_free};
use crate::store::{lookup, law_lookup_assign, law_lookup_unassign};
use crate::numeral::Numeral;
use crate::interp::{evaluated, closed, stepped};
use crate::syntax::comment_token;

verus! {

/// The value pushed is the value the next pop gives, and that pop leaves
/// the stack as it was.
pub proof fn law_push_pop(s: Seq<Val>, v: Val)
    ensures
        top(s.push(v)) == v,
        below(s.push(v)) == s,
{
    assert(s.push(v).drop_last() =~= s);
}

/// `swap` twice leaves a stack of two or more values as it was.
pub proof fn law_swap_twice(o: Executor, m: Executor, f: Executor)
    requires
        does_swap(o, m),
        does_swap(m, f),
        stack_of(o).len() >= 2,
    ensures
        stack_of(f) == stack_of(o),
{
    reveal_with_fuel(after_pops, 3);
    reveal_with_fuel(nth_pop, 3);
    let s = stack_of(o);
    let n = s.len();
    assert(below(s) =~= s.take(n - 1));
    assert(below(below(s)) =~= s.take(n - 2));
    let t = stack_of(m);
    assert(t =~= s.take(n - 2).push(s[n - 1]).push(s[n - 2]));
    assert(below(t) =~= s.take(n - 2).push(s[n - 1]));
    assert(below(below(t)) =~= s.take(n - 2));
    assert(stack_of(f) =~= s);
}

/// `copy` then `pop` leaves a non-empty stack as it was.
pub proof fn law_copy_pop(o: Executor, m: Executor, f: Executor)
    requires
        does_copy(o, m),
        does_pop(m, f),
        stack_of(o).len() >= 1,
    ensures
        stack_of(f) == stack_of(o),
{
    reveal_with_fuel(after_pops, 2);
    let s = stack_of(o);
    let n = s.len();
    assert(below(s) =~= s.take(n - 1));
    let t = stack_of(m);
    assert(t =~= s.take(n - 1).push(s[n - 1]).push(s[n - 1]));
    assert(below(t) =~= s);
    assert(stack_of(f) =~= s);
}

/// `reverse` twice leaves a stack whose top is a list as it was.
pub proof fn law_reverse_twice(o: Executor, m: Executor, f: Executor)
    requires
        does_reverse(o, m),
        does_reverse(m, f),
        stack_of(o).len() >= 1,
        arg(o, 0) is List,
    ensures
        stack_of(f) == stack_of(o),
{
    reveal_with_fuel(after_pops, 2);
    let s = stack_of(o);
    let n = s.len();
    let l = items_of(arg(o, 0));
    assert(below(s) =~= s.take(n - 1));
    let t = stack_of(m);
    assert(t =~= s.take(n - 1).push(Val::List(l.reverse())));
    assert(below(t) =~= s.take(n - 1));
    assert(items_of(arg(m, 0)) == l.reverse());
    assert(l.reverse().reverse() =~= l);
    assert(stack_of(f) =~= s.take(n - 1).push(Val::List(l)));
    assert(s.take(n - 1).push(Val::List(l)) =~= s);
}

/// After `var`, the variable named by the top value holds the value below
/// it.
pub proof fn law_var_read(o: Executor, m: Executor)
    requires
        does_var(o, m),
    ensures
        lookup(memory_of(m), text_of(arg(o, 0))) == Some(arg(o, 1)),
{
    law_lookup_assign(memory_of(o), text_of(arg(o, 0)), arg(o, 1));
}

/// `free` after `var` of the same name leaves no such variable, and other
/// variables as `var` left them.
pub proof fn law_var_free(o: Executor, m: Executor, f: Executor, other: Seq<char>)
    requires
        wf(o),
        does_var(o, m),
        does_free(m, f),
        text_of(arg(m, 0)) == text_of(arg(o, 0)),
    ensures
        lookup(memory_of(f), text_of(arg(o, 0))) is None,
        other != text_of(arg(o, 0)) ==> lookup(memory_of(f), other) == lookup(memory_of(m), other),
{
    law_lookup_assign(memory_of(o), text_of(arg(o, 0)), arg(o, 1));
    law_lookup_unassign(memory_of(m), text_of(arg(o, 0)), other);
}

/// A program without tokens changes nothing but the debug log.
pub proof fn law_blank_program<P: Fn(String) -> Option<Numeral>, C: Fn(String, Executor) -> Executor>(
    code: Seq<char>, o: Executor, f: Executor, parse: P, host: C, fuel: nat, rest: nat,
)
    requires
        crate::syntax::tokenize(code).len() == 0,
        evaluated(code, o, f, parse, host, fuel, rest),
    ensures
        closed(o, f),
        rest == fuel,
{
    let ts = crate::syntax::tokenize(code);
    let (k, m) = choose|k: int, m: Executor| 0 <= k <= ts.len() && crate::interp::ran(ts.take(k), o, m, parse, host, fuel, rest)
        && #[trigger] crate::interp::ended(k, ts.len() as int, m, f, rest);
    assert(ts.take(k).len() == 0);
}

/// A one-token program, run with fuel by an executor that has not halted,
/// does what its token does and then logs the stack.
pub proof fn law_single_token<P: Fn(String) -> Option<Numeral>, C: Fn(String, Executor) -> Executor>(
    code: Seq<char>, o: Executor, f: Executor, parse: P, host: C, fuel: nat, rest: nat,
)
    requires
        crate::syntax::tokenize(code).len() == 1,
        evaluated(code, o, f, parse, host, fuel, rest),
        fuel > 0,
        o.halted is None,
    ensures
        exists|m: Executor| #[trigger] stepped(crate::syntax::tokenize(code)[0], o, m, parse, host, fuel, rest) && closed(m, f),
{
    let ts = crate::syntax::tokenize(code);
    let (k, m) = choose|k: int, m: Executor| 0 <= k <= ts.len() && crate::interp::ran(ts.take(k), o, m, parse, host, fuel, rest)
        && #[trigger] crate::interp::ended(k, ts.len() as int, m, f, rest);
    if k == 0 {
        assert(ts.take(0).len() == 0);
        assert(m == o);
    } else {
        let x = ts.take(1);
        assert(x.len() == 1);
        assert(x.last() == ts[0]);
        let (e, e2, mid) = choose|e: Executor, e2: Executor, mid: nat|
            #![trigger crate::interp::announced(e, e2, x.last()), crate::interp::within(mid, fuel)]
            crate::interp::within(mid, fuel) && mid >= 1 && crate::interp::ran(x.drop_last(), o, e, parse, host, fuel, mid)
            && crate::interp::announced(e, e2, x.last()) && crate::interp::token_done(x.last(), e2, m, parse, host, mid, rest);
        assert(x.drop_last().len() == 0);
        assert(e == o);
        assert(mid == fuel);
        assert(stepped(ts[0], o, m, parse, host, fuel, rest));
    }
}

/// Every command the library runs itself keeps variable names unique.
pub proof fn law_library_keeps_names<P: Fn(String) -> Option<Numeral>>(t: Seq<char>, o: Executor, f: Executor, parse: P)
    requires
        crate::interp::is_library_name(t),
        crate::interp::command_done(t, o, f, parse),
        wf(o),
    ensures
        wf(f),
{
}

// ---------------------------------------------------------------------------
// Evaluation keeps variable names unique

/// The host keeps variable names unique.
pub open spec fn host_keeps_names<C: Fn(String, Executor) -> Executor>(host: C) -> bool {
    forall|a: String, e: Executor, f: Executor| wf(e) && #[trigger] call_ensures(host, (a, e), f) ==> wf(f)
}

proof fn lemma_bound_wf(a: Executor, b: Executor, name: Seq<char>, v: Val)
    requires
        wf(a),
        crate::interp::bound(a, b, name, v),
    ensures
        wf(b),
{
    law_lookup_assign(memory_of(a), name, v);
}

proof fn lemma_eval_wf<P: Fn(String) -> Option<Numeral>, C: Fn(String, Executor) -> Executor>(
    code: Seq<char>, o: Executor, f: Executor, parse: P, host: C, fuel: nat, rest: nat,
)
    requires
        evaluated(code, o, f, parse, host, fuel, rest),
        wf(o),
        host_keeps_names(host),
    ensures
        wf(f),
    decreases fuel, 6nat, 0nat,
{
    let ts = crate::syntax::tokenize(code);
    let (k, m) = choose|k: int, m: Executor| 0 <= k <= ts.len() && crate::interp::ran(ts.take(k), o, m, parse, host, fuel, rest)
        && #[trigger] crate::interp::ended(k, ts.len() as int, m, f, rest);
    lemma_ran_wf(ts.take(k), o, m, parse, host, fuel, rest);
}

proof fn lemma_ran_wf<P: Fn(String) -> Option<Numeral>, C: Fn(String, Executor) -> Executor>(
    ts: Seq<Seq<char>>, o: Executor, f: Executor, parse: P, host: C, fuel: nat, rest: nat,
)
    requires
        crate::interp::ran(ts, o, f, parse, host, fuel, rest),
        wf(o),
        host_keeps_names(host),
    ensures
        wf(f),
    decreases fuel, 5nat, ts.len(),
{
    if ts.len() > 0 {
        let (m, e2, mid) = choose|m: Executor, e2: Executor, mid: nat|
            #![trigger crate::interp::announced(m, e2, ts.last()), crate::interp::within(mid, fuel)]
            crate::interp::within(mid, fuel) && mid >= 1 && crate::interp::ran(ts.drop_last(), o, m, parse, host, fuel, mid)
            && crate::interp::announced(m, e2, ts.last()) && crate::interp::token_done(ts.last(), e2, f, parse, host, mid, rest);
        lemma_ran_wf(ts.drop_last(), o, m, parse, host, fuel, mid);
        lemma_token_wf(ts.last(), e2, f, parse, host, mid, rest);
    }
}

proof fn lemma_token_wf<P: Fn(String) -> Option<Numeral>, C: Fn(String, Executor) -> Executor>(
    t: Seq<char>, o: Executor, f: Executor, parse: P, host: C, fuel: nat, rest: nat,
)
    requires
        crate::interp::token_done(t, o, f, parse, host, fuel, rest),
        wf(o),
        host_keeps_names(host),
    ensures
        wf(f),
    decreases fuel, 3nat, 0nat,
{
    if crate::interp::word_done(t, o, f, parse, host, fuel, rest) {
        lemma_word_wf(t, o, f, parse, host, fuel, rest);
    }
}

proof fn lemma_word_wf<P: Fn(String) -> Option<Numeral>, C: Fn(String, Executor) -> Executor>(
    t: Seq<char>, o: Executor, f: Executor, parse: P, host: C, fuel: nat, rest: nat,
)
    requires
        crate::interp::word_done(t, o, f, parse, host, fuel, rest),
        wf(o),
        host_keeps_names(host),
    ensures
        wf(f),
    decreases fuel, 2nat, 0nat,
{
    let g = (fuel - 1) as nat;
    if t == "true"@ || t == "false"@ {
    } else if t.len() > 0 && t[0] == '(' && t.last() == ')' {
    } else if t.len() > 0 && t[0] == '[' && t.last() == ']' {
        let m = choose|m: Executor| #[trigger] crate::interp::listed(o, m, f)
            && evaluated(t.subrange(1, t.len() - 1), o, m, parse, host, g, rest);
        lemma_eval_wf(t.subrange(1, t.len() - 1), o, m, parse, host, g, rest);
    } else if t.len() > 0 && t[0] == '{' && t.last() == '}' {
        let body = t.subrange(1, t.len() - 1);
        let (c, nums) = choose|c: Executor, nums: Seq<(u64, Seq<char>)>|
            #[trigger] crate::machine::effect(c, f, 0, seq![Val::Matrix(nums,
                crate::syntax::cut(body, seq![';']).len(),
                crate::syntax::cut(crate::interp::first_row(body), seq![',']).len())], seq![])
            && crate::interp::cells_from(crate::syntax::cut(body, seq![',', ';']), o, c, nums, parse, host, fuel, g, rest);
        lemma_cells_wf(crate::syntax::cut(body, seq![',', ';']), o, c, nums, parse, host, fuel, g, rest);
    } else if 6 <= t.len() && t.take(6) == "error:"@ {
    } else if crate::store::lookup(memory_of(o), t) is Some {
    } else if t.len() > 0 && t[0] == '#' && t.last() == '#' {
    } else {
        lemma_command_wf(t, o, f, parse, host, fuel, rest);
    }
}

proof fn lemma_command_wf<P: Fn(String) -> Option<Numeral>, C: Fn(String, Executor) -> Executor>(
    t: Seq<char>, o: Executor, f: Executor, parse: P, host: C, fuel: nat, rest: nat,
)
    requires
        crate::interp::command_ran(t, o, f, parse, host, fuel, rest),
        wf(o),
        host_keeps_names(host),
    ensures
        wf(f),
    decreases fuel, 1nat, 0nat,
{
    let g = (fuel - 1) as nat;
    crate::interp::lemma_control_words();
    if crate::interp::is_library_name(t) {
        law_library_keeps_names(t, o, f, parse);
    } else if crate::interp::is_host_name(t) {
        let a = choose|a: String| a@ == t && #[trigger] call_ensures(host, (a, o), f);
    } else if !crate::interp::is_control_name(t) {
    } else if t == "eval"@ {
        let m = choose|m: Executor| #[trigger] crate::machine::effect(o, m, 1, seq![], seq![])
            && evaluated(text_of(arg(o, 0)), m, f, parse, host, g, rest);
        lemma_eval_wf(text_of(arg(o, 0)), m, f, parse, host, g, rest);
    } else if t == "if"@ {
        let m = choose|m: Executor| #[trigger] crate::machine::effect(o, m, 3, seq![], seq![])
            && evaluated(crate::interp::branch_code(o), m, f, parse, host, g, rest);
        lemma_eval_wf(crate::interp::branch_code(o), m, f, parse, host, g, rest);
    } else if t == "method"@ {
        let m = choose|m: Executor| #[trigger] crate::interp::method_bound(o, m)
            && evaluated(crate::interp::method_code(o), m, f, parse, host, g, rest);
        let parts = crate::objects::object_parts(arg(o, 1));
        law_lookup_assign(memory_of(o), "self"@, Val::Object(parts.0, parts.1));
        lemma_eval_wf(crate::interp::method_code(o), m, f, parse, host, g, rest);
    } else if t == "while"@ {
        let (p, n) = choose|p: Executor, n: nat|
            #![trigger crate::machine::effect(o, p, 2, seq![], seq![]), crate::interp::within(n, g)]
            crate::machine::effect(o, p, 2, seq![], seq![]) && crate::interp::within(n, g)
            && crate::interp::while_from(text_of(arg(o, 0)), text_of(arg(o, 1)), p, f, parse, host, fuel, n, g, rest);
        lemma_while_wf(text_of(arg(o, 0)), text_of(arg(o, 1)), p, f, parse, host, fuel, n, g, rest);
    } else if t == "for"@ {
        let items = crate::interp::loop_items(o);
        let (p, k) = choose|p: Executor, k: int|
            #![trigger crate::machine::effect(o, p, 3, seq![], seq![]), crate::interp::stopped_at(k, items.len() as int, f)]
            crate::machine::effect(o, p, 3, seq![], seq![]) && crate::interp::stopped_at(k, items.len() as int, f)
            && crate::interp::looped(items.take(k), crate::interp::loop_name(o), crate::interp::loop_code(o), p, f, parse, host, fuel, g, rest);
        lemma_looped_wf(items.take(k), crate::interp::loop_name(o), crate::interp::loop_code(o), p, f, parse, host, fuel, g, rest);
    } else if t == "map"@ {
        let items = crate::interp::loop_items(o);
        let (p, k, q, list) = choose|p: Executor, k: int, q: Executor, list: Seq<Val>|
            #![trigger crate::machine::effect(o, p, 3, seq![], seq![]), crate::interp::listed_at(k, items.len() as int, q, f, list)]
            crate::machine::effect(o, p, 3, seq![], seq![]) && crate::interp::listed_at(k, items.len() as int, q, f, list)
            && crate::interp::mapped(items.take(k), crate::interp::loop_name(o), crate::interp::loop_code(o), p, q, list, parse, host, fuel, g, rest);
        lemma_mapped_wf(items.take(k), crate::interp::loop_name(o), crate::interp::loop_code(o), p, q, list, parse, host, fuel, g, rest);
    } else if t == "filter"@ {
        let items = crate::interp::loop_items(o);
        let (p, k, q, list) = choose|p: Executor, k: int, q: Executor, list: Seq<Val>|
            #![trigger crate::machine::effect(o, p, 3, seq![], seq![]), crate::interp::listed_at(k, items.len() as int, q, f, list)]
            crate::machine::effect(o, p, 3, seq![], seq![]) && crate::interp::listed_at(k, items.len() as int, q, f, list)
            && crate::interp::filtered(items.take(k), crate::interp::loop_name(o), crate::interp::loop_code(o), p, q, list, parse, host, fuel, g, rest);
        lemma_filtered_wf(items.take(k), crate::interp::loop_name(o), crate::interp::loop_code(o), p, q, list, parse, host, fuel, g, rest);
    } else {
        assert(t == "reduce"@);
        let items = crate::value::items_of(arg(o, 4));
        let acc = text_of(arg(o, 3));
        let (p, p0, k, q) = choose|p: Executor, p0: Executor, k: int, q: Executor|
            #![trigger crate::machine::effect(o, p, 5, seq![], seq![]), crate::interp::bound(p, p0, acc, arg(o, 2)),
                crate::interp::folded_at(k, items.len() as int, q, f, acc)]
            crate::machine::effect(o, p, 5, seq![], seq![]) && crate::interp::bound(p, p0, acc, arg(o, 2))
            && crate::interp::folded_at(k, items.len() as int, q, f, acc)
            && crate::interp::reduced(items.take(k), text_of(arg(o, 1)), acc, text_of(arg(o, 0)), p0, q, parse, host, fuel, g, rest);
        lemma_bound_wf(p, p0, acc, arg(o, 2));
        lemma_reduced_wf(items.take(k), text_of(arg(o, 1)), acc, text_of(arg(o, 0)), p0, q, parse, host, fuel, g, rest);
        law_lookup_assign(memory_of(q), acc, Val::Text(seq![]));
    }
}

proof fn lemma_looped_wf<P: Fn(String) -> Option<Numeral>, C: Fn(String, Executor) -> Executor>(
    items: Seq<Val>, name: Seq<char>, code: Seq<char>, o: Executor, f: Executor, parse: P, host: C,
    cap: nat, fuel: nat, rest: nat,
)
    requires
        crate::interp::looped(items, name, code, o, f, parse, host, cap, fuel, rest),
        wf(o),
        host_keeps_names(host),
    ensures
        wf(f),
    decreases cap, 0nat, items.len(),
{
    if items.len() > 0 {
        let (m, a, mid) = choose|m: Executor, a: Executor, mid: nat|
            #![trigger crate::interp::bound(m, a, name, items.last()), crate::interp::within(mid, fuel)]
            crate::interp::within(mid, fuel) && mid < cap && crate::interp::looped(items.drop_last(), name, code, o, m, parse, host, cap, fuel, mid)
            && m.halted is None && crate::interp::bound(m, a, name, items.last()) && evaluated(code, a, f, parse, host, mid, rest);
        lemma_looped_wf(items.drop_last(), name, code, o, m, parse, host, cap, fuel, mid);
        lemma_bound_wf(m, a, name, items.last());
        lemma_eval_wf(code, a, f, parse, host, mid, rest);
    }
}

proof fn lemma_mapped_wf<P: Fn(String) -> Option<Numeral>, C: Fn(String, Executor) -> Executor>(
    items: Seq<Val>, name: Seq<char>, code: Seq<char>, o: Executor, f: Executor, results: Seq<Val>, parse: P, host: C,
    cap: nat, fuel: nat, rest: nat,
)
    requires
        crate::interp::mapped(items, name, code, o, f, results, parse, host, cap, fuel, rest),
        wf(o),
        host_keeps_names(host),
    ensures
        wf(f),
    decreases cap, 0nat, items.len(),
{
    if items.len() > 0 {
        let (m, a, b, mid) = choose|m: Executor, a: Executor, b: Executor, mid: nat|
            #![trigger crate::interp::bound(m, a, name, items.last()), crate::interp::within(mid, fuel), crate::machine::effect(b, f, 1, seq![], seq![])]
            crate::interp::within(mid, fuel) && mid < cap && results.len() == items.len()
            && crate::interp::mapped(items.drop_last(), name, code, o, m, results.drop_last(), parse, host, cap, fuel, mid)
            && m.halted is None && crate::interp::bound(m, a, name, items.last()) && evaluated(code, a, b, parse, host, mid, rest)
            && results.last() == crate::machine::top(stack_of(b)) && crate::machine::effect(b, f, 1, seq![], seq![]);
        lemma_mapped_wf(items.drop_last(), name, code, o, m, results.drop_last(), parse, host, cap, fuel, mid);
        lemma_bound_wf(m, a, name, items.last());
        lemma_eval_wf(code, a, b, parse, host, mid, rest);
    }
}

proof fn lemma_filtered_wf<P: Fn(String) -> Option<Numeral>, C: Fn(String, Executor) -> Executor>(
    items: Seq<Val>, name: Seq<char>, code: Seq<char>, o: Executor, f: Executor, kept: Seq<Val>, parse: P, host: C,
    cap: nat, fuel: nat, rest: nat,
)
    requires
        crate::interp::filtered(items, name, code, o, f, kept, parse, host, cap, fuel, rest),
        wf(o),
        host_keeps_names(host),
    ensures
        wf(f),
    decreases cap, 0nat, items.len(),
{
    if items.len() > 0 {
        let (m, a, b, mid, before) = choose|m: Executor, a: Executor, b: Executor, mid: nat, before: Seq<Val>|
            #![trigger crate::interp::bound(m, a, name, items.last()), crate::interp::within(mid, fuel),
                crate::interp::keep(before, crate::machine::top(stack_of(b)), items.last())]
            crate::interp::within(mid, fuel) && mid < cap
            && crate::interp::filtered(items.drop_last(), name, code, o, m, before, parse, host, cap, fuel, mid)
            && m.halted is None && crate::interp::bound(m, a, name, items.last()) && evaluated(code, a, b, parse, host, mid, rest)
            && kept == crate::interp::keep(before, crate::machine::top(stack_of(b)), items.last())
            && crate::machine::effect(b, f, 1, seq![], seq![]);
        lemma_filtered_wf(items.drop_last(), name, code, o, m, before, parse, host, cap, fuel, mid);
        lemma_bound_wf(m, a, name, items.last());
        lemma_eval_wf(code, a, b, parse, host, mid, rest);
    }
}

proof fn lemma_reduced_wf<P: Fn(String) -> Option<Numeral>, C: Fn(String, Executor) -> Executor>(
    items: Seq<Val>, now: Seq<char>, acc: Seq<char>, code: Seq<char>, o: Executor, f: Executor, parse: P, host: C,
    cap: nat, fuel: nat, rest: nat,
)
    requires
        crate::interp::reduced(items, now, acc, code, o, f, parse, host, cap, fuel, rest),
        wf(o),
        host_keeps_names(host),
    ensures
        wf(f),
    decreases cap, 0nat, items.len(),
{
    if items.len() > 0 {
        let (m, a, b, c, mid) = choose|m: Executor, a: Executor, b: Executor, c: Executor, mid: nat|
            #![trigger crate::interp::bound(m, a, now, items.last()), crate::interp::within(mid, fuel),
                crate::interp::bound(c, f, acc, crate::machine::top(stack_of(b)))]
            crate::interp::within(mid, fuel) && mid < cap
            && crate::interp::reduced(items.drop_last(), now, acc, code, o, m, parse, host, cap, fuel, mid)
            && m.halted is None && crate::interp::bound(m, a, now, items.last()) && evaluated(code, a, b, parse, host, mid, rest)
            && crate::machine::effect(b, c, 1, seq![], seq![]) && crate::interp::bound(c, f, acc, crate::machine::top(stack_of(b)));
        lemma_reduced_wf(items.drop_last(), now, acc, code, o, m, parse, host, cap, fuel, mid);
        lemma_bound_wf(m, a, now, items.last());
        lemma_eval_wf(code, a, b, parse, host, mid, rest);
        lemma_bound_wf(c, f, acc, crate::machine::top(stack_of(b)));
    }
}

proof fn lemma_while_wf<P: Fn(String) -> Option<Numeral>, C: Fn(String, Executor) -> Executor>(
    cond: Seq<char>, code: Seq<char>, q: Executor, f: Executor, parse: P, host: C, cap: nat, tests: nat, fuel: nat, rest: nat,
)
    requires
        crate::interp::while_from(cond, code, q, f, parse, host, cap, tests, fuel, rest),
        wf(q),
        host_keeps_names(host),
    ensures
        wf(f),
    decreases cap, 0nat, tests,
{
    if crate::interp::running(q, fuel) && fuel < cap {
        let (a, b, c, mid2, mid3) = choose|a: Executor, b: Executor, c: Executor, mid2: nat, mid3: nat|
            #[trigger] crate::interp::round_of(a, b, c, mid2, mid3) && crate::interp::within(mid2, (fuel - 1) as nat)
            && evaluated(cond, q, a, parse, host, (fuel - 1) as nat, mid2)
            && (crate::interp::stops(a, b) ==> f == b && rest == mid2 && c == b && mid3 == mid2 && tests == 1)
            && (!crate::interp::stops(a, b) ==> evaluated(code, b, c, parse, host, mid2, mid3))
            && (!crate::interp::stops(a, b) && crate::interp::running(c, mid3)
                ==> crate::interp::while_from(cond, code, c, f, parse, host, cap, (tests - 1) as nat, mid3, rest))
            && (!crate::interp::stops(a, b) && !crate::interp::running(c, mid3) ==> f == c && rest == mid3 && tests == 1);
        lemma_eval_wf(cond, q, a, parse, host, (fuel - 1) as nat, mid2);
        if !crate::interp::stops(a, b) {
            lemma_eval_wf(code, b, c, parse, host, mid2, mid3);
            if crate::interp::running(c, mid3) {
                lemma_while_wf(cond, code, c, f, parse, host, cap, (tests - 1) as nat, mid3, rest);
            }
        }
    }
}

proof fn lemma_cells_wf<P: Fn(String) -> Option<Numeral>, C: Fn(String, Executor) -> Executor>(
    cells: Seq<Seq<char>>, q: Executor, f: Executor, nums: Seq<(u64, Seq<char>)>, parse: P, host: C,
    cap: nat, fuel: nat, rest: nat,
)
    requires
        crate::interp::cells_from(cells, q, f, nums, parse, host, cap, fuel, rest),
        wf(q),
        host_keeps_names(host),
    ensures
        wf(f),
    decreases cap, 0nat, cells.len(),
{
    if cells.len() > 0 {
        let (b, c, mid) = choose|b: Executor, c: Executor, mid: nat|
            #![trigger crate::machine::effect(b, c, 1, seq![], seq![]), crate::interp::within(mid, fuel)]
            evaluated(cells[0], q, b, parse, host, fuel, mid) && crate::interp::within(mid, fuel)
            && crate::machine::effect(b, c, 1, seq![], seq![])
            && crate::machine::number_value(parse, crate::machine::top(stack_of(b)), nums[0])
            && crate::interp::cells_from(cells.drop_first(), c, f, nums.drop_first(), parse, host, cap, mid, rest);
        lemma_eval_wf(cells[0], q, b, parse, host, fuel, mid);
        lemma_cells_wf(cells.drop_first(), c, f, nums.drop_first(), parse, host, cap, mid, rest);
    }
}

// ---------------------------------------------------------------------------
// Evaluation keeps the mode

/// Every command the library runs itself keeps the mode.
pub proof fn law_library_keeps_mode<P: Fn(String) -> Option<Numeral>>(t: Seq<char>, o: Executor, f: Executor, parse: P)
    requires
        crate::interp::is_library_name(t),
        crate::interp::command_done(t, o, f, parse),
    ensures
        f.mode == o.mode,
{
}

/// The host keeps the mode.
pub open spec fn host_keeps_mode<C: Fn(String, Executor) -> Executor>(host: C) -> bool {
    forall|a: String, e: Executor, f: Executor| #[trigger] call_ensures(host, (a, e), f) ==> f.mode == e.mode
}

proof fn lemma_bound_md(md: Mode, a: Executor, b: Executor, name: Seq<char>, v: Val)
    requires
        a.mode == md,
        crate::interp::bound(a, b, name, v),
    ensures
        b.mode == md,
{
}

proof fn lemma_eval_md<P: Fn(String) -> Option<Numeral>, C: Fn(String, Executor) -> Executor>(
    md: Mode,
    code: Seq<char>, o: Executor, f: Executor, parse: P, host: C, fuel: nat, rest: nat,
)
    requires
        evaluated(code, o, f, parse, host, fuel, rest),
        o.mode == md,
        host_keeps_mode(host),
    ensures
        f.mode == md,
    decreases fuel, 6nat, 0nat,
{
    let ts = crate::syntax::tokenize(code);
    let (k, m) = choose|k: int, m: Executor| 0 <= k <= ts.len() && crate::interp::ran(ts.take(k), o, m, parse, host, fuel, rest)
        && #[trigger] crate::interp::ended(k, ts.len() as int, m, f, rest);
    lemma_ran_md(md, ts.take(k), o, m, parse, host, fuel, rest);
}

proof fn lemma_ran_md<P: Fn(String) -> Option<Numeral>, C: Fn(String, Executor) -> Executor>(
    md: Mode,
    ts: Seq<Seq<char>>, o: Executor, f: Executor, parse: P, host: C, fuel: nat, rest: nat,
)
    requires
        crate::interp::ran(ts, o, f, parse, host, fuel, rest),
        o.mode == md,
        host_keeps_mode(host),
    ensures
        f.mode == md,
    decreases fuel, 5nat, ts.len(),
{
    if ts.len() > 0 {
        let (m, e2, mid) = choose|m: Executor, e2: Executor, mid: nat|
            #![trigger crate::interp::announced(m, e2, ts.last()), crate::interp::within(mid, fuel)]
            crate::interp::within(mid, fuel) && mid >= 1 && crate::interp::ran(ts.drop_last(), o, m, parse, host, fuel, mid)
            && crate::interp::announced(m, e2, ts.last()) && crate::interp::token_done(ts.last(), e2, f, parse, host, mid, rest);
        lemma_ran_md(md, ts.drop_last(), o, m, parse, host, fuel, mid);
        lemma_token_md(md, ts.last(), e2, f, parse, host, mid, rest);
    }
}

proof fn lemma_token_md<P: Fn(String) -> Option<Numeral>, C: Fn(String, Executor) -> Executor>(
    md: Mode,
    t: Seq<char>, o: Executor, f: Executor, parse: P, host: C, fuel: nat, rest: nat,
)
    requires
        crate::interp::token_done(t, o, f, parse, host, fuel, rest),
        o.mode == md,
        host_keeps_mode(host),
    ensures
        f.mode == md,
    decreases fuel, 3nat, 0nat,
{
    if crate::interp::word_done(t, o, f, parse, host, fuel, rest) {
        lemma_word_md(md, t, o, f, parse, host, fuel, rest);
    }
}

proof fn lemma_word_md<P: Fn(String) -> Option<Numeral>, C: Fn(String, Executor) -> Executor>(
    md: Mode,
    t: Seq<char>, o: Executor, f: Executor, parse: P, host: C, fuel: nat, rest: nat,
)
    requires
        crate::interp::word_done(t, o, f, parse, host, fuel, rest),
        o.mode == md,
        host_keeps_mode(host),
    ensures
        f.mode == md,
    decreases fuel, 2nat, 0nat,
{
    let g = (fuel - 1) as nat;
    if t == "true"@ || t == "false"@ {
    } else if t.len() > 0 && t[0] == '(' && t.last() == ')' {
    } else if t.len() > 0 && t[0] == '[' && t.last() == ']' {
        let m = choose|m: Executor| #[trigger] crate::interp::listed(o, m, f)
            && evaluated(t.subrange(1, t.len() - 1), o, m, parse, host, g, rest);
        lemma_eval_md(md, t.subrange(1, t.len() - 1), o, m, parse, host, g, rest);
    } else if t.len() > 0 && t[0] == '{' && t.last() == '}' {
        let body = t.subrange(1, t.len() - 1);
        let (c, nums) = choose|c: Executor, nums: Seq<(u64, Seq<char>)>|
            #[trigger] crate::machine::effect(c, f, 0, seq![Val::Matrix(nums,
                crate::syntax::cut(body, seq![';']).len(),
                crate::syntax::cut(crate::interp::first_row(body), seq![',']).len())], seq![])
            && crate::interp::cells_from(crate::syntax::cut(body, seq![',', ';']), o, c, nums, parse, host, fuel, g, rest);
        lemma_cells_md(md, crate::syntax::cut(body, seq![',', ';']), o, c, nums, parse, host, fuel, g, rest);
    } else if 6 <= t.len() && t.take(6) == "error:"@ {
    } else if crate::store::lookup(memory_of(o), t) is Some {
    } else if t.len() > 0 && t[0] == '#' && t.last() == '#' {
    } else {
        lemma_command_md(md, t, o, f, parse, host, fuel, rest);
    }
}

proof fn lemma_command_md<P: Fn(String) -> Option<Numeral>, C: Fn(String, Executor) -> Executor>(
    md: Mode,
    t: Seq<char>, o: Executor, f: Executor, parse: P, host: C, fuel: nat, rest: nat,
)
    requires
        crate::interp::command_ran(t, o, f, parse, host, fuel, rest),
        o.mode == md,
        host_keeps_mode(host),
    ensures
        f.mode == md,
    decreases fuel, 1nat, 0nat,
{
    let g = (fuel - 1) as nat;
    crate::interp::lemma_control_words();
    if crate::interp::is_library_name(t) {
        law_library_keeps_mode(t, o, f, parse);
    } else if crate::interp::is_host_name(t) {
        let a = choose|a: String| a@ == t && #[trigger] call_ensures(host, (a, o), f);
    } else if !crate::interp::is_control_name(t) {
    } else if t == "eval"@ {
        let m = choose|m: Executor| #[trigger] crate::machine::effect(o, m, 1, seq![], seq![])
            && evaluated(text_of(arg(o, 0)), m, f, parse, host, g, rest);
        lemma_eval_md(md, text_of(arg(o, 0)), m, f, parse, host, g, rest);
    } else if t == "if"@ {
        let m = choose|m: Executor| #[trigger] crate::machine::effect(o, m, 3, seq![], seq![])
            && evaluated(crate::interp::branch_code(o), m, f, parse, host, g, rest);
        lemma_eval_md(md, crate::interp::branch_code(o), m, f, parse, host, g, rest);
    } else if t == "method"@ {
        let m = choose|m: Executor| #[trigger] crate::interp::method_bound(o, m)
            && evaluated(crate::interp::method_code(o), m, f, parse, host, g, rest);
        let parts = crate::objects::object_parts(arg(o, 1));
        lemma_eval_md(md, crate::interp::method_code(o), m, f, parse, host, g, rest);
    } else if t == "while"@ {
        let (p, n) = choose|p: Executor, n: nat|
            #![trigger crate::machine::effect(o, p, 2, seq![], seq![]), crate::interp::within(n, g)]
            crate::machine::effect(o, p, 2, seq![], seq![]) && crate::interp::within(n, g)
            && crate::interp::while_from(text_of(arg(o, 0)), text_of(arg(o, 1)), p, f, parse, host, fuel, n, g, rest);
        lemma_while_md(md, text_of(arg(o, 0)), text_of(arg(o, 1)), p, f, parse, host, fuel, n, g, rest);
    } else if t == "for"@ {
        let items = crate::interp::loop_items(o);
        let (p, k) = choose|p: Executor, k: int|
            #![trigger crate::machine::effect(o, p, 3, seq![], seq![]), crate::interp::stopped_at(k, items.len() as int, f)]
            crate::machine::effect(o, p, 3, seq![], seq![]) && crate::interp::stopped_at(k, items.len() as int, f)
            && crate::interp::looped(items.take(k), crate::interp::loop_name(o), crate::interp::loop_code(o), p, f, parse, host, fuel, g, rest);
        lemma_looped_md(md, items.take(k), crate::interp::loop_name(o), crate::interp::loop_code(o), p, f, parse, host, fuel, g, rest);
    } else if t == "map"@ {
        let items = crate::interp::loop_items(o);
        let (p, k, q, list) = choose|p: Executor, k: int, q: Executor, list: Seq<Val>|
            #![trigger crate::machine::effect(o, p, 3, seq![], seq![]), crate::interp::listed_at(k, items.len() as int, q, f, list)]
            crate::machine::effect(o, p, 3, seq![], seq![]) && crate::interp::listed_at(k, items.len() as int, q, f, list)
            && crate::interp::mapped(items.take(k), crate::interp::loop_name(o), crate::interp::loop_code(o), p, q, list, parse, host, fuel, g, rest);
        lemma_mapped_md(md, items.take(k), crate::interp::loop_name(o), crate::interp::loop_code(o), p, q, list, parse, host, fuel, g, rest);
    } else if t == "filter"@ {
        let items = crate::interp::loop_items(o);
        let (p, k, q, list) = choose|p: Executor, k: int, q: Executor, list: Seq<Val>|
            #![trigger crate::machine::effect(o, p, 3, seq![], seq![]), crate::interp::listed_at(k, items.len() as int, q, f, list)]
            crate::machine::effect(o, p, 3, seq![], seq![]) && crate::interp::listed_at(k, items.len() as int, q, f, list)
            && crate::interp::filtered(items.take(k), crate::interp::loop_name(o), crate::interp::loop_code(o), p, q, list, parse, host, fuel, g, rest);
        lemma_filtered_md(md, items.take(k), crate::interp::loop_name(o), crate::interp::loop_code(o), p, q, list, parse, host, fuel, g, rest);
    } else {
        assert(t == "reduce"@);
        let items = crate::value::items_of(arg(o, 4));
        let acc = text_of(arg(o, 3));
        let (p, p0, k, q) = choose|p: Executor, p0: Executor, k: int, q: Executor|
            #![trigger crate::machine::effect(o, p, 5, seq![], seq![]), crate::interp::bound(p, p0, acc, arg(o, 2)),
                crate::interp::folded_at(k, items.len() as int, q, f, acc)]
            crate::machine::effect(o, p, 5, seq![], seq![]) && crate::interp::bound(p, p0, acc, arg(o, 2))
            && crate::interp::folded_at(k, items.len() as int, q, f, acc)
            && crate::interp::reduced(items.take(k), text_of(arg(o, 1)), acc, text_of(arg(o, 0)), p0, q, parse, host, fuel, g, rest);
        lemma_bound_md(md, p, p0, acc, arg(o, 2));
        lemma_reduced_md(md, items.take(k), text_of(arg(o, 1)), acc, text_of(arg(o, 0)), p0, q, parse, host, fuel, g, rest);
    }
}

proof fn lemma_looped_md<P: Fn(String) -> Option<Numeral>, C: Fn(String, Executor) -> Executor>(
    md: Mode,
    items: Seq<Val>, name: Seq<char>, code: Seq<char>, o: Executor, f: Executor, parse: P, host: C,
    cap: nat, fuel: nat, rest: nat,
)
    requires
        crate::interp::looped(items, name, code, o, f, parse, host, cap, fuel, rest),
        o.mode == md,
        host_keeps_mode(host),
    ensures
        f.mode == md,
    decreases cap, 0nat, items.len(),
{
    if items.len() > 0 {
        let (m, a, mid) = choose|m: Executor, a: Executor, mid: nat|
            #![trigger crate::interp::bound(m, a, name, items.last()), crate::interp::within(mid, fuel)]
            crate::interp::within(mid, fuel) && mid < cap && crate::interp::looped(items.drop_last(), name, code, o, m, parse, host, cap, fuel, mid)
            && m.halted is None && crate::interp::bound(m, a, name, items.last()) && evaluated(code, a, f, parse, host, mid, rest);
        lemma_looped_md(md, items.drop_last(), name, code, o, m, parse, host, cap, fuel, mid);
        lemma_bound_md(md, m, a, name, items.last());
        lemma_eval_md(md, code, a, f, parse, host, mid, rest);
    }
}

proof fn lemma_mapped_md<P: Fn(String) -> Option<Numeral>, C: Fn(String, Executor) -> Executor>(
    md: Mode,
    items: Seq<Val>, name: Seq<char>, code: Seq<char>, o: Executor, f: Executor, results: Seq<Val>, parse: P, host: C,
    cap: nat, fuel: nat, rest: nat,
)
    requires
        crate::interp::mapped(items, name, code, o, f, results, parse, host, cap, fuel, rest),
        o.mode == md,
        host_keeps_mode(host),
    ensures
        f.mode == md,
    decreases cap, 0nat, items.len(),
{
    if items.len() > 0 {
        let (m, a, b, mid) = choose|m: Executor, a: Executor, b: Executor, mid: nat|
            #![trigger crate::interp::bound(m, a, name, items.last()), crate::interp::within(mid, fuel), crate::machine::effect(b, f, 1, seq![], seq![])]
            crate::interp::within(mid, fuel) && mid < cap && results.len() == items.len()
            && crate::interp::mapped(items.drop_last(), name, code, o, m, results.drop_last(), parse, host, cap, fuel, mid)
            && m.halted is None && crate::interp::bound(m, a, name, items.last()) && evaluated(code, a, b, parse, host, mid, rest)
            && results.last() == crate::machine::top(stack_of(b)) && crate::machine::effect(b, f, 1, seq![], seq![]);
        lemma_mapped_md(md, items.drop_last(), name, code, o, m, results.drop_last(), parse, host, cap, fuel, mid);
        lemma_bound_md(md, m, a, name, items.last());
        lemma_eval_md(md, code, a, b, parse, host, mid, rest);
    }
}

proof fn lemma_filtered_md<P: Fn(String) -> Option<Numeral>, C: Fn(String, Executor) -> Executor>(
    md: Mode,
    items: Seq<Val>, name: Seq<char>, code: Seq<char>, o: Executor, f: Executor, kept: Seq<Val>, parse: P, host: C,
    cap: nat, fuel: nat, rest: nat,
)
    requires
        crate::interp::filtered(items, name, code, o, f, kept, parse, host, cap, fuel, rest),
        o.mode == md,
        host_keeps_mode(host),
    ensures
        f.mode == md,
    decreases cap, 0nat, items.len(),
{
    if items.len() > 0 {
        let (m, a, b, mid, before) = choose|m: Executor, a: Executor, b: Executor, mid: nat, before: Seq<Val>|
            #![trigger crate::interp::bound(m, a, name, items.last()), crate::interp::within(mid, fuel),
                crate::interp::keep(before, crate::machine::top(stack_of(b)), items.last())]
            crate::interp::within(mid, fuel) && mid < cap
            && crate::interp::filtered(items.drop_last(), name, code, o, m, before, parse, host, cap, fuel, mid)
            && m.halted is None && crate::interp::bound(m, a, name, items.last()) && evaluated(code, a, b, parse, host, mid, rest)
            && kept == crate::interp::keep(before, crate::machine::top(stack_of(b)), items.last())
            && crate::machine::effect(b, f, 1, seq![], seq![]);
        lemma_filtered_md(md, items.drop_last(), name, code, o, m, before, parse, host, cap, fuel, mid);
        lemma_bound_md(md, m, a, name, items.last());
        lemma_eval_md(md, code, a, b, parse, host, mid, rest);
    }
}

proof fn lemma_reduced_md<P: Fn(String) -> Option<Numeral>, C: Fn(String, Executor) -> Executor>(
    md: Mode,
    items: Seq<Val>, now: Seq<char>, acc: Seq<char>, code: Seq<char>, o: Executor, f: Executor, parse: P, host: C,
    cap: nat, fuel: nat, rest: nat,
)
    requires
        crate::interp::reduced(items, now, acc, code, o, f, parse, host, cap, fuel, rest),
        o.mode == md,
        host_keeps_mode(host),
    ensures
        f.mode == md,
    decreases cap, 0nat, items.len(),
{
    if items.len() > 0 {
        let (m, a, b, c, mid) = choose|m: Executor, a: Executor, b: Executor, c: Executor, mid: nat|
            #![trigger crate::interp::bound(m, a, now, items.last()), crate::interp::within(mid, fuel),
                crate::interp::bound(c, f, acc, crate::machine::top(stack_of(b)))]
            crate::interp::within(mid, fuel) && mid < cap
            && crate::interp::reduced(items.drop_last(), now, acc, code, o, m, parse, host, cap, fuel, mid)
            && m.halted is None && crate::interp::bound(m, a, now, items.last()) && evaluated(code, a, b, parse, host, mid, rest)
            && crate::machine::effect(b, c, 1, seq![], seq![]) && crate::interp::bound(c, f, acc, crate::machine::top(stack_of(b)));
        lemma_reduced_md(md, items.drop_last(), now, acc, code, o, m, parse, host, cap, fuel, mid);
        lemma_bound_md(md, m, a, now, items.last());
        lemma_eval_md(md, code, a, b, parse, host, mid, rest);
        lemma_bound_md(md, c, f, acc, crate::machine::top(stack_of(b)));
    }
}

proof fn lemma_while_md<P: Fn(String) -> Option<Numeral>, C: Fn(String, Executor) -> Executor>(
    md: Mode,
    cond: Seq<char>, code: Seq<char>, q: Executor, f: Executor, parse: P, host: C, cap: nat, tests: nat, fuel: nat, rest: nat,
)
    requires
        crate::interp::while_from(cond, code, q, f, parse, host, cap, tests, fuel, rest),
        q.mode == md,
        host_keeps_mode(host),
    ensures
        f.mode == md,
    decreases cap, 0nat, tests,
{
    if crate::interp::running(q, fuel) && fuel < cap {
        let (a, b, c, mid2, mid3) = choose|a: Executor, b: Executor, c: Executor, mid2: nat, mid3: nat|
            #[trigger] crate::interp::round_of(a, b, c, mid2, mid3) && crate::interp::within(mid2, (fuel - 1) as nat)
            && evaluated(cond, q, a, parse, host, (fuel - 1) as nat, mid2)
            && (crate::interp::stops(a, b) ==> f == b && rest == mid2 && c == b && mid3 == mid2 && tests == 1)
            && (!crate::interp::stops(a, b) ==> evaluated(code, b, c, parse, host, mid2, mid3))
            && (!crate::interp::stops(a, b) && crate::interp::running(c, mid3)
                ==> crate::interp::while_from(cond, code, c, f, parse, host, cap, (tests - 1) as nat, mid3, rest))
            && (!crate::interp::stops(a, b) && !crate::interp::running(c, mid3) ==> f == c && rest == mid3 && tests == 1);
        lemma_eval_md(md, cond, q, a, parse, host, (fuel - 1) as nat, mid2);
        if !crate::interp::stops(a, b) {
            lemma_eval_md(md, code, b, c, parse, host, mid2, mid3);
            if crate::interp::running(c, mid3) {
                lemma_while_md(md, cond, code, c, f, parse, host, cap, (tests - 1) as nat, mid3, rest);
            }
        }
    }
}

proof fn lemma_cells_md<P: Fn(String) -> Option<Numeral>, C: Fn(String, Executor) -> Executor>(
    md: Mode,
    cells: Seq<Seq<char>>, q: Executor, f: Executor, nums: Seq<(u64, Seq<char>)>, parse: P, host: C,
    cap: nat, fuel: nat, rest: nat,
)
    requires
        crate::interp::cells_from(cells, q, f, nums, parse, host, cap, fuel, rest),
        q.mode == md,
        host_keeps_mode(host),
    ensures
        f.mode == md,
    decreases cap, 0nat, cells.len(),
{
    if cells.len() > 0 {
        let (b, c, mid) = choose|b: Executor, c: Executor, mid: nat|
            #![trigger crate::machine::effect(b, c, 1, seq![], seq![]), crate::interp::within(mid, fuel)]
            evaluated(cells[0], q, b, parse, host, fuel, mid) && crate::interp::within(mid, fuel)
            && crate::machine::effect(b, c, 1, seq![], seq![])
            && crate::machine::number_value(parse, crate::machine::top(stack_of(b)), nums[0])
            && crate::interp::cells_from(cells.drop_first(), c, f, nums.drop_first(), parse, host, cap, mid, rest);
        lemma_eval_md(md, cells[0], q, b, parse, host, fuel, mid);
        lemma_cells_md(md, cells.drop_first(), c, f, nums.drop_first(), parse, host, cap, mid, rest);
    }
}

/// Evaluating any program keeps the mode, when the host does.
pub proof fn law_evaluation_keeps_mode<P: Fn(String) -> Option<Numeral>, C: Fn(String, Executor) -> Executor>(
    code: Seq<char>, o: Executor, f: Executor, parse: P, host: C, fuel: nat, rest: nat,
)
    requires
        evaluated(code, o, f, parse, host, fuel, rest),
        host_keeps_mode(host),
    ensures
        f.mode == o.mode,
{
    lemma_eval_md(o.mode, code, o, f, parse, host, fuel, rest);
}


/// Taken as a list, a list is itself, and a string is its characters: one
/// element per character, whose string forms concatenate back to it.
pub proof fn law_string_items(l: Seq<Val>, s: Seq<char>)
    ensures
        items_of(Val::List(l)) == l,
        items_of(Val::Text(s)).len() == s.len(),
        items_of(Val::Text(s)).map_values(|v: Val| text_of(v)).flatten() == s,
    decreases s.len(),
{
    let texts = items_of(Val::Text(s)).map_values(|v: Val| text_of(v));
    if s.len() > 0 {
        law_string_items(l, s.drop_first());
        let rest = items_of(Val::Text(s.drop_first())).map_values(|v: Val| text_of(v));
        assert(texts.drop_first() =~= rest);
        assert(texts.first() == seq![s[0]]);
        assert(seq![s[0]] + s.drop_first() =~= s);
    } else {
        assert(texts.len() == 0);
    }
}

/// A matrix of at least one entry is shown as its entries cut into rows of
/// its row length, front to back: `{` then each row as ` a, b,` with its
/// last comma turned into `;`, the last `;` turned into `}`.
pub proof fn law_matrix_display(m: Seq<(u64, Seq<char>)>, rows: nat, cols: nat)
    requires
        cols >= 1,
        m.len() >= 1,
    ensures
        crate::value::display(Val::Matrix(m, rows, cols))
            == crate::value::rows_text(crate::value::chunk_rows(crate::value::num_texts(m), cols)).drop_last() + "}"@,
{
    crate::value::lemma_rows_chunks(crate::value::num_texts(m), cols);
}

/// The number parser reads no number in `t`.
pub open spec fn not_a_number<P: Fn(String) -> Option<Numeral>>(parse: P, t: Seq<char>) -> bool {
    forall|a: String, n: Numeral| a@ == t ==> !#[trigger] call_ensures(parse, (a,), Some(n))
}

/// Tokens that all are comments the parser reads no number in and that
/// name no variable of `o`.
pub open spec fn only_comments<P: Fn(String) -> Option<Numeral>>(ts: Seq<Seq<char>>, o: Executor, parse: P) -> bool {
    forall|i: int| 0 <= i < ts.len() ==> comment_token(#[trigger] ts[i]) && not_a_number(parse, ts[i])
        && lookup(memory_of(o), ts[i]) is None
}

proof fn lemma_comments_ran<P: Fn(String) -> Option<Numeral>, C: Fn(String, Executor) -> Executor>(
    ts: Seq<Seq<char>>, o: Executor, f: Executor, parse: P, host: C, fuel: nat, rest: nat,
)
    requires
        only_comments(ts, o, parse),
        crate::interp::ran(ts, o, f, parse, host, fuel, rest),
    ensures
        stack_of(f) == stack_of(o),
        memory_of(f) == memory_of(o),
        f.mode == o.mode,
        f.halted == o.halted,
    decreases ts.len(),
{
    if ts.len() > 0 {
        let (m, e2, mid) = choose|m: Executor, e2: Executor, mid: nat|
            #![trigger crate::interp::announced(m, e2, ts.last()), crate::interp::within(mid, fuel)]
            crate::interp::within(mid, fuel) && mid >= 1 && crate::interp::ran(ts.drop_last(), o, m, parse, host, fuel, mid)
            && crate::interp::announced(m, e2, ts.last()) && crate::interp::token_done(ts.last(), e2, f, parse, host, mid, rest);
        assert forall|i: int| 0 <= i < ts.drop_last().len() implies comment_token(#[trigger] ts.drop_last()[i])
            && not_a_number(parse, ts.drop_last()[i]) && lookup(memory_of(o), ts.drop_last()[i]) is None by {
            assert(ts.drop_last()[i] == ts[i]);
        }
        lemma_comments_ran(ts.drop_last(), o, m, parse, host, fuel, mid);
        let t = ts.last();
        assert(t == ts[ts.len() - 1]);
        assert(comment_token(t) && not_a_number(parse, t) && lookup(memory_of(o), t) is None);
        reveal_strlit("true");
        reveal_strlit("false");
        reveal_strlit("error:");
        assert(t != "true"@);
        assert(t != "false"@);
        if 6 <= t.len() {
            assert(t.take(6)[0] == '#');
            assert(t.take(6) != "error:"@);
        }
        if exists|a: String, n: Numeral| a@ == t && #[trigger] call_ensures(parse, (a,), Some(n)) {
            let (a, n) = choose|a: String, n: Numeral| a@ == t && #[trigger] call_ensures(parse, (a,), Some(n));
            assert(!call_ensures(parse, (a,), Some(n)));
        }
        assert(crate::machine::after_pops(stack_of(e2), 0) == stack_of(e2));
    }
}

/// A program of comments only, none of them a number or a variable's name,
/// leaves the stack, the variables, the mode and the halt state as they
/// were: comments are only logged.
pub proof fn law_comment_program<P: Fn(String) -> Option<Numeral>, C: Fn(String, Executor) -> Executor>(
    code: Seq<char>, o: Executor, f: Executor, parse: P, host: C, fuel: nat, rest: nat,
)
    requires
        only_comments(crate::syntax::tokenize(code), o, parse),
        evaluated(code, o, f, parse, host, fuel, rest),
    ensures
        stack_of(f) == stack_of(o),
        memory_of(f) == memory_of(o),
        f.mode == o.mode,
        f.halted == o.halted,
{
    let ts = crate::syntax::tokenize(code);
    let (k, m) = choose|k: int, m: Executor| 0 <= k <= ts.len() && crate::interp::ran(ts.take(k), o, m, parse, host, fuel, rest)
        && #[trigger] crate::interp::ended(k, ts.len() as int, m, f, rest);
    assert forall|i: int| 0 <= i < ts.take(k).len() implies comment_token(#[trigger] ts.take(k)[i])
        && not_a_number(parse, ts.take(k)[i]) && lookup(memory_of(o), ts.take(k)[i]) is None by {
        assert(ts.take(k)[i] == ts[i]);
    }
    lemma_comments_ran(ts.take(k), o, m, parse, host, fuel, rest);
}

/// A program text of blanks and closed comments only leaves the stack,
/// the variables, the mode and the halt state as they were, where the
/// number parser reads no comment as a number and no comment names a
/// variable.
pub proof fn law_comment_text<P: Fn(String) -> Option<Numeral>, C: Fn(String, Executor) -> Executor>(
    code: Seq<char>, o: Executor, f: Executor, parse: P, host: C, fuel: nat, rest: nat,
)
    requires
        crate::syntax::comment_program(code),
        forall|t: Seq<char>| #[trigger] comment_token(t) ==> not_a_number(parse, t) && lookup(memory_of(o), t) is None,
        evaluated(code, o, f, parse, host, fuel, rest),
    ensures
        stack_of(f) == stack_of(o),
        memory_of(f) == memory_of(o),
        f.mode == o.mode,
        f.halted == o.halted,
{
    crate::syntax::law_comment_tokens(code);
    let ts = crate::syntax::tokenize(code);
    assert forall|i: int| 0 <= i < ts.len() implies comment_token(#[trigger] ts[i]) && not_a_number(parse, ts[i])
        && lookup(memory_of(o), ts[i]) is None by {
        assert(comment_token(ts[i]));
    }
    law_comment_program(code, o, f, parse, host, fuel, rest);
}

/// A list literal `[c]` whose code `c` only pushes the values `vs` (every
/// evaluation of `c` from `o` leaves the stack of `o` followed by `vs`)
/// pushes the list of exactly those values, in push order, and leaves the
/// stack below as it was.
pub proof fn law_list_literal<P: Fn(String) -> Option<Numeral>, C: Fn(String, Executor) -> Executor>(
    c: Seq<char>, vs: Seq<Val>, o: Executor, f: Executor, parse: P, host: C, fuel: nat, rest: nat,
)
    requires
        not_a_number(parse, seq!['['] + c + seq![']']),
        forall|m: Executor, g: nat, r: nat| #[trigger] evaluated(c, o, m, parse, host, g, r)
            ==> stack_of(m) == stack_of(o) + vs,
        crate::interp::token_done(seq!['['] + c + seq![']'], o, f, parse, host, fuel, rest),
    ensures
        stack_of(f) == stack_of(o).push(Val::List(vs)),
{
    let t = seq!['['] + c + seq![']'];
    reveal_strlit("true");
    reveal_strlit("false");
    assert(t[0] == '[');
    assert(t != "true"@);
    assert(t != "false"@);
    assert(t.subrange(1, t.len() - 1) =~= c);
    if exists|a: String, n: Numeral| a@ == t && #[trigger] call_ensures(parse, (a,), Some(n)) {
        let (a, n) = choose|a: String, n: Numeral| a@ == t && #[trigger] call_ensures(parse, (a,), Some(n));
        assert(!call_ensures(parse, (a,), Some(n)));
    }
    let g = (fuel - 1) as nat;
    let m = choose|m: Executor| #[trigger] crate::interp::listed(o, m, f)
        && evaluated(t.subrange(1, t.len() - 1), o, m, parse, host, g, rest);
    assert(stack_of(m) == stack_of(o) + vs);
    let n0 = stack_of(o).len();
    assert(crate::interp::listed(o, m, f));
    if vs.len() > 0 {
        assert(stack_of(m).len() > n0);
        assert(stack_of(m).take(n0 as int) =~= stack_of(o));
        assert(stack_of(m).skip(n0 as int) =~= vs);
        assert(stack_of(f) == stack_of(m).take(n0 as int).push(Val::List(stack_of(m).skip(n0 as int))));
    } else {
        assert(stack_of(m) =~= stack_of(o));
        assert(vs =~= Seq::<Val>::empty());
    }
}

/// Running two token sequences one after the other is running them joined.
proof fn lemma_ran_concat<P: Fn(String) -> Option<Numeral>, C: Fn(String, Executor) -> Executor>(
    ts1: Seq<Seq<char>>, ts2: Seq<Seq<char>>, o: Executor, m: Executor, f: Executor, parse: P, host: C,
    fuel: nat, mid: nat, rest: nat,
)
    requires
        crate::interp::ran(ts1, o, m, parse, host, fuel, mid),
        crate::interp::ran(ts2, m, f, parse, host, mid, rest),
        mid <= fuel,
    ensures
        crate::interp::ran(ts1 + ts2, o, f, parse, host, fuel, rest),
    decreases ts2.len(),
{
    if ts2.len() == 0 {
        assert(ts1 + ts2 =~= ts1);
    } else {
        let (m2, e2, mid2) = choose|m2: Executor, e2: Executor, mid2: nat|
            #![trigger crate::interp::announced(m2, e2, ts2.last()), crate::interp::within(mid2, mid)]
            crate::interp::within(mid2, mid) && mid2 >= 1 && crate::interp::ran(ts2.drop_last(), m, m2, parse, host, mid, mid2)
            && crate::interp::announced(m2, e2, ts2.last()) && crate::interp::token_done(ts2.last(), e2, f, parse, host, mid2, rest)
            && rest <= mid2;
        lemma_ran_concat(ts1, ts2.drop_last(), o, m, m2, parse, host, fuel, mid, mid2);
        let ts = ts1 + ts2;
        assert(ts.drop_last() =~= ts1 + ts2.drop_last());
        assert(ts.last() == ts2.last());
        assert(crate::interp::within(mid2, fuel));
        assert(crate::interp::announced(m2, e2, ts.last()));
    }
}

proof fn lemma_ran_fuel<P: Fn(String) -> Option<Numeral>, C: Fn(String, Executor) -> Executor>(
    ts: Seq<Seq<char>>, o: Executor, f: Executor, parse: P, host: C, fuel: nat, rest: nat,
)
    requires
        crate::interp::ran(ts, o, f, parse, host, fuel, rest),
    ensures
        rest <= fuel,
{
    if ts.len() > 0 {
        let (m, e2, mid) = choose|m: Executor, e2: Executor, mid: nat|
            #![trigger crate::interp::announced(m, e2, ts.last()), crate::interp::within(mid, fuel)]
            crate::interp::within(mid, fuel) && crate::interp::announced(m, e2, ts.last()) && rest <= mid;
    }
}

/// Running two token sequences joined is running the first, then the
/// second from where the first left off.
proof fn lemma_ran_split<P: Fn(String) -> Option<Numeral>, C: Fn(String, Executor) -> Executor>(
    ts1: Seq<Seq<char>>, ts2: Seq<Seq<char>>, o: Executor, f: Executor, parse: P, host: C, fuel: nat, rest: nat,
) -> (r: (Executor, nat))
    requires
        crate::interp::ran(ts1 + ts2, o, f, parse, host, fuel, rest),
    ensures
        crate::interp::ran(ts1, o, r.0, parse, host, fuel, r.1),
        crate::interp::ran(ts2, r.0, f, parse, host, r.1, rest),
        r.1 <= fuel,
        rest <= r.1,
    decreases ts2.len(),
{
    let ts = ts1 + ts2;
    if ts2.len() == 0 {
        assert(ts =~= ts1);
        lemma_ran_fuel(ts1, o, f, parse, host, fuel, rest);
        (f, rest)
    } else {
        let (m2, e2, mid2) = choose|m2: Executor, e2: Executor, mid2: nat|
            #![trigger crate::interp::announced(m2, e2, ts.last()), crate::interp::within(mid2, fuel)]
            crate::interp::within(mid2, fuel) && mid2 >= 1 && crate::interp::ran(ts.drop_last(), o, m2, parse, host, fuel, mid2)
            && crate::interp::announced(m2, e2, ts.last()) && crate::interp::token_done(ts.last(), e2, f, parse, host, mid2, rest)
            && rest <= mid2;
        assert(ts.drop_last() =~= ts1 + ts2.drop_last());
        assert(ts.last() == ts2.last());
        let (m, mid) = lemma_ran_split(ts1, ts2.drop_last(), o, m2, parse, host, fuel, mid2);
        assert(crate::interp::within(mid2, mid));
        assert(crate::interp::announced(m2, e2, ts2.last()));
        (m, mid)
    }
}

/// Every evaluation of `a`, a space and `b`, where `a` ends between tokens,
/// is an evaluation of `a` and then one of `b`, from an executor outside
/// debug mode with a host that keeps the mode. Together with
/// `law_evaluation_concat`, the two ways have the same results.
pub proof fn law_evaluation_split<P: Fn(String) -> Option<Numeral>, C: Fn(String, Executor) -> Executor>(
    a: Seq<char>, b: Seq<char>, o: Executor, f: Executor, parse: P, host: C, fuel: nat, rest: nat,
) -> (r: (Executor, nat))
    requires
        crate::syntax::at_rest(crate::syntax::scan_all(a)),
        evaluated(a + " "@ + b, o, f, parse, host, fuel, rest),
        !crate::machine::debugging(o),
        host_keeps_mode(host),
    ensures
        evaluated(a, o, r.0, parse, host, fuel, r.1),
        evaluated(b, r.0, f, parse, host, r.1, rest),
{
    crate::syntax::law_tokens_concat(a, b);
    let ts1 = crate::syntax::tokenize(a);
    let ts2 = crate::syntax::tokenize(b);
    let ts = crate::syntax::tokenize(a + " "@ + b);
    assert(ts == ts1 + ts2);
    let n1 = ts1.len() as int;
    let n2 = ts2.len() as int;
    let (k, m) = choose|k: int, m: Executor| 0 <= k <= ts.len() && crate::interp::ran(ts.take(k), o, m, parse, host, fuel, rest)
        && #[trigger] crate::interp::ended(k, ts.len() as int, m, f, rest);
    if k <= n1 {
        assert(ts.take(k) =~= ts1.take(k));
        lemma_ran_md(o.mode, ts1.take(k), o, m, parse, host, fuel, rest);
        let m1 = if k == n1 && n2 == 0 { f } else { m };
        assert(m1 == m);
        assert(crate::interp::ended(k, n1, m, m1, rest));
        assert(ts2.take(0) =~= Seq::<Seq<char>>::empty());
        assert(crate::interp::ran(ts2.take(0), m1, m1, parse, host, rest, rest));
        if k < n1 {
            assert(f == m);
        }
        assert(crate::interp::ended(0, n2, m1, f, rest));
        (m1, rest)
    } else {
        assert(ts.take(k) =~= ts1 + ts2.take(k - n1));
        let (m1, mid) = lemma_ran_split(ts1, ts2.take(k - n1), o, m, parse, host, fuel, rest);
        lemma_ran_md(o.mode, ts1, o, m1, parse, host, fuel, mid);
        assert(ts1.take(n1) =~= ts1);
        assert(crate::interp::ended(n1, n1, m1, m1, mid));
        assert(crate::interp::ended(k - n1, n2, m, f, rest));
        (m1, mid)
    }
}

/// Evaluating a program `a` that ends between tokens and then a program
/// `b` gives a result of evaluating `a`, a space and `b` at once, with the
/// same fuel left; outside debug mode (where only the final stack of each
/// evaluation is logged) and where `a` did not halt.
pub proof fn law_evaluation_concat<P: Fn(String) -> Option<Numeral>, C: Fn(String, Executor) -> Executor>(
    a: Seq<char>, b: Seq<char>, o: Executor, m1: Executor, f: Executor, parse: P, host: C,
    fuel: nat, mid: nat, rest: nat,
)
    requires
        crate::syntax::at_rest(crate::syntax::scan_all(a)),
        evaluated(a, o, m1, parse, host, fuel, mid),
        evaluated(b, m1, f, parse, host, mid, rest),
        !crate::machine::debugging(m1),
        m1.halted is None,
    ensures
        evaluated(a + " "@ + b, o, f, parse, host, fuel, rest),
{
    crate::syntax::law_tokens_concat(a, b);
    let ts1 = crate::syntax::tokenize(a);
    let ts2 = crate::syntax::tokenize(b);
    let ts = crate::syntax::tokenize(a + " "@ + b);
    assert(ts == ts1 + ts2);
    let (k1, m) = choose|k: int, m: Executor| 0 <= k <= ts1.len() && crate::interp::ran(ts1.take(k), o, m, parse, host, fuel, mid)
        && #[trigger] crate::interp::ended(k, ts1.len() as int, m, m1, mid);
    let (k2, m2) = choose|k: int, m: Executor| 0 <= k <= ts2.len() && crate::interp::ran(ts2.take(k), m1, m, parse, host, mid, rest)
        && #[trigger] crate::interp::ended(k, ts2.len() as int, m, f, rest);
    if k1 == ts1.len() {
        assert(m1 == m);
        assert(ts1.take(k1) =~= ts1);
        lemma_ran_concat(ts1, ts2.take(k2), o, m, m2, parse, host, fuel, mid, rest);
        assert(ts.take(k1 + k2) =~= ts1 + ts2.take(k2));
        assert(crate::interp::ended(k1 + k2, ts.len() as int, m2, f, rest));
    } else {
        assert(m1 == m && mid == 0);
        if k2 > 0 {
            let t = ts2.take(k2);
            let (m3, e3, mid3) = choose|m3: Executor, e3: Executor, mid3: nat|
                #![trigger crate::interp::announced(m3, e3, t.last()), crate::interp::within(mid3, mid)]
                crate::interp::within(mid3, mid) && mid3 >= 1 && crate::interp::ran(t.drop_last(), m1, m3, parse, host, mid, mid3)
                && crate::interp::announced(m3, e3, t.last()) && crate::interp::token_done(t.last(), e3, m2, parse, host, mid3, rest);
            assert(false);
        }
        assert(ts2.take(0).len() == 0);
        assert(m2 == m1 && rest == mid);
        assert(ts.take(k1) =~= ts1.take(k1));
        assert(crate::interp::ended(k1, ts.len() as int, m, f, rest));
    }
}

/// `decode` after `encode` gives back, as a string, the first character of
/// the string `encode` read.
pub proof fn law_encode_decode<P: Fn(String) -> Option<Numeral>>(o: Executor, m: Executor, f: Executor, parse: P)
    requires
        crate::commands::does_encode(o, m),
        crate::commands::does_decode(m, f, parse),
        text_of(arg(o, 0)).len() > 0,
    ensures
        stack_of(f) == after_pops(stack_of(o), 1).push(Val::Text(seq![text_of(arg(o, 0))[0]])),
{
    reveal_with_fuel(after_pops, 2);
    let c = text_of(arg(o, 0))[0];
    vstd::utf8::char_is_scalar(c);
    vstd::utf8::char_u32_cast(c, c as u32);
    let n = c as u32 as nat;
    assert(n <= 0x10FFFF);
    crate::numeral::law_count_roundtrip(n);
    let s = stack_of(o);
    assert(stack_of(m) == after_pops(s, 1) + seq![crate::machine::count_val(n)]);
    assert(arg(m, 0) == crate::machine::count_val(n)) by {
        assert((after_pops(s, 1) + seq![crate::machine::count_val(n)]).last() == crate::machine::count_val(n));
    }
    let x = choose|x: (u64, Seq<char>)| crate::machine::number_value(parse, arg(m, 0), x) && {
        let code = crate::numeral::float_to_u32(x.0) as u32;
        if crate::unicode::is_scalar_code(code) {
            crate::machine::effect(m, f, 1, seq![Val::Text(seq![code as char])], seq![])
        } else {
            crate::machine::effect(m, f, 1, seq![Val::Error("number-decoding"@)],
                seq!["Error! failed of number decoding\n"@])
        }
    };
    assert(x.0 == crate::numeral::count_bits(n) as u64);
    let code = crate::numeral::float_to_u32(x.0) as u32;
    assert(code == c as u32);
    assert(crate::unicode::is_scalar_code(code));
    assert(code as char == c);
    assert(after_pops(stack_of(m), 1) =~= after_pops(s, 1)) by {
        assert((after_pops(s, 1) + seq![crate::machine::count_val(n)]).drop_last() =~= after_pops(s, 1));
    }
    assert(after_pops(s, 1) + seq![Val::Text(seq![c])] =~= after_pops(s, 1).push(Val::Text(seq![c])));
}

/// The program `[c]`, for a list body `c` that only pushes values `vs`
/// (every evaluation of `c` from any state leaves that state's stack
/// followed by `vs`), run with fuel by an executor that has not halted,
/// pushes the list of those values and leaves the stack below as it was;
/// where the number parser reads no text starting with `[` as a number.
pub proof fn law_list_program<P: Fn(String) -> Option<Numeral>, C: Fn(String, Executor) -> Executor>(
    c: Seq<char>, vs: Seq<Val>, o: Executor, f: Executor, parse: P, host: C, fuel: nat, rest: nat,
)
    requires
        crate::syntax::list_body(c),
        forall|t: Seq<char>| t.len() > 0 && t[0] == '[' ==> #[trigger] not_a_number(parse, t),
        forall|e: Executor, m: Executor, g: nat, r: nat| #[trigger] evaluated(c, e, m, parse, host, g, r)
            ==> stack_of(m) == stack_of(e) + vs,
        evaluated(seq!['['] + c + seq![']'], o, f, parse, host, fuel, rest),
        fuel >= 1,
        o.halted is None,
    ensures
        stack_of(f) == stack_of(o).push(Val::List(vs)),
{
    crate::syntax::law_list_token(c);
    crate::syntax::law_tokens_normalized(c);
    let cn = c.map_values(|x: char| crate::syntax::normalize_blank(x));
    let t = seq!['['] + cn + seq![']'];
    let ts = crate::syntax::tokenize(seq!['['] + c + seq![']']);
    assert(ts == seq![t]);
    let (k, m) = choose|k: int, m: Executor| 0 <= k <= ts.len() && crate::interp::ran(ts.take(k), o, m, parse, host, fuel, rest)
        && #[trigger] crate::interp::ended(k, ts.len() as int, m, f, rest);
    if k == 0 {
        assert(ts.take(0).len() == 0);
        assert(m == o && rest == fuel);
        assert(false);
    }
    assert(k == 1);
    let x = ts.take(1);
    assert(x.last() == t);
    assert(x.drop_last().len() == 0);
    let (m0, e2, mid) = choose|m0: Executor, e2: Executor, mid: nat|
        #![trigger crate::interp::announced(m0, e2, x.last()), crate::interp::within(mid, fuel)]
        crate::interp::within(mid, fuel) && mid >= 1 && crate::interp::ran(x.drop_last(), o, m0, parse, host, fuel, mid)
        && crate::interp::announced(m0, e2, x.last()) && crate::interp::token_done(x.last(), e2, m, parse, host, mid, rest);
    assert(m0 == o);
    assert(stack_of(e2) == stack_of(o));
    assert(t[0] == '[');
    assert(not_a_number(parse, t));
    assert forall|m1: Executor, g: nat, r: nat| #[trigger] evaluated(cn, e2, m1, parse, host, g, r)
        implies stack_of(m1) == stack_of(e2) + vs by {
        assert(evaluated(c, e2, m1, parse, host, g, r));
    }
    law_list_literal(cn, vs, e2, m, parse, host, mid, rest);
}

/// Truth of values, as `if`, `while`, `filter`, `and`, `or`, `not` and the
/// `bool` cast read it: a number is true exactly when it is not zero (of
/// either sign), a string or a list when it is not empty, a truth value is
/// itself, and an object exactly when it has no properties.
pub proof fn law_truth(bits: u64, t: Seq<char>, s: Seq<char>, l: Seq<Val>, b: bool, name: Seq<char>,
    fields: Seq<(Seq<char>, Val)>)
    ensures
        crate::value::truth(Val::Number(bits, t)) == !(bits == 0 || bits == 0x8000000000000000u64),
        crate::value::truth(Val::Text(s)) == (s.len() != 0),
        crate::value::truth(Val::List(l)) == (l.len() != 0),
        crate::value::truth(Val::Bool(b)) == b,
        crate::value::truth(Val::Object(name, fields)) == (fields.len() == 0),
{
}

/// The number of class items of one element: those that take an initial
/// value.
pub open spec fn takers(items: Seq<Val>) -> nat
    decreases items.len(),
{
    if items.len() == 0 {
        0
    } else {
        takers(items.drop_last()) + if items_of(items.last()).len() == 1 { 1nat } else { 0nat }
    }
}

/// Building an instance uses exactly one initial value for each class item
/// of one element, in order, and none for an item with a default; it runs
/// short exactly when there are more such items than initial values.
pub proof fn law_instance_values(items: Seq<Val>, data: Seq<Val>)
    ensures
        crate::objects::build_all(items, data).short <==> takers(items) > data.len(),
        !crate::objects::build_all(items, data).short ==> crate::objects::build_all(items, data).next == takers(items),
    decreases items.len(),
{
    if items.len() > 0 {
        law_instance_values(items.drop_last(), data);
    }
}

/// An instance whose class has no more one-element items than there are
/// initial values is built: the object is the last value pushed.
pub proof fn law_instance_built(class: Seq<Val>, data: Seq<Val>)
    requires
        class.len() >= 1,
        takers(class.drop_first()) <= data.len(),
    ensures
        crate::objects::instance_result(class, data).0.last()
            == Val::Object(text_of(class[0]), crate::objects::build_all(class.drop_first(), data).fields),
{
    law_instance_values(class.drop_first(), data);
}

/// Evaluating any program keeps variable names unique, when the host does.
pub proof fn law_evaluation_keeps_names<P: Fn(String) -> Option<Numeral>, C: Fn(String, Executor) -> Executor>(
    code: Seq<char>, o: Executor, f: Executor, parse: P, host: C, fuel: nat, rest: nat,
)
    requires
        evaluated(code, o, f, parse, host, fuel, rest),
        wf(o),
        host_keeps_names(host),
    ensures
        wf(f),
{
    lemma_eval_wf(code, o, f, parse, host, fuel, rest);
}

} // verus!
