//! The state of a running program and the commands that work on it alone.
use vstd::prelude::*;
use crate::value::{Type, Val, num_val, val_of, vals_of, fields_of, displays, lemma_vals_of, lemma_vals_push};
use crate::numeral::{Numeral, numeral_of_count, count_bits, decimal, decimal_text};
use crate::store::unique_names;
use crate::text::{views, lemma_views_push, lit, join_spec, join_strings};

verus! {

broadcast use vstd::std_specs::vec::group_vec_axioms;

/// How the executor reports what it does.
pub enum Mode {
    /// Run quietly.
    Script,
    /// Log every step.
    Debug,
}

/// The data stack, the variables, and the debug log of a running program.
pub struct Executor {
    pub stack: Vec<Type>,
    pub memory: Vec<(String, Type)>,
    pub mode: Mode,
    /// Debug messages not yet shown; the host shows and clears them.
    pub log: Vec<String>,
    /// Set when the program hit an error that stops it for good, with the
    /// message to stop with.
    pub halted: Option<String>,
}

pub open spec fn stack_of(e: Executor) -> Seq<Val> {
    vals_of(e.stack@)
}

pub open spec fn memory_of(e: Executor) -> Seq<(Seq<char>, Val)> {
    fields_of(e.memory@)
}

pub open spec fn log_of(e: Executor) -> Seq<Seq<char>> {
    views(e.log@)
}

pub open spec fn debugging(e: Executor) -> bool {
    e.mode is Debug
}

/// The log after writing `msgs`: only a debugging executor keeps them.
pub open spec fn logged(e: Executor, msgs: Seq<Seq<char>>) -> Seq<Seq<char>> {
    if debugging(e) {
        log_of(e) + msgs
    } else {
        log_of(e)
    }
}

/// Every variable name occurs once.
pub open spec fn wf(e: Executor) -> bool {
    unique_names(memory_of(e))
}

/// The value a pop gives: the top, or the empty string on an empty stack.
pub open spec fn top(s: Seq<Val>) -> Val {
    if s.len() == 0 {
        Val::Text(seq![])
    } else {
        s.last()
    }
}

/// The stack after a pop.
pub open spec fn below(s: Seq<Val>) -> Seq<Val> {
    if s.len() == 0 {
        s
    } else {
        s.drop_last()
    }
}

pub open spec fn underflow_msg() -> Seq<char> {
    "Error! There are not enough values on the stack. returns default value\n"@
}

/// The messages `n` pops log on a stack of `len` values.
pub open spec fn underflow(len: nat, n: nat) -> Seq<Seq<char>> {
    Seq::new(if len >= n { 0 } else { (n - len) as nat }, |i: int| underflow_msg())
}

/// The value of the `k`-th pop (from 0) on a stack.
pub open spec fn nth_pop(s: Seq<Val>, k: nat) -> Val
    decreases k,
{
    if k == 0 {
        top(s)
    } else {
        nth_pop(below(s), (k - 1) as nat)
    }
}

/// The stack after `k` pops.
pub open spec fn after_pops(s: Seq<Val>, k: nat) -> Seq<Val>
    decreases k,
{
    if k == 0 {
        s
    } else {
        after_pops(below(s), (k - 1) as nat)
    }
}

pub proof fn lemma_underflow_step(len: nat, n: nat)
    ensures
        underflow(len, n + 1) == (if len == 0 { seq![underflow_msg()] } else { seq![] }) + underflow(
            if len == 0 { 0 } else { (len - 1) as nat },
            n,
        ),
{
    let l2: nat = if len == 0 { 0 } else { (len - 1) as nat };
    assert(underflow(len, n + 1) =~= (if len == 0 { seq![underflow_msg()] } else { seq![] }) + underflow(l2, n));
}

/// The count of a length: exact below `2^53`; larger counts go through the
/// host's parser with their decimal text.
pub fn count_numeral<P>(n: usize, parse: &P) -> (r: Numeral)
    where
        P: Fn(String) -> Option<Numeral>,
    requires
        forall|s: String| call_requires(*parse, (s,)),
    ensures
        n < 9007199254740992 ==> num_val(r) == (count_bits(n as nat) as u64, decimal(n as nat)),
{
    match numeral_of_count(n as u64) {
        Some(x) => x,
        None => {
            let t = decimal_text(n as u64);
            match parse(t) {
                Some(x) => x,
                None => Numeral { bits: 0, text: lit("0") },
            }
        },
    }
}

/// The model of a count below `2^53`.
pub open spec fn count_val(n: nat) -> Val {
    Val::Number(count_bits(n) as u64, decimal(n))
}

impl Executor {
    /// A fresh executor.
    pub fn new(mode: Mode) -> (e: Executor)
        ensures
            stack_of(e) == Seq::<Val>::empty(),
            memory_of(e) == Seq::<(Seq<char>, Val)>::empty(),
            log_of(e) == Seq::<Seq<char>>::empty(),
            e.mode == mode,
            e.halted is None,
            wf(e),
    {
        let e = Executor { stack: Vec::new(), memory: Vec::new(), mode, log: Vec::new(), halted: None };
        proof {
            assert(stack_of(e) =~= Seq::<Val>::empty());
            assert(memory_of(e) =~= Seq::<(Seq<char>, Val)>::empty());
            assert(log_of(e) =~= Seq::<Seq<char>>::empty());
        }
        e
    }

    pub fn is_debug(&self) -> (b: bool)
        ensures
            b == debugging(*self),
    {
        match self.mode {
            Mode::Debug => true,
            Mode::Script => false,
        }
    }

    /// Writes a message to the debug log.
    pub fn log_print(&mut self, msg: String)
        ensures
            log_of(*final(self)) == logged(*old(self), seq![msg@]),
            stack_of(*final(self)) == stack_of(*old(self)),
            final(self).stack == old(self).stack,
            final(self).memory == old(self).memory,
            final(self).mode == old(self).mode,
            final(self).halted == old(self).halted,
    {
        if self.is_debug() {
            let ghost before = self.log@;
            self.log.push(msg);
            proof {
                lemma_views_push(before, msg);
            }
        }
    }

    /// Pushes a value.
    pub fn push(&mut self, v: Type)
        ensures
            stack_of(*final(self)) == stack_of(*old(self)).push(v@),
            final(self).memory == old(self).memory,
            final(self).log == old(self).log,
            final(self).mode == old(self).mode,
            final(self).halted == old(self).halted,
    {
        let ghost before = self.stack@;
        self.stack.push(v);
        proof {
            lemma_vals_push(before, v);
        }
    }

    /// Pops the top value; an empty stack gives the empty string and logs
    /// a warning.
    pub fn pop_stack(&mut self) -> (r: Type)
        ensures
            r@ == top(stack_of(*old(self))),
            stack_of(*final(self)) == below(stack_of(*old(self))),
            log_of(*final(self)) == logged(*old(self), underflow(stack_of(*old(self)).len(), 1)),
            final(self).memory == old(self).memory,
            final(self).mode == old(self).mode,
            final(self).halted == old(self).halted,
    {
        proof {
            lemma_vals_of(self.stack@);
        }
        let ghost before = self.stack@;
        match self.stack.pop() {
            Some(v) => {
                proof {
                    assert(before.drop_last() =~= self.stack@);
                    assert(underflow(stack_of(*old(self)).len(), 1) =~= Seq::<Seq<char>>::empty());
                    assert(log_of(*old(self)) + Seq::<Seq<char>>::empty() =~= log_of(*old(self)));
                }
                v
            },
            None => {
                self.log_print(lit("Error! There are not enough values on the stack. returns default value\n"));
                proof {
                    assert(stack_of(*old(self)).len() == 0);
                    assert(underflow(0, 1) =~= seq![underflow_msg()]);
                    assert(underflow(stack_of(*old(self)).len(), 1) =~= seq![underflow_msg()]);
                }
                Type::String(String::new())
            },
        }
    }

    /// `Stack〔 a | b | c 〕`: the stack, bottom first, as shown in debug mode.
    pub fn show_stack(&self) -> (r: String)
        ensures
            r@ == "Stack〔 "@ + join_spec(displays(stack_of(*self)), " | "@) + " 〕"@,
    {
        let mut pieces: Vec<String> = Vec::new();
        let ghost items = stack_of(*self);
        proof {
            lemma_vals_of(self.stack@);
        }
        let mut i: usize = 0;
        while i < self.stack.len()
            invariant
                i <= self.stack@.len(),
                items == vals_of(self.stack@),
                items.len() == self.stack@.len(),
                forall|j: int| 0 <= j < self.stack@.len() ==> #[trigger] items[j] == val_of(self.stack@[j]),
                views(pieces@) == displays(items.take(i as int)),
            decreases self.stack@.len() - i,
        {
            let d = self.stack[i].display();
            let ghost before = pieces@;
            pieces.push(d);
            proof {
                lemma_views_push(before, d);
                assert(items.take(i + 1).drop_last() =~= items.take(i as int));
            }
            i = i + 1;
        }
        proof {
            assert(items.take(self.stack@.len() as int) =~= items);
        }
        let joined = join_strings(&pieces, " | ");
        let mut r = lit("Stack〔 ");
        r.append(joined.as_str());
        r.append(" 〕");
        r
    }
}


/// The stack and log after popping `k` values, pushing `pushed` and logging
/// `msgs`; variables, mode and halt state unchanged.
pub open spec fn effect(o: Executor, f: Executor, k: nat, pushed: Seq<Val>, msgs: Seq<Seq<char>>) -> bool {
    &&& stack_of(f) == after_pops(stack_of(o), k) + pushed
    &&& log_of(f) == logged(o, underflow(stack_of(o).len(), k) + msgs)
    &&& f.memory == o.memory
    &&& f.mode == o.mode
    &&& f.halted == o.halted
}

pub proof fn lemma_log_chain(o: Executor, m: Executor, f: Executor, a: Seq<Seq<char>>, b: Seq<Seq<char>>)
    requires
        log_of(m) == logged(o, a),
        log_of(f) == logged(m, b),
        m.mode == o.mode,
    ensures
        log_of(f) == logged(o, a + b),
{
    if debugging(o) {
        assert(log_of(o) + a + b =~= log_of(o) + (a + b));
    }
}

pub proof fn lemma_pop_more(s: Seq<Val>, k: nat)
    ensures
        underflow(s.len(), 1) + underflow(below(s).len(), k) == underflow(s.len(), k + 1),
        nth_pop(s, k + 1) == nth_pop(below(s), k),
        after_pops(s, k + 1) == after_pops(below(s), k),
{
    lemma_underflow_step(s.len(), k);
    assert(underflow(s.len(), 1) =~= (if s.len() == 0 { seq![underflow_msg()] } else { seq![] }));
    if s.len() > 0 {
        assert(below(s).len() == s.len() - 1);
    }
}

impl Executor {
    /// Pops two values: the top first.
    pub fn pop2(&mut self) -> (r: (Type, Type))
        ensures
            r.0@ == nth_pop(stack_of(*old(self)), 0),
            r.1@ == nth_pop(stack_of(*old(self)), 1),
            effect(*old(self), *final(self), 2, seq![], seq![]),
    {
        let ghost o = *self;
        let b = self.pop_stack();
        let ghost m = *self;
        let a = self.pop_stack();
        proof {
            lemma_log_chain(o, m, *self, underflow(stack_of(o).len(), 1), underflow(stack_of(m).len(), 1));
            lemma_pop_more(stack_of(o), 1);
            lemma_pop_more(stack_of(o), 0);
            lemma_pop_more(stack_of(m), 0);
            assert(after_pops(stack_of(m), 1) == below(stack_of(m)));
            assert(stack_of(*self) + Seq::<Val>::empty() =~= stack_of(*self));
            assert(underflow(stack_of(o).len(), 2) + Seq::<Seq<char>>::empty() =~= underflow(stack_of(o).len(), 2));
        }
        (b, a)
    }

    /// Pops three values: the top first.
    pub fn pop3(&mut self) -> (r: (Type, Type, Type))
        ensures
            r.0@ == nth_pop(stack_of(*old(self)), 0),
            r.1@ == nth_pop(stack_of(*old(self)), 1),
            r.2@ == nth_pop(stack_of(*old(self)), 2),
            effect(*old(self), *final(self), 3, seq![], seq![]),
    {
        let ghost o = *self;
        let c = self.pop_stack();
        let ghost m = *self;
        let (b, a) = self.pop2();
        proof {
            assert(underflow(stack_of(m).len(), 2) + Seq::<Seq<char>>::empty() =~= underflow(stack_of(m).len(), 2));
            lemma_log_chain(o, m, *self, underflow(stack_of(o).len(), 1), underflow(stack_of(m).len(), 2));
            lemma_pop_more(stack_of(o), 2);
            lemma_pop_more(stack_of(o), 1);
            assert(underflow(stack_of(o).len(), 3) + Seq::<Seq<char>>::empty() =~= underflow(stack_of(o).len(), 3));
        }
        (c, b, a)
    }

    /// Pushes a value after popping: the general shape of a command.
    pub fn push_result(&mut self, v: Type)
        ensures
            stack_of(*final(self)) == stack_of(*old(self)).push(v@),
            final(self).memory == old(self).memory,
            final(self).log == old(self).log,
            final(self).mode == old(self).mode,
            final(self).halted == old(self).halted,
    {
        self.push(v);
    }
}


/// The `i`-th value a command pops (from 0, the top first).
pub open spec fn arg(o: Executor, i: nat) -> Val {
    nth_pop(stack_of(o), i)
}

pub proof fn lemma_effect_push(o: Executor, m: Executor, f: Executor, k: nat, pushed: Seq<Val>, v: Val, msgs: Seq<Seq<char>>)
    requires
        effect(o, m, k, pushed, msgs),
        stack_of(f) == stack_of(m).push(v),
        f.log == m.log,
        f.memory == m.memory,
        f.mode == m.mode,
        f.halted == m.halted,
    ensures
        effect(o, f, k, pushed.push(v), msgs),
{
    assert(after_pops(stack_of(o), k) + pushed.push(v) =~= (after_pops(stack_of(o), k) + pushed).push(v));
}

pub proof fn lemma_effect_log(o: Executor, m: Executor, f: Executor, k: nat, pushed: Seq<Val>, msgs: Seq<Seq<char>>, msg: Seq<char>)
    requires
        effect(o, m, k, pushed, msgs),
        log_of(f) == logged(m, seq![msg]),
        stack_of(f) == stack_of(m),
        f.memory == m.memory,
        f.mode == m.mode,
        f.halted == m.halted,
    ensures
        effect(o, f, k, pushed, msgs.push(msg)),
{
    if debugging(o) {
        assert(log_of(o) + (underflow(stack_of(o).len(), k) + msgs) + seq![msg]
            =~= log_of(o) + (underflow(stack_of(o).len(), k) + msgs.push(msg)));
    } else {
    }
}

pub proof fn lemma_effect_pop1(o: Executor, f: Executor)
    requires
        stack_of(f) == below(stack_of(o)),
        log_of(f) == logged(o, underflow(stack_of(o).len(), 1)),
        f.memory == o.memory,
        f.mode == o.mode,
        f.halted == o.halted,
    ensures
        effect(o, f, 1, seq![], seq![]),
{
    assert(after_pops(stack_of(o), 1) == after_pops(below(stack_of(o)), 0));
    assert(stack_of(f) + Seq::<Val>::empty() =~= stack_of(f));
    assert(underflow(stack_of(o).len(), 1) + Seq::<Seq<char>>::empty() =~= underflow(stack_of(o).len(), 1));
}

pub proof fn lemma_effect_none(o: Executor)
    ensures
        effect(o, o, 0, seq![], seq![]),
{
    assert(stack_of(o) + Seq::<Val>::empty() =~= stack_of(o));
    assert(underflow(stack_of(o).len(), 0) =~= Seq::<Seq<char>>::empty());
    if debugging(o) {
        assert(log_of(o) + (Seq::<Seq<char>>::empty() + Seq::<Seq<char>>::empty()) =~= log_of(o));
    }
}


/// The state after popping `k` values and stopping the program with `msg`.
pub open spec fn halt_effect(o: Executor, f: Executor, k: nat, msg: Seq<char>) -> bool {
    &&& stack_of(f) == after_pops(stack_of(o), k)
    &&& log_of(f) == logged(o, underflow(stack_of(o).len(), k))
    &&& f.memory == o.memory
    &&& f.mode == o.mode
    &&& f.halted matches Some(m) && m@ == msg
}

pub proof fn lemma_halt_effect(o: Executor, m: Executor, f: Executor, k: nat, msg: Seq<char>)
    requires
        effect(o, m, k, seq![], seq![]),
        stack_of(f) == stack_of(m),
        f.log == m.log,
        f.memory == m.memory,
        f.mode == m.mode,
        f.halted matches Some(x) && x@ == msg,
    ensures
        halt_effect(o, f, k, msg),
{
    assert(after_pops(stack_of(o), k) + Seq::<Val>::empty() =~= after_pops(stack_of(o), k));
    assert(underflow(stack_of(o).len(), k) + Seq::<Seq<char>>::empty() =~= underflow(stack_of(o).len(), k));
}

/// The number `0`.
pub open spec fn zero_num() -> (u64, Seq<char>) {
    (0, "0"@)
}

/// `x` is what the host parser may answer for the text `s`, `0` when it
/// declines (`s.parse::<f64>().unwrap_or(0.0)`).
pub open spec fn parsed<P: Fn(String) -> Option<Numeral>>(parse: P, s: Seq<char>, x: (u64, Seq<char>)) -> bool {
    exists|a: String, r: Option<Numeral>|
        a@ == s && #[trigger] call_ensures(parse, (a,), r) && x == (match r {
            Some(n) => num_val(n),
            None => zero_num(),
        })
}

/// `n` counted as a number: exact below `2^53`.
pub open spec fn counted(n: nat, x: (u64, Seq<char>)) -> bool {
    n < 9007199254740992 ==> x == (count_bits(n) as u64, decimal(n))
}

/// `x` is a possible number value of `v` (`get_number`): numbers are
/// themselves, truths 1 or 0, lists, objects and binaries their length,
/// strings and errors what the parser answers, JSON the parse of its number.
pub open spec fn number_value<P: Fn(String) -> Option<Numeral>>(parse: P, v: Val, x: (u64, Seq<char>)) -> bool {
    match v {
        Val::Number(b, t) => x == (b, t),
        Val::Bool(b) => x == (if b { (count_bits(1) as u64, decimal(1)) } else { (count_bits(0) as u64, decimal(0)) }),
        Val::List(l) => counted(l.len(), x),
        Val::Object(_, f) => counted(f.len(), x),
        Val::Binary(b) => counted(b.len(), x),
        Val::Text(s) => parsed(parse, s, x),
        Val::Error(s) => parsed(parse, s, x),
        Val::Json(j) => match crate::json::json_number_of(j) {
            Some(t) => parsed(parse, t, x),
            None => x == zero_num(),
        },
        _ => x == zero_num(),
    }
}

fn parse_or_zero<P>(s: String, parse: &P) -> (r: Numeral)
    where
        P: Fn(String) -> Option<Numeral>,
    requires
        forall|a: String| call_requires(*parse, (a,)),
    ensures
        parsed(*parse, s@, num_val(r)),
{
    let ghost sv = s;
    let res = parse(s);
    let ghost rr = res;
    let r = match res {
        Some(n) => n,
        None => Numeral { bits: 0, text: lit("0") },
    };
    proof {
        assert(call_ensures(*parse, (sv,), rr));
    }
    r
}

/// The number value of a value (`get_number`).
pub fn number_of<P>(v: &Type, parse: &P) -> (r: Numeral)
    where
        P: Fn(String) -> Option<Numeral>,
    requires
        forall|a: String| call_requires(*parse, (a,)),
    ensures
        number_value(*parse, v@, num_val(r)),
{
    match v {
        Type::Number(n) => crate::value::copy_numeral(n),
        Type::Bool(b) => count_numeral(if *b { 1 } else { 0 }, parse),
        Type::List(l) => {
            proof {
                lemma_vals_of(l@);
            }
            count_numeral(l.len(), parse)
        },
        Type::Object(_, f) => {
            proof {
                crate::value::lemma_fields_of(f@);
            }
            count_numeral(f.len(), parse)
        },
        Type::Binary(b) => count_numeral(b.len(), parse),
        Type::String(s) => parse_or_zero(crate::text::copy_string(s), parse),
        Type::Error(s) => parse_or_zero(crate::text::copy_string(s), parse),
        Type::Json(j) => match crate::json::json_number(j.as_str()) {
            Some(t) => parse_or_zero(t, parse),
            None => Numeral { bits: 0, text: lit("0") },
        },
        _ => Numeral { bits: 0, text: lit("0") },
    }
}

/// Popping `k1` values and then `k2` more is popping `k1 + k2`.
pub proof fn lemma_pops_add(s: Seq<Val>, k1: nat, k2: nat)
    ensures
        after_pops(after_pops(s, k1), k2) == after_pops(s, k1 + k2),
        underflow(s.len(), k1) + underflow(after_pops(s, k1).len(), k2) == underflow(s.len(), k1 + k2),
        nth_pop(after_pops(s, k1), k2) == nth_pop(s, k1 + k2),
    decreases k1,
{
    if k1 == 0 {
        assert(underflow(s.len(), 0) =~= Seq::<Seq<char>>::empty());
        assert(underflow(s.len(), 0) + underflow(s.len(), k2) =~= underflow(s.len(), k2));
    } else {
        let k = (k1 - 1) as nat;
        lemma_pops_add(below(s), k, k2);
        lemma_pop_more(s, k);
        lemma_pop_more(s, k + k2);
        assert(underflow(s.len(), 1) + underflow(below(s).len(), k) + underflow(after_pops(below(s), k).len(), k2)
            =~= underflow(s.len(), 1) + (underflow(below(s).len(), k) + underflow(after_pops(below(s), k).len(), k2)));
    }
}

/// Two pops in a row pop as many values as both together; the values the
/// second pops are those below the first's.
pub proof fn lemma_effect_chain(o: Executor, m: Executor, f: Executor, k1: nat, k2: nat)
    requires
        effect(o, m, k1, seq![], seq![]),
        effect(m, f, k2, seq![], seq![]),
    ensures
        effect(o, f, k1 + k2, seq![], seq![]),
        forall|i: nat| #[trigger] arg(m, i) == arg(o, k1 + i),
{
    let s = stack_of(o);
    assert(stack_of(m) =~= after_pops(s, k1));
    lemma_pops_add(s, k1, k2);
    assert forall|i: nat| #[trigger] arg(m, i) == arg(o, k1 + i) by {
        lemma_pops_add(s, k1, i);
    }
    assert(stack_of(f) =~= after_pops(stack_of(m), k2));
    assert(stack_of(f) + Seq::<Val>::empty() =~= stack_of(f));
    assert(underflow(s.len(), k1) + Seq::<Seq<char>>::empty() =~= underflow(s.len(), k1));
    assert(underflow(stack_of(m).len(), k2) + Seq::<Seq<char>>::empty() =~= underflow(stack_of(m).len(), k2));
    assert(underflow(s.len(), k1 + k2) + Seq::<Seq<char>>::empty() =~= underflow(s.len(), k1 + k2));
    lemma_log_chain(o, m, f, underflow(s.len(), k1), underflow(stack_of(m).len(), k2));
}

} // verus!
