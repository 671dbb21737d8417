//! The commands on variables.
use vstd::prelude::*;
use crate::value::{Type, Val, val_of, vals_of, fields_of, lemma_fields_of, lemma_vals_of, text_of, display};
use crate::machine::{Executor, stack_of, memory_of, log_of, logged, debugging, arg, after_pops, underflow,
    lemma_log_chain, effect, lemma_effect_push, lemma_effect_none, wf};
use crate::store::{assign, unassign, names_of, set_named, remove_named, names, unique_names, law_lookup_assign,
    law_lookup_unassign};
use crate::text::{views, lemma_views_push, lit, push_char, chars_of};
use crate::unicode::{utf8_len, utf8_length};
use crate::commands::{text_vals, string_values};

verus! {

broadcast use vstd::std_specs::vec::group_vec_axioms;

/// The widest name, in UTF-8 bytes.
pub open spec fn name_width(mem: Seq<(Seq<char>, Val)>) -> nat
    decreases mem.len(),
{
    if mem.len() == 0 {
        0
    } else {
        let w = name_width(mem.drop_last());
        let l = utf8_len(mem.last().0);
        if l > w {
            l
        } else {
            w
        }
    }
}

/// `n` spaces.
pub open spec fn spaces(n: nat) -> Seq<char> {
    Seq::new(n, |i: int| ' ')
}

/// A name right-aligned in `w` characters (`{:>w$}`).
pub open spec fn padded(name: Seq<char>, w: nat) -> Seq<char> {
    if name.len() < w {
        spaces((w - name.len()) as nat) + name
    } else {
        name
    }
}

pub open spec fn var_line(f: (Seq<char>, Val), w: nat) -> Seq<char> {
    " "@ + padded(f.0, w) + ": "@ + display(f.1) + "\n"@
}

/// What `show_variables` logs: a header, one line per variable, a footer.
pub open spec fn listing(mem: Seq<(Seq<char>, Val)>) -> Seq<Seq<char>> {
    seq!["Variables {\n"@] + mem.map_values(|f: (Seq<char>, Val)| var_line(f, name_width(mem))) + seq!["}\n"@]
}

fn width_of(mem: &Vec<(String, Type)>) -> (w: u128)
    ensures
        w == name_width(fields_of(mem@)),
{
    let mut w: u128 = 0;
    let mut i: usize = 0;
    proof {
        lemma_fields_of(mem@);
    }
    while i < mem.len()
        invariant
            i <= mem@.len(),
            fields_of(mem@).len() == mem@.len(),
            forall|j: int| 0 <= j < mem@.len() ==> #[trigger] fields_of(mem@)[j].0 == mem@[j].0@,
            w == name_width(fields_of(mem@).take(i as int)),
        decreases mem@.len() - i,
    {
        let cs = chars_of(mem[i].0.as_str());
        let l = utf8_length(&cs);
        proof {
            assert(fields_of(mem@).take(i + 1).drop_last() =~= fields_of(mem@).take(i as int));
        }
        if l > w {
            w = l;
        }
        i = i + 1;
    }
    proof {
        assert(fields_of(mem@).take(mem@.len() as int) =~= fields_of(mem@));
    }
    w
}

fn line_of(name: &String, value: &Type, w: u128) -> (r: String)
    ensures
        r@ == var_line((name@, value@), w as nat),
{
    let cs = chars_of(name.as_str());
    let mut r = lit(" ");
    if (cs.len() as u128) < w {
        let n = w - cs.len() as u128;
        let mut i: u128 = 0;
        let ghost start = r@;
        while i < n
            invariant
                i <= n,
                r@ == start + spaces(i as nat),
            decreases n - i,
        {
            push_char(&mut r, ' ');
            proof {
                assert(spaces((i + 1) as nat) =~= spaces(i as nat).push(' '));
                assert(r@ =~= start + spaces((i + 1) as nat));
            }
            i = i + 1;
        }
    }
    r.append(name.as_str());
    r.append(": ");
    r.append(value.display().as_str());
    r.append("\n");
    proof {
        assert(r@ =~= var_line((name@, value@), w as nat));
    }
    r
}

/// What `var` does.
pub open spec fn does_var(o: Executor, f: Executor) -> bool {
    &&& wf(o) ==> wf(f)
    &&& stack_of(f) == after_pops(stack_of(o), 2)
    &&& memory_of(f) == assign(memory_of(o), text_of(arg(o, 0)), arg(o, 1))
    &&& log_of(f) == logged(o, underflow(stack_of(o).len(), 2)
        + listing(memory_of(f)))
    &&& f.mode == o.mode
    &&& f.halted == o.halted
}

/// What `free` does.
pub open spec fn does_free(o: Executor, f: Executor) -> bool {
    &&& wf(o) ==> wf(f)
    &&& stack_of(f) == after_pops(stack_of(o), 1)
    &&& memory_of(f) == unassign(memory_of(o), text_of(arg(o, 0)))
    &&& log_of(f) == logged(o, underflow(stack_of(o).len(), 1)
        + listing(memory_of(f)))
    &&& f.mode == o.mode
    &&& f.halted == o.halted
}

/// What `mem` does.
pub open spec fn does_mem(o: Executor, f: Executor) -> bool {
    &&& effect(o, f, 0, seq![Val::List(text_vals(names_of(memory_of(o))))], seq![])
}

impl Executor {
    /// Logs the variables (`Variables { ... }`).
    pub fn show_variables(&mut self)
        ensures
            log_of(*final(self)) == logged(*old(self), listing(memory_of(*old(self)))),
            final(self).stack == old(self).stack,
            final(self).memory == old(self).memory,
            final(self).mode == old(self).mode,
            final(self).halted == old(self).halted,
    {
        let ghost o = *self;
        let ghost mem = memory_of(o);
        self.log_print(lit("Variables {\n"));
        let w = width_of(&self.memory);
        let mut i: usize = 0;
        proof {
            lemma_fields_of(self.memory@);
        }
        while i < self.memory.len()
            invariant
                i <= self.memory@.len(),
                self.memory == o.memory,
                self.stack == o.stack,
                self.mode == o.mode,
                self.halted == o.halted,
                mem == fields_of(self.memory@),
                mem.len() == self.memory@.len(),
                forall|j: int| 0 <= j < self.memory@.len() ==> #[trigger] mem[j] == (self.memory@[j].0@, val_of(self.memory@[j].1)),
                w == name_width(mem),
                log_of(*self) == logged(o, seq!["Variables {\n"@] + mem.take(i as int).map_values(
                    |f: (Seq<char>, Val)| var_line(f, name_width(mem)))),
            decreases self.memory@.len() - i,
        {
            let line = line_of(&self.memory[i].0, &self.memory[i].1, w);
            let ghost before = *self;
            self.log_print(line);
            proof {
                lemma_log_chain(o, before, *self, seq!["Variables {\n"@] + mem.take(i as int).map_values(
                    |f: (Seq<char>, Val)| var_line(f, name_width(mem))), seq![line@]);
                assert(seq!["Variables {\n"@] + mem.take(i as int).map_values(|f: (Seq<char>, Val)| var_line(f, name_width(mem)))
                    + seq![line@] =~= seq!["Variables {\n"@] + mem.take(i + 1).map_values(
                    |f: (Seq<char>, Val)| var_line(f, name_width(mem))));
            }
            i = i + 1;
        }
        let ghost before = *self;
        self.log_print(lit("}\n"));
        proof {
            assert(mem.take(self.memory@.len() as int) =~= mem);
            lemma_log_chain(o, before, *self, seq!["Variables {\n"@] + mem.map_values(
                |f: (Seq<char>, Val)| var_line(f, name_width(mem))), seq!["}\n"@]);
            assert(seq!["Variables {\n"@] + mem.map_values(|f: (Seq<char>, Val)| var_line(f, name_width(mem)))
                + seq!["}\n"@] =~= listing(mem));
        }
    }

    /// `var`: binds a name (top) to a value (below it), then logs the variables.
    pub fn cmd_var(&mut self)
        ensures
            does_var(*old(self), *final(self)),
    {
        let ghost o = *self;
        let (name_v, data) = self.pop2();
        let name = name_v.get_string();
        let ghost m = *self;
        set_named(&mut self.memory, name, data);
        let ghost m2 = *self;
        self.show_variables();
        proof {
            assert(stack_of(m) =~= after_pops(stack_of(o), 2) + Seq::<Val>::empty());
            assert(log_of(m) == logged(o, underflow(stack_of(o).len(), 2) + Seq::<Seq<char>>::empty()));
            assert(underflow(stack_of(o).len(), 2) + Seq::<Seq<char>>::empty() =~= underflow(stack_of(o).len(), 2));
            assert(log_of(m2) == log_of(m));
            lemma_log_chain(o, m2, *self, underflow(stack_of(o).len(), 2), listing(memory_of(m2)));
        }
    }

    /// `free`: forgets a variable, then logs the variables.
    pub fn cmd_free(&mut self)
        ensures
            does_free(*old(self), *final(self)),
    {
        let ghost o = *self;
        let name_v = self.pop1();
        let name = name_v.get_string();
        let ghost m = *self;
        remove_named(&mut self.memory, name.as_str());
        let ghost m2 = *self;
        self.show_variables();
        proof {
            assert(stack_of(m) =~= after_pops(stack_of(o), 1) + Seq::<Val>::empty());
            assert(underflow(stack_of(o).len(), 1) + Seq::<Seq<char>>::empty() =~= underflow(stack_of(o).len(), 1));
            assert(log_of(m2) == log_of(m));
            lemma_log_chain(o, m2, *self, underflow(stack_of(o).len(), 1), listing(memory_of(m2)));
        }
    }

    /// `mem`: the names of the variables, as a list.
    pub fn cmd_mem(&mut self)
        ensures
            does_mem(*old(self), *final(self)),
    {
        let ghost o = *self;
        let list = string_values(names(&self.memory));
        let r = Type::List(list);
        let ghost rv = r@;
        self.push(r);
        proof {
            lemma_effect_none(o);
            lemma_effect_push(o, o, *self, 0, seq![], rv, seq![]);
        }
    }
}

} // verus!
