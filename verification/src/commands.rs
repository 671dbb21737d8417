//! The commands that work on the stack and its values alone.
use vstd::prelude::*;
use crate::value::{Type, Val, copy_values, reversed, val_of, vals_of, lemma_vals_of, lemma_vals_push, text_of, truth, items_of, kind_name, display};
use crate::machine::{Executor, stack_of, log_of, logged, effect, arg, below, nth_pop, lemma_effect_push,
    lemma_effect_log, lemma_effect_pop1, lemma_effect_none, count_numeral, count_val, number_of, number_value,
    halt_effect, lemma_halt_effect, counted};
use crate::numeral::{to_usize, to_u32, float_to_usize, float_to_u32};
use crate::value::{num_val, items_of as items_of_val};
use crate::random::{choose_one, shuffle_all, is_permutation};
use crate::pattern::{regex_find_all, regex_matches_of, regex_error_of};
use crate::unicode::{char_from_code, is_scalar_code, utf8_len, utf8_length};
use crate::text::{views, lit, concat, replace_str, replace_spec, split_str, split_spec, join_strings, join_spec,
    contains_str, contains_spec, same_text, chars_of};
use crate::numeral::Numeral;
use crate::unicode::{to_lowercase, to_uppercase, lowercase_of, uppercase_of};

verus! {

broadcast use vstd::std_specs::vec::group_vec_axioms;

/// The text values for a sequence of texts.
pub open spec fn text_vals(s: Seq<Seq<char>>) -> Seq<Val> {
    s.map_values(|t: Seq<char>| Val::Text(t))
}

/// Values holding the given strings.
pub fn string_values(v: Vec<String>) -> (r: Vec<Type>)
    ensures
        vals_of(r@) == text_vals(views(v@)),
{
    let mut r: Vec<Type> = Vec::new();
    let mut i: usize = 0;
    let n = v.len();
    let mut v = v;
    let ghost orig = v@;
    let mut src: Vec<String> = Vec::new();
    while i < n
        invariant
            n == orig.len(),
            i <= n,
            r@.len() == i,
            forall|j: int| 0 <= j < i ==> val_of(#[trigger] r@[j]) == Val::Text(orig[j]@),
            v@ == orig,
        decreases n - i,
    {
        let t = crate::text::copy_string(&v[i]);
        r.push(Type::String(t));
        i = i + 1;
    }
    proof {
        lemma_vals_of(r@);
        assert(vals_of(r@) =~= text_vals(views(orig)));
    }
    r
}

/// The string forms of values.
pub open spec fn texts_of(s: Seq<Val>) -> Seq<Seq<char>> {
    s.map_values(|v: Val| text_of(v))
}

/// What `and` does.
pub open spec fn does_and(o: Executor, f: Executor) -> bool {
    &&& effect(o, f, 2, seq![Val::Bool(truth(arg(o, 1)) && truth(arg(o, 0)))], seq![])
}

/// What `or` does.
pub open spec fn does_or(o: Executor, f: Executor) -> bool {
    &&& effect(o, f, 2, seq![Val::Bool(truth(arg(o, 1)) || truth(arg(o, 0)))], seq![])
}

/// What `not` does.
pub open spec fn does_not(o: Executor, f: Executor) -> bool {
    &&& effect(o, f, 1, seq![Val::Bool(!truth(arg(o, 0)))], seq![])
}

/// What `equal` does.
pub open spec fn does_equal(o: Executor, f: Executor) -> bool {
    &&& effect(o, f, 2, seq![Val::Bool(text_of(arg(o, 1)) == text_of(arg(o, 0)))], seq![])
}

/// What `concat` does.
pub open spec fn does_concat(o: Executor, f: Executor) -> bool {
    &&& effect(o, f, 2, seq![Val::Text(text_of(arg(o, 1)) + text_of(arg(o, 0)))], seq![])
}

/// What `replace` does.
pub open spec fn does_replace(o: Executor, f: Executor) -> bool {
    &&& effect(o, f, 3, seq![Val::Text(replace_spec(
        text_of(arg(o, 2)), text_of(arg(o, 1)), text_of(arg(o, 0))))], seq![])
}

/// What `split` does.
pub open spec fn does_split(o: Executor, f: Executor) -> bool {
    &&& effect(o, f, 2, seq![Val::List(text_vals(split_spec(
        text_of(arg(o, 1)), text_of(arg(o, 0)))))], seq![])
}

/// What `case` does.
pub open spec fn does_case(o: Executor, f: Executor) -> bool {
    &&& effect(o, f, 2, seq![Val::Text({
        let style = text_of(arg(o, 0));
        let t = text_of(arg(o, 1));
        if style == "lower"@ {
            lowercase_of(t)
        } else if style == "upper"@ {
            uppercase_of(t)
        } else {
            t
        }
    })], seq![])
}

/// What `join` does.
pub open spec fn does_join(o: Executor, f: Executor) -> bool {
    &&& effect(o, f, 2, seq![Val::Text(join_spec(
        texts_of(items_of(arg(o, 1))), text_of(arg(o, 0))))], seq![])
}

/// What `find` does.
pub open spec fn does_find(o: Executor, f: Executor) -> bool {
    &&& effect(o, f, 2, seq![Val::Bool(contains_spec(
        text_of(arg(o, 1)), text_of(arg(o, 0))))], seq![])
}

/// What `type` does.
pub open spec fn does_type(o: Executor, f: Executor) -> bool {
    &&& effect(o, f, 1, seq![Val::Text(kind_name(arg(o, 0)))], seq![])
}

/// What `pop` does.
pub open spec fn does_pop(o: Executor, f: Executor) -> bool {
    &&& effect(o, f, 1, seq![], seq![])
}

/// What `copy` does.
pub open spec fn does_copy(o: Executor, f: Executor) -> bool {
    &&& effect(o, f, 1, seq![arg(o, 0), arg(o, 0)], seq![])
}

/// What `swap` does.
pub open spec fn does_swap(o: Executor, f: Executor) -> bool {
    &&& effect(o, f, 2, seq![arg(o, 0), arg(o, 1)], seq![])
}

/// What `get-stack` does.
pub open spec fn does_get_stack(o: Executor, f: Executor) -> bool {
    &&& effect(o, f, 0, seq![Val::List(stack_of(o))], seq![])
}

/// What `reverse` does.
pub open spec fn does_reverse(o: Executor, f: Executor) -> bool {
    &&& effect(o, f, 1, seq![Val::List(items_of(arg(o, 0)).reverse())], seq![])
}

/// What `append` does.
pub open spec fn does_append(o: Executor, f: Executor) -> bool {
    &&& effect(o, f, 2, seq![Val::List(items_of(arg(o, 1)).push(arg(o, 0)))], seq![])
}

/// What `get` does.
pub open spec fn does_get<P: Fn(String) -> Option<Numeral>>(o: Executor, f: Executor, parse: P) -> bool {
    &&& exists|x: (u64, Seq<char>)| number_value(parse, arg(o, 0), x) && {
        let list = items_of(arg(o, 1));
        let i = float_to_usize(x.0);
        if i < list.len() {
            effect(o, f, 2, seq![list[i as int]], seq![])
        } else {
            effect(o, f, 2, seq![index_error()], seq![range_msg()])
        }
    }
}

/// What `set` does.
pub open spec fn does_set<P: Fn(String) -> Option<Numeral>>(o: Executor, f: Executor, parse: P) -> bool {
    &&& exists|x: (u64, Seq<char>)| number_value(parse, arg(o, 1), x) && {
        let list = items_of(arg(o, 2));
        let i = float_to_usize(x.0);
        if i < list.len() {
            effect(o, f, 3, seq![Val::List(list.update(i as int, arg(o, 0)))], seq![])
        } else {
            effect(o, f, 3, seq![index_error()], seq![range_msg()])
        }
    }
}

/// What `del` does.
pub open spec fn does_del<P: Fn(String) -> Option<Numeral>>(o: Executor, f: Executor, parse: P) -> bool {
    &&& exists|x: (u64, Seq<char>)| number_value(parse, arg(o, 0), x) && {
        let list = items_of(arg(o, 1));
        let i = float_to_usize(x.0);
        if i < list.len() {
            effect(o, f, 2, seq![Val::List(list.remove(i as int))], seq![])
        } else {
            effect(o, f, 2, seq![index_error()], seq![range_msg()])
        }
    }
}

/// What `insert` does.
pub open spec fn does_insert<P: Fn(String) -> Option<Numeral>>(o: Executor, f: Executor, parse: P) -> bool {
    &&& exists|x: (u64, Seq<char>)| number_value(parse, arg(o, 1), x) && {
        let list = items_of(arg(o, 2));
        let i = float_to_usize(x.0);
        if i <= list.len() {
            effect(o, f, 3, seq![Val::List(list.insert(i as int, arg(o, 0)))], seq![])
        } else {
            halt_effect(o, f, 3,
                "insertion index (is "@ + crate::numeral::decimal(i) + ") should be <= len (is "@
                + crate::numeral::decimal(list.len()) + ")"@)
        }
    }
}

/// What `len` does.
pub open spec fn does_len<P: Fn(String) -> Option<Numeral>>(o: Executor, f: Executor, parse: P) -> bool {
    &&& exists|x: (u64, Seq<char>)| counted(items_of(arg(o, 0)).len(), x)
        && effect(o, f, 1, seq![Val::Number(x.0, x.1)], seq![])
}

/// What `size-stack` does.
pub open spec fn does_size_stack<P: Fn(String) -> Option<Numeral>>(o: Executor, f: Executor, parse: P) -> bool {
    &&& exists|x: (u64, Seq<char>)| counted(stack_of(o).len(), x)
        && effect(o, f, 0, seq![Val::Number(x.0, x.1)], seq![])
}

/// What `encode` does.
pub open spec fn does_encode(o: Executor, f: Executor) -> bool {
    &&& ({
        let s = text_of(arg(o, 0));
        if s.len() > 0 {
            effect(o, f, 1, seq![count_val(s[0] as u32 as nat)], seq![])
        } else {
            effect(o, f, 1, seq![Val::Error("string-encoding"@)],
                seq!["Error! failed of string encoding\n"@])
        }
    })
}

/// What `decode` does.
pub open spec fn does_decode<P: Fn(String) -> Option<Numeral>>(o: Executor, f: Executor, parse: P) -> bool {
    &&& exists|x: (u64, Seq<char>)| number_value(parse, arg(o, 0), x) && {
        let code = float_to_u32(x.0) as u32;
        if is_scalar_code(code) {
            effect(o, f, 1, seq![Val::Text(seq![code as char])], seq![])
        } else {
            effect(o, f, 1, seq![Val::Error("number-decoding"@)],
                seq!["Error! failed of number decoding\n"@])
        }
    }
}

/// What `repeat` does.
pub open spec fn does_repeat<P: Fn(String) -> Option<Numeral>>(o: Executor, f: Executor, parse: P) -> bool {
    &&& exists|x: (u64, Seq<char>)| number_value(parse, arg(o, 0), x) && {
        let t = text_of(arg(o, 1));
        let n = float_to_usize(x.0);
        if repeat_overflows(t, n) {
            halt_effect(o, f, 2, "capacity overflow"@)
        } else {
            effect(o, f, 2, seq![Val::Text(repeat_spec(t, n))], seq![])
        }
    }
}

/// What `index` does.
pub open spec fn does_index<P: Fn(String) -> Option<Numeral>>(o: Executor, f: Executor, parse: P) -> bool {
    &&& ({
        let t = text_of(arg(o, 0));
        let list = items_of(arg(o, 1));
        if exists|i: int| 0 <= i < list.len() && text_of(list[i]) == t {
            exists|i: int, x: (u64, Seq<char>)| first_text(list, t, i) && counted(i as nat, x)
                && effect(o, f, 2, seq![Val::Number(x.0, x.1)], seq![])
        } else {
            effect(o, f, 2, seq![Val::Error("item-not-found"@)],
                seq!["Error! item not found in the list\n"@])
        }
    })
}

/// What `sort` does.
pub open spec fn does_sort(o: Executor, f: Executor) -> bool {
    &&& exists|r: Seq<Seq<char>>| texts_sorted(r) && r.to_multiset() == texts_of(items_of(arg(o, 0))).to_multiset()
        && effect(o, f, 1, seq![Val::List(text_vals(r))], seq![])
}

/// What `cast` does.
pub open spec fn does_cast<P: Fn(String) -> Option<Numeral>>(o: Executor, f: Executor, parse: P) -> bool {
    &&& ({
        let style = text_of(arg(o, 0));
        let v = arg(o, 1);
        if style == "number"@ {
            exists|x: (u64, Seq<char>)| number_value(parse, v, x)
                && effect(o, f, 2, seq![Val::Number(x.0, x.1)], seq![])
        } else {
            effect(o, f, 2, seq![
                if style == "string"@ {
                    Val::Text(text_of(v))
                } else if style == "bool"@ {
                    Val::Bool(truth(v))
                } else if style == "list"@ {
                    Val::List(items_of(v))
                } else if style == "json"@ {
                    Val::Json(json_of(v))
                } else if style == "error"@ {
                    Val::Error(text_of(v))
                } else {
                    v
                }], seq![])
        }
    })
}

/// What `rand` does.
pub open spec fn does_rand(o: Executor, f: Executor) -> bool {
    &&& ({
        let list = items_of(arg(o, 0));
        if list.len() == 0 {
            effect(o, f, 1, seq![Val::List(list)], seq![])
        } else {
            exists|i: int| 0 <= i < list.len() && effect(o, f, 1, seq![list[i]], seq![])
        }
    })
}

/// What `shuffle` does.
pub open spec fn does_shuffle(o: Executor, f: Executor) -> bool {
    &&& exists|p: Seq<int>| is_permutation(p, items_of(arg(o, 0)).len())
        && effect(o, f, 1, seq![Val::List(Seq::new(items_of(arg(o, 0)).len(),
            |i: int| items_of(arg(o, 0))[p[i]]))], seq![])
}

/// What `regex` does.
pub open spec fn does_regex(o: Executor, f: Executor) -> bool {
    &&& ({
        let pattern = text_of(arg(o, 0));
        let t = text_of(arg(o, 1));
        match regex_matches_of(pattern, t) {
            Some(found) => effect(o, f, 2, seq![Val::List(text_vals(found))], seq![]),
            None => effect(o, f, 2, seq![Val::Error("regex"@)],
                seq!["Error! "@ + replace_spec(regex_error_of(pattern), "Error"@, seq![]) + "\n"@]),
        }
    })
}

impl Executor {
    /// Pops one value.
    pub fn pop1(&mut self) -> (r: Type)
        ensures
            r@ == arg(*old(self), 0),
            effect(*old(self), *final(self), 1, seq![], seq![]),
    {
        let ghost o = *self;
        let r = self.pop_stack();
        proof {
            lemma_effect_pop1(o, *self);
        }
        r
    }

    /// `and`: both truths.
    pub fn cmd_and(&mut self)
        ensures
            does_and(*old(self), *final(self)),
    {
        let ghost o = *self;
        let (b, a) = self.pop2();
        let ghost m = *self;
        let r = a.get_bool() && b.get_bool();
        self.push(Type::Bool(r));
        proof {
            lemma_effect_push(o, m, *self, 2, seq![], Val::Bool(r), seq![]);
        }
    }

    /// `or`: either truth.
    pub fn cmd_or(&mut self)
        ensures
            does_or(*old(self), *final(self)),
    {
        let ghost o = *self;
        let (b, a) = self.pop2();
        let ghost m = *self;
        let r = a.get_bool() || b.get_bool();
        self.push(Type::Bool(r));
        proof {
            lemma_effect_push(o, m, *self, 2, seq![], Val::Bool(r), seq![]);
        }
    }

    /// `not`: the opposite truth.
    pub fn cmd_not(&mut self)
        ensures
            does_not(*old(self), *final(self)),
    {
        let ghost o = *self;
        let b = self.pop1();
        let ghost m = *self;
        let r = !b.get_bool();
        self.push(Type::Bool(r));
        proof {
            lemma_effect_push(o, m, *self, 1, seq![], Val::Bool(r), seq![]);
        }
    }

    /// `equal`: whether the string forms agree.
    pub fn cmd_equal(&mut self)
        ensures
            does_equal(*old(self), *final(self)),
    {
        let ghost o = *self;
        let (b, a) = self.pop2();
        let ghost m = *self;
        let bs = b.get_string();
        let as_ = a.get_string();
        let r = same_text(as_.as_str(), bs.as_str());
        self.push(Type::Bool(r));
        proof {
            lemma_effect_push(o, m, *self, 2, seq![], Val::Bool(r), seq![]);
        }
    }

    /// `concat`: the two strings one after the other.
    pub fn cmd_concat(&mut self)
        ensures
            does_concat(*old(self), *final(self)),
    {
        let ghost o = *self;
        let (b, a) = self.pop2();
        let ghost m = *self;
        let bs = b.get_string();
        let as_ = a.get_string();
        let r = concat(as_.as_str(), bs.as_str());
        let ghost rv = r@;
        self.push(Type::String(r));
        proof {
            lemma_effect_push(o, m, *self, 2, seq![], Val::Text(rv), seq![]);
        }
    }

    /// `replace`: text, pattern, replacement.
    pub fn cmd_replace(&mut self)
        ensures
            does_replace(*old(self), *final(self)),
    {
        let ghost o = *self;
        let (after, before, text) = self.pop3();
        let ghost m = *self;
        let a = after.get_string();
        let b = before.get_string();
        let t = text.get_string();
        let r = replace_str(t.as_str(), b.as_str(), a.as_str());
        let ghost rv = r@;
        self.push(Type::String(r));
        proof {
            lemma_effect_push(o, m, *self, 3, seq![], Val::Text(rv), seq![]);
        }
    }

    /// `split`: the pieces of a text around a key.
    pub fn cmd_split(&mut self)
        ensures
            does_split(*old(self), *final(self)),
    {
        let ghost o = *self;
        let (key, text) = self.pop2();
        let ghost m = *self;
        let k = key.get_string();
        let t = text.get_string();
        let pieces = split_str(t.as_str(), k.as_str());
        let items = string_values(pieces);
        let v = Type::List(items);
        let ghost vv = v@;
        self.push(v);
        proof {
            lemma_effect_push(o, m, *self, 2, seq![], vv, seq![]);
        }
    }

    /// `case`: `lower` or `upper` case, any other style leaves the text.
    pub fn cmd_case(&mut self)
        ensures
            does_case(*old(self), *final(self)),
    {
        let ghost o = *self;
        let (types, text) = self.pop2();
        let ghost m = *self;
        let style = types.get_string();
        let t = text.get_string();
        let r = if same_text(style.as_str(), "lower") {
            to_lowercase(t.as_str())
        } else if same_text(style.as_str(), "upper") {
            to_uppercase(t.as_str())
        } else {
            t
        };
        let ghost rv = r@;
        self.push(Type::String(r));
        proof {
            lemma_effect_push(o, m, *self, 2, seq![], Val::Text(rv), seq![]);
        }
    }

    /// `join`: the string forms of a list's elements joined with a key.
    pub fn cmd_join(&mut self)
        ensures
            does_join(*old(self), *final(self)),
    {
        let ghost o = *self;
        let (key, listv) = self.pop2();
        let ghost m = *self;
        let k = key.get_string();
        let list = listv.get_list();
        let mut texts: Vec<String> = Vec::new();
        let mut i: usize = 0;
        proof {
            lemma_vals_of(list@);
        }
        while i < list.len()
            invariant
                i <= list@.len(),
                texts@.len() == i,
                forall|j: int| 0 <= j < i ==> (#[trigger] texts@[j])@ == text_of(val_of(list@[j])),
            decreases list@.len() - i,
        {
            texts.push(list[i].get_string());
            i = i + 1;
        }
        proof {
            lemma_vals_of(list@);
            assert(views(texts@) =~= texts_of(vals_of(list@)));
        }
        let r = join_strings(&texts, k.as_str());
        let ghost rv = r@;
        self.push(Type::String(r));
        proof {
            lemma_effect_push(o, m, *self, 2, seq![], Val::Text(rv), seq![]);
        }
    }

    /// `find`: whether a word occurs in a text.
    pub fn cmd_find(&mut self)
        ensures
            does_find(*old(self), *final(self)),
    {
        let ghost o = *self;
        let (word, text) = self.pop2();
        let ghost m = *self;
        let w = word.get_string();
        let t = text.get_string();
        let r = contains_str(t.as_str(), w.as_str());
        self.push(Type::Bool(r));
        proof {
            lemma_effect_push(o, m, *self, 2, seq![], Val::Bool(r), seq![]);
        }
    }

    /// `type`: the name of the value's type.
    pub fn cmd_type(&mut self)
        ensures
            does_type(*old(self), *final(self)),
    {
        let ghost o = *self;
        let v = self.pop1();
        let ghost m = *self;
        let r = v.kind_name();
        let ghost rv = r@;
        self.push(Type::String(r));
        proof {
            lemma_effect_push(o, m, *self, 1, seq![], Val::Text(rv), seq![]);
        }
    }

    /// `pop`: drops the top value.
    pub fn cmd_pop(&mut self)
        ensures
            does_pop(*old(self), *final(self)),
    {
        let _ = self.pop1();
    }

    /// `copy`: the top value twice.
    pub fn cmd_copy(&mut self)
        ensures
            does_copy(*old(self), *final(self)),
    {
        let ghost o = *self;
        let data = self.pop1();
        let ghost m = *self;
        let d2 = data.duplicate();
        let ghost dv = data@;
        self.push(d2);
        let ghost m2 = *self;
        self.push(data);
        proof {
            lemma_effect_push(o, m, m2, 1, seq![], dv, seq![]);
            lemma_effect_push(o, m2, *self, 1, seq![dv], dv, seq![]);
            assert(seq![dv].push(dv) =~= seq![dv, dv]);
        }
    }

    /// `swap`: exchanges the top two values.
    pub fn cmd_swap(&mut self)
        ensures
            does_swap(*old(self), *final(self)),
    {
        let ghost o = *self;
        let (b, a) = self.pop2();
        let ghost m = *self;
        let ghost bv = b@;
        let ghost av = a@;
        self.push(b);
        let ghost m2 = *self;
        self.push(a);
        proof {
            lemma_effect_push(o, m, m2, 2, seq![], bv, seq![]);
            lemma_effect_push(o, m2, *self, 2, seq![bv], av, seq![]);
            assert(seq![bv].push(av) =~= seq![bv, av]);
        }
    }

    /// `get-stack`: the whole stack as a list, pushed on it.
    pub fn cmd_get_stack(&mut self)
        ensures
            does_get_stack(*old(self), *final(self)),
    {
        let ghost o = *self;
        let copy = Type::List(copy_values(&self.stack));
        let ghost cv = copy@;
        self.push(copy);
        proof {
            lemma_effect_none(o);
            lemma_effect_push(o, o, *self, 0, seq![], cv, seq![]);
        }
    }

    /// `reverse`: the list the other way round.
    pub fn cmd_reverse(&mut self)
        ensures
            does_reverse(*old(self), *final(self)),
    {
        let ghost o = *self;
        let v = self.pop1();
        let ghost m = *self;
        let list = reversed(v.get_list());
        let r = Type::List(list);
        let ghost rv = r@;
        self.push(r);
        proof {
            lemma_effect_push(o, m, *self, 1, seq![], rv, seq![]);
        }
    }

    /// `append`: the list with a value added at the end.
    pub fn cmd_append(&mut self)
        ensures
            does_append(*old(self), *final(self)),
    {
        let ghost o = *self;
        let (data, listv) = self.pop2();
        let ghost m = *self;
        let mut list = listv.get_list();
        let ghost before = list@;
        list.push(data);
        proof {
            lemma_vals_push(before, data);
        }
        let r = Type::List(list);
        let ghost rv = r@;
        self.push(r);
        proof {
            lemma_effect_push(o, m, *self, 2, seq![], rv, seq![]);
        }
    }
}


pub open spec fn index_error() -> Val {
    Val::Error("index-out-range"@)
}

pub open spec fn range_msg() -> Seq<char> {
    "Error! Index specification is out of range\n"@
}

/// The text of `text` repeated `n` times.
pub open spec fn repeat_spec(text: Seq<char>, n: nat) -> Seq<char>
    decreases n,
{
    if n == 0 {
        seq![]
    } else {
        repeat_spec(text, (n - 1) as nat) + text
    }
}

/// `str::repeat` stops the program when the length in bytes overflows `usize`.
pub open spec fn repeat_overflows(text: Seq<char>, n: nat) -> bool {
    utf8_len(text) * n > usize::MAX
}

/// Strict order of texts, character by character (the order of `String`).
pub open spec fn text_lt(a: Seq<char>, b: Seq<char>) -> bool
    decreases a.len(),
{
    if a.len() == 0 {
        b.len() > 0
    } else if b.len() == 0 {
        false
    } else if a[0] < b[0] {
        true
    } else if a[0] > b[0] {
        false
    } else {
        text_lt(a.drop_first(), b.drop_first())
    }
}

pub proof fn lemma_text_lt_asym(a: Seq<char>, b: Seq<char>)
    ensures
        text_lt(a, b) ==> !text_lt(b, a),
    decreases a.len(),
{
    if a.len() > 0 && b.len() > 0 && a[0] == b[0] {
        lemma_text_lt_asym(a.drop_first(), b.drop_first());
    }
}

/// Adjacent texts are in order.
pub open spec fn texts_sorted(s: Seq<Seq<char>>) -> bool {
    forall|i: int| 0 <= i < s.len() - 1 ==> !text_lt(#[trigger] s[i + 1], s[i])
}

fn less_than(a: &Vec<char>, b: &Vec<char>) -> (r: bool)
    ensures
        r == text_lt(a@, b@),
{
    let mut i: usize = 0;
    proof {
        assert(a@.skip(0) =~= a@);
        assert(b@.skip(0) =~= b@);
    }
    while i < a.len() && i < b.len() && a[i] == b[i]
        invariant
            i <= a@.len(),
            i <= b@.len(),
            text_lt(a@, b@) == text_lt(a@.skip(i as int), b@.skip(i as int)),
        decreases a@.len() - i,
    {
        proof {
            assert(a@.skip(i as int).drop_first() =~= a@.skip(i + 1));
            assert(b@.skip(i as int).drop_first() =~= b@.skip(i + 1));
        }
        i = i + 1;
    }
    if i == a.len() {
        return i < b.len();
    }
    if i == b.len() {
        return false;
    }
    proof {
        assert(a@.skip(i as int)[0] == a@[i as int]);
        assert(b@.skip(i as int)[0] == b@[i as int]);
    }
    a[i] < b[i]
}

impl Executor {
    /// `get`: the element at an index, or an index error.
    pub fn cmd_get<P>(&mut self, parse: &P)
        where
            P: Fn(String) -> Option<Numeral>,
        requires
            forall|a: String| call_requires(*parse, (a,)),
        ensures
            does_get(*old(self), *final(self), *parse),
    {
        let ghost o = *self;
        let (index_v, list_v) = self.pop2();
        let ghost m = *self;
        let n = number_of(&index_v, parse);
        let index = to_usize(&n);
        let list = list_v.get_list();
        proof {
            lemma_vals_of(list@);
        }
        if index < list.len() {
            let x = list[index].duplicate();
            let ghost xv = x@;
            self.push(x);
            proof {
                lemma_effect_push(o, m, *self, 2, seq![], xv, seq![]);
            }
        } else {
            self.log_print(lit("Error! Index specification is out of range\n"));
            let ghost m2 = *self;
            self.push(Type::Error(lit("index-out-range")));
            proof {
                lemma_effect_log(o, m, m2, 2, seq![], seq![], range_msg());
                lemma_effect_push(o, m2, *self, 2, seq![], index_error(), seq![range_msg()]);
            }
        }
        proof {
            assert(number_value(*parse, arg(o, 0), num_val(n)));
        }
    }

    /// `set`: the list with the element at an index replaced.
    pub fn cmd_set<P>(&mut self, parse: &P)
        where
            P: Fn(String) -> Option<Numeral>,
        requires
            forall|a: String| call_requires(*parse, (a,)),
        ensures
            does_set(*old(self), *final(self), *parse),
    {
        let ghost o = *self;
        let (value, index_v, list_v) = self.pop3();
        let ghost m = *self;
        let n = number_of(&index_v, parse);
        let index = to_usize(&n);
        let mut list = list_v.get_list();
        proof {
            lemma_vals_of(list@);
        }
        if index < list.len() {
            let ghost before = list@;
            let ghost vv = value@;
            list.set(index, value);
            proof {
                lemma_vals_of(list@);
                lemma_vals_of(before);
                assert(vals_of(list@) =~= vals_of(before).update(index as int, vv));
            }
            let r = Type::List(list);
            let ghost rv = r@;
            self.push(r);
            proof {
                lemma_effect_push(o, m, *self, 3, seq![], rv, seq![]);
            }
        } else {
            self.log_print(lit("Error! Index specification is out of range\n"));
            let ghost m2 = *self;
            self.push(Type::Error(lit("index-out-range")));
            proof {
                lemma_effect_log(o, m, m2, 3, seq![], seq![], range_msg());
                lemma_effect_push(o, m2, *self, 3, seq![], index_error(), seq![range_msg()]);
            }
        }
        proof {
            assert(number_value(*parse, arg(o, 1), num_val(n)));
        }
    }

    /// `del`: the list without the element at an index.
    pub fn cmd_del<P>(&mut self, parse: &P)
        where
            P: Fn(String) -> Option<Numeral>,
        requires
            forall|a: String| call_requires(*parse, (a,)),
        ensures
            does_del(*old(self), *final(self), *parse),
    {
        let ghost o = *self;
        let (index_v, list_v) = self.pop2();
        let ghost m = *self;
        let n = number_of(&index_v, parse);
        let index = to_usize(&n);
        let mut list = list_v.get_list();
        proof {
            lemma_vals_of(list@);
        }
        if index < list.len() {
            let ghost before = list@;
            let _ = list.remove(index);
            proof {
                lemma_vals_of(list@);
                lemma_vals_of(before);
                assert(vals_of(list@) =~= vals_of(before).remove(index as int));
            }
            let r = Type::List(list);
            let ghost rv = r@;
            self.push(r);
            proof {
                lemma_effect_push(o, m, *self, 2, seq![], rv, seq![]);
            }
        } else {
            self.log_print(lit("Error! Index specification is out of range\n"));
            let ghost m2 = *self;
            self.push(Type::Error(lit("index-out-range")));
            proof {
                lemma_effect_log(o, m, m2, 2, seq![], seq![], range_msg());
                lemma_effect_push(o, m2, *self, 2, seq![], index_error(), seq![range_msg()]);
            }
        }
        proof {
            assert(number_value(*parse, arg(o, 0), num_val(n)));
        }
    }

    /// `insert`: the list with a value put at an index; an index past the end
    /// stops the program (`Vec::insert` panics).
    pub fn cmd_insert<P>(&mut self, parse: &P)
        where
            P: Fn(String) -> Option<Numeral>,
        requires
            forall|a: String| call_requires(*parse, (a,)),
        ensures
            does_insert(*old(self), *final(self), *parse),
    {
        let ghost o = *self;
        let (data, index_v, list_v) = self.pop3();
        let ghost m = *self;
        let n = number_of(&index_v, parse);
        let index = to_usize(&n);
        let mut list = list_v.get_list();
        proof {
            lemma_vals_of(list@);
        }
        if index <= list.len() {
            let ghost before = list@;
            let ghost dv = data@;
            list.insert(index, data);
            proof {
                lemma_vals_of(list@);
                lemma_vals_of(before);
                assert(vals_of(list@) =~= vals_of(before).insert(index as int, dv));
            }
            let r = Type::List(list);
            let ghost rv = r@;
            self.push(r);
            proof {
                lemma_effect_push(o, m, *self, 3, seq![], rv, seq![]);
            }
        } else {
            let mut msg = lit("insertion index (is ");
            msg.append(crate::numeral::decimal_text(index as u64).as_str());
            msg.append(") should be <= len (is ");
            msg.append(crate::numeral::decimal_text(list.len() as u64).as_str());
            msg.append(")");
            self.halted = Some(msg);
            proof {
                lemma_halt_effect(o, m, *self, 3, "insertion index (is "@ + crate::numeral::decimal(index as nat)
                    + ") should be <= len (is "@ + crate::numeral::decimal(list@.len()) + ")"@);
            }
        }
        proof {
            assert(number_value(*parse, arg(o, 1), num_val(n)));
        }
    }

    /// `len`: the number of elements.
    pub fn cmd_len<P>(&mut self, parse: &P)
        where
            P: Fn(String) -> Option<Numeral>,
        requires
            forall|a: String| call_requires(*parse, (a,)),
        ensures
            does_len(*old(self), *final(self), *parse),
    {
        let ghost o = *self;
        let v = self.pop1();
        let ghost m = *self;
        let list = v.get_list();
        proof {
            lemma_vals_of(list@);
        }
        let n = count_numeral(list.len(), parse);
        let ghost nv = num_val(n);
        self.push(Type::Number(n));
        proof {
            lemma_effect_push(o, m, *self, 1, seq![], Val::Number(nv.0, nv.1), seq![]);
            assert(counted(items_of(arg(o, 0)).len(), nv));
        }
    }

    /// `size-stack`: the number of values on the stack.
    pub fn cmd_size_stack<P>(&mut self, parse: &P)
        where
            P: Fn(String) -> Option<Numeral>,
        requires
            forall|a: String| call_requires(*parse, (a,)),
        ensures
            does_size_stack(*old(self), *final(self), *parse),
    {
        let ghost o = *self;
        proof {
            lemma_vals_of(self.stack@);
            lemma_effect_none(o);
        }
        let n = count_numeral(self.stack.len(), parse);
        let ghost nv = num_val(n);
        self.push(Type::Number(n));
        proof {
            lemma_effect_push(o, o, *self, 0, seq![], Val::Number(nv.0, nv.1), seq![]);
            assert(counted(stack_of(o).len(), nv));
        }
    }

    /// `encode`: the code of the first character, or an encoding error.
    pub fn cmd_encode(&mut self)
        ensures
            does_encode(*old(self), *final(self)),
    {
        let ghost o = *self;
        let v = self.pop1();
        let ghost m = *self;
        let s = v.get_string();
        let cs = chars_of(s.as_str());
        if cs.len() > 0 {
            let code = cs[0] as u32;
            let n = match crate::numeral::numeral_of_count(code as u64) {
                Some(n) => n,
                None => {
                    proof {
                        assert(false);
                    }
                    Numeral { bits: 0, text: String::new() }
                },
            };
            let ghost nv = Val::Number(n.bits, n.text@);
            self.push(Type::Number(n));
            proof {
                lemma_effect_push(o, m, *self, 1, seq![], nv, seq![]);
            }
        } else {
            self.log_print(lit("Error! failed of string encoding\n"));
            let ghost m2 = *self;
            self.push(Type::Error(lit("string-encoding")));
            proof {
                lemma_effect_log(o, m, m2, 1, seq![], seq![], "Error! failed of string encoding\n"@);
                lemma_effect_push(o, m2, *self, 1, seq![], Val::Error("string-encoding"@), seq!["Error! failed of string encoding\n"@]);
            }
        }
    }

    /// `decode`: the character with a code, or a decoding error.
    pub fn cmd_decode<P>(&mut self, parse: &P)
        where
            P: Fn(String) -> Option<Numeral>,
        requires
            forall|a: String| call_requires(*parse, (a,)),
        ensures
            does_decode(*old(self), *final(self), *parse),
    {
        let ghost o = *self;
        let v = self.pop1();
        let ghost m = *self;
        let n = number_of(&v, parse);
        let code = to_u32(&n);
        match char_from_code(code) {
            Some(c) => {
                let mut t = String::new();
                crate::text::push_char(&mut t, c);
                proof {
                    assert(t@ =~= seq![code as char]);
                }
                let ghost tv = t@;
                self.push(Type::String(t));
                proof {
                    lemma_effect_push(o, m, *self, 1, seq![], Val::Text(tv), seq![]);
                }
            },
            None => {
                self.log_print(lit("Error! failed of number decoding\n"));
                let ghost m2 = *self;
                self.push(Type::Error(lit("number-decoding")));
                proof {
                    lemma_effect_log(o, m, m2, 1, seq![], seq![], "Error! failed of number decoding\n"@);
                    lemma_effect_push(o, m2, *self, 1, seq![], Val::Error("number-decoding"@), seq!["Error! failed of number decoding\n"@]);
                }
            },
        }
        proof {
            assert(number_value(*parse, arg(o, 0), num_val(n)));
        }
    }
}


/// What `cast` to JSON makes of a value: a JSON value itself, a string
/// parsed, `{}` for anything else.
pub open spec fn json_of(v: Val) -> Seq<char> {
    match v {
        Val::Json(j) => j,
        Val::Text(s) => crate::json::parsed_text(s),
        _ => "{}"@,
    }
}

/// The index of the first element whose string form is `t`.
pub open spec fn first_text(list: Seq<Val>, t: Seq<char>, i: int) -> bool {
    0 <= i < list.len() && text_of(list[i]) == t && forall|j: int| 0 <= j < i ==> text_of(list[j]) != t
}

proof fn lemma_repeat_push(t: Seq<char>, n: nat)
    ensures
        repeat_spec(t, n + 1) == repeat_spec(t, n) + t,
{
}

pub proof fn lemma_multiset_swap_pop_insert<A>(s: Seq<A>, i: int, p: int)
    requires
        0 <= i < s.len(),
        0 <= p <= s.len() - 1,
    ensures
        s.remove(i).insert(p, s[i]).to_multiset() == s.to_multiset(),
{
    broadcast use vstd::seq_lib::group_to_multiset_ensures;
    broadcast use vstd::multiset::group_multiset_axioms;
    vstd::seq_lib::to_multiset_remove(s, i);
    vstd::seq_lib::to_multiset_insert(s.remove(i), p, s[i]);
    assert(s.to_multiset().count(s[i]) > 0);
    assert(s.to_multiset().remove(s[i]).insert(s[i]) =~= s.to_multiset());
}

impl Executor {
    /// `repeat`: a text repeated a number of times; a length in bytes past
    /// `usize::MAX` stops the program (`capacity overflow`).
    pub fn cmd_repeat<P>(&mut self, parse: &P)
        where
            P: Fn(String) -> Option<Numeral>,
        requires
            forall|a: String| call_requires(*parse, (a,)),
        ensures
            does_repeat(*old(self), *final(self), *parse),
    {
        let ghost o = *self;
        let (count_v, text_v) = self.pop2();
        let ghost m = *self;
        let x = number_of(&count_v, parse);
        let n = to_usize(&x);
        let text = text_v.get_string();
        let cs = chars_of(text.as_str());
        let bytes = utf8_length(&cs);
        let overflow = if bytes == 0 || n == 0 {
            false
        } else if bytes > usize::MAX as u128 {
            proof {
                assert(bytes * n >= bytes) by (nonlinear_arith)
                    requires n >= 1, bytes >= 0;
            }
            true
        } else {
            proof {
                assert(bytes * n <= 0xFFFF_FFFF_FFFF_FFFFu128 * 0xFFFF_FFFF_FFFF_FFFFu128) by (nonlinear_arith)
                    requires bytes <= 0xFFFF_FFFF_FFFF_FFFFu128, n <= 0xFFFF_FFFF_FFFF_FFFFu128, bytes >= 0, n >= 0;
                assert(0xFFFF_FFFF_FFFF_FFFFu128 * 0xFFFF_FFFF_FFFF_FFFFu128 <= u128::MAX);
            }
            bytes * (n as u128) > usize::MAX as u128
        };
        proof {
            if bytes == 0 || n == 0 {
                assert(bytes * n == 0) by (nonlinear_arith)
                    requires bytes == 0 || n == 0;
            }
        }
        if overflow {
            self.halted = Some(lit("capacity overflow"));
            proof {
                lemma_halt_effect(o, m, *self, 2, "capacity overflow"@);
                assert(number_value(*parse, arg(o, 0), num_val(x)));
            }
            return;
        }
        let mut r = String::new();
        if bytes > 0 {
            let mut i: usize = 0;
            while i < n
                invariant
                    i <= n,
                    r@ == repeat_spec(text@, i as nat),
                decreases n - i,
            {
                r.append(text.as_str());
                proof {
                    lemma_repeat_push(text@, i as nat);
                }
                i = i + 1;
            }
        } else {
            proof {
                assert(cs@.len() == 0) by {
                    if cs@.len() > 0 {
                        assert(cs@ =~= cs@.drop_last().push(cs@.last()));
                        assert(utf8_len(cs@) >= 1);
                    }
                }
                assert forall|k: nat| repeat_spec(text@, k) == Seq::<char>::empty() by {
                    lemma_repeat_empty(text@, k);
                }
            }
        }
        let ghost rv = r@;
        self.push(Type::String(r));
        proof {
            lemma_effect_push(o, m, *self, 2, seq![], Val::Text(rv), seq![]);
            assert(number_value(*parse, arg(o, 0), num_val(x)));
        }
    }

    /// `index`: the position of the first element whose string form is the
    /// target, or an error.
    #[verifier::loop_isolation(false)]
    pub fn cmd_index<P>(&mut self, parse: &P)
        where
            P: Fn(String) -> Option<Numeral>,
        requires
            forall|a: String| call_requires(*parse, (a,)),
        ensures
            does_index(*old(self), *final(self), *parse),
    {
        let ghost o = *self;
        let (target_v, list_v) = self.pop2();
        let ghost m = *self;
        let target = target_v.get_string();
        let list = list_v.get_list();
        let ghost lv = vals_of(list@);
        proof {
            lemma_vals_of(list@);
        }
        let mut i: usize = 0;
        while i < list.len()
            invariant
                i <= list@.len(),
                lv == vals_of(list@),
                lv.len() == list@.len(),
                forall|j: int| 0 <= j < list@.len() ==> #[trigger] lv[j] == val_of(list@[j]),
                forall|j: int| 0 <= j < i ==> text_of(lv[j]) != target@,
                *self == m,
            decreases list@.len() - i,
        {
            let s = list[i].get_string();
            if same_text(target.as_str(), s.as_str()) {
                let n = count_numeral(i, parse);
                let ghost nv = num_val(n);
                self.push(Type::Number(n));
                proof {
                    lemma_effect_push(o, m, *self, 2, seq![], Val::Number(nv.0, nv.1), seq![]);
                    assert(first_text(lv, target@, i as int));
                    assert(counted(i as nat, nv));
                }
                return;
            }
            i = i + 1;
        }
        self.log_print(lit("Error! item not found in the list\n"));
        let ghost m2 = *self;
        self.push(Type::Error(lit("item-not-found")));
        proof {
            lemma_effect_log(o, m, m2, 2, seq![], seq![], "Error! item not found in the list\n"@);
            lemma_effect_push(o, m2, *self, 2, seq![], Val::Error("item-not-found"@), seq!["Error! item not found in the list\n"@]);
        }
    }

    /// `sort`: the string forms of a list's elements in ascending order.
    pub fn cmd_sort(&mut self)
        ensures
            does_sort(*old(self), *final(self)),
    {
        let ghost o = *self;
        let v = self.pop1();
        let ghost m = *self;
        let list = v.get_list();
        proof {
            lemma_vals_of(list@);
        }
        let mut keys: Vec<Vec<char>> = Vec::new();
        let mut j: usize = 0;
        while j < list.len()
            invariant
                j <= list@.len(),
                keys@.len() == j,
                forall|k: int| 0 <= k < j ==> (#[trigger] keys@[k])@ == text_of(val_of(list@[k])),
            decreases list@.len() - j,
        {
            let s = list[j].get_string();
            keys.push(chars_of(s.as_str()));
            j = j + 1;
        }
        let ghost orig = keys@.map_values(|k: Vec<char>| k@);
        proof {
            lemma_vals_of(list@);
            assert(orig =~= texts_of(vals_of(list@)));
        }
        let mut i: usize = 0;
        let n = keys.len();
        proof {
            assert(keys@.map_values(|k: Vec<char>| k@).take(0) =~= Seq::<Seq<char>>::empty());
        }
        while i < n
            invariant
                n == keys@.len(),
                n == orig.len(),
                i <= n,
                keys@.map_values(|k: Vec<char>| k@).to_multiset() == orig.to_multiset(),
                texts_sorted(keys@.map_values(|k: Vec<char>| k@).take(i as int)),
            decreases n - i,
        {
            let ghost before = keys@.map_values(|k: Vec<char>| k@);
            let ghost pre = before.take(i as int);
            let x = keys.remove(i);
            let ghost mid = keys@.map_values(|k: Vec<char>| k@);
            proof {
                assert(mid =~= before.remove(i as int));
                assert(x@ == before[i as int]);
                assert forall|q: int| 0 <= q < i implies #[trigger] mid[q] == pre[q] by {}
            }
            let mut p: usize = 0;
            loop
                invariant
                    p <= i,
                    i < n,
                    keys@.len() == n - 1,
                    keys@.map_values(|k: Vec<char>| k@) == mid,
                    forall|q: int| 0 <= q < p ==> !text_lt(x@, #[trigger] mid[q]),
                ensures
                    p <= i,
                    p == i || text_lt(x@, mid[p as int]),
                    forall|q: int| 0 <= q < p ==> !text_lt(x@, #[trigger] mid[q]),
                decreases i - p,
            {
                if p == i {
                    break;
                }
                if less_than(&x, &keys[p]) {
                    break;
                }
                p = p + 1;
            }
            keys.insert(p, x);
            proof {
                let after = keys@.map_values(|k: Vec<char>| k@);
                assert(after =~= mid.insert(p as int, before[i as int]));
                lemma_multiset_swap_pop_insert(before, i as int, p as int);
                let now = after.take(i + 1);
                assert(texts_sorted(pre));
                assert forall|q: int| 0 <= q < now.len() - 1 implies !text_lt(#[trigger] now[q + 1], now[q]) by {
                    if q + 1 < p {
                        assert(now[q] == mid[q]);
                        assert(now[q + 1] == mid[q + 1]);
                        assert(mid[q] == pre[q]);
                        assert(mid[q + 1] == pre[q + 1]);
                        assert(!text_lt(pre[q + 1], pre[q]));
                    } else if q + 1 == p {
                        assert(now[q + 1] == before[i as int]);
                        assert(now[q] == mid[q]);
                        assert(!text_lt(x@, mid[q]));
                    } else if q == p {
                        assert(now[q] == before[i as int]);
                        assert(now[q + 1] == mid[q]);
                        assert(text_lt(x@, mid[p as int]));
                        lemma_text_lt_asym(before[i as int], now[q + 1]);
                    } else {
                        assert(now[q] == mid[q - 1]);
                        assert(now[q + 1] == mid[q]);
                        assert(mid[q - 1] == pre[q - 1]);
                        assert(mid[q] == pre[q]);
                        assert(!text_lt(pre[(q - 1) + 1], pre[q - 1]));
                    }
                }
            }
            i = i + 1;
        }
        proof {
            let fin = keys@.map_values(|k: Vec<char>| k@);
            assert(fin.take(n as int) =~= fin);
        }
        let mut strings: Vec<String> = Vec::new();
        let mut k: usize = 0;
        while k < keys.len()
            invariant
                k <= keys@.len(),
                strings@.len() == k,
                forall|q: int| 0 <= q < k ==> (#[trigger] strings@[q])@ == keys@[q]@,
            decreases keys@.len() - k,
        {
            strings.push(crate::text::string_of(keys[k].as_slice()));
            k = k + 1;
        }
        let ghost r = keys@.map_values(|k: Vec<char>| k@);
        proof {
            assert(views(strings@) =~= r);
        }
        let out = Type::List(string_values(strings));
        let ghost ov = out@;
        self.push(out);
        proof {
            lemma_effect_push(o, m, *self, 1, seq![], ov, seq![]);
        }
    }

    /// `cast`: the value converted to the named type; unknown names leave it.
    pub fn cmd_cast<P>(&mut self, parse: &P)
        where
            P: Fn(String) -> Option<Numeral>,
        requires
            forall|a: String| call_requires(*parse, (a,)),
        ensures
            does_cast(*old(self), *final(self), *parse),
    {
        let ghost o = *self;
        let (style_v, value) = self.pop2();
        let ghost m = *self;
        let style = style_v.get_string();
        let s = style.as_str();
        if same_text(s, "number") {
            let x = number_of(&value, parse);
            let ghost xv = num_val(x);
            self.push(Type::Number(x));
            proof {
                lemma_effect_push(o, m, *self, 2, seq![], Val::Number(xv.0, xv.1), seq![]);
                assert(number_value(*parse, arg(o, 1), xv));
            }
            return;
        }
        let r = if same_text(s, "string") {
            Type::String(value.get_string())
        } else if same_text(s, "bool") {
            Type::Bool(value.get_bool())
        } else if same_text(s, "list") {
            Type::List(value.get_list())
        } else if same_text(s, "json") {
            match value {
                Type::Json(j) => Type::Json(j),
                Type::String(t) => Type::Json(crate::json::json_parse_text(t.as_str())),
                _ => Type::Json(lit("{}")),
            }
        } else if same_text(s, "error") {
            Type::Error(value.get_string())
        } else {
            value
        };
        let ghost rv = r@;
        self.push(r);
        proof {
            lemma_effect_push(o, m, *self, 2, seq![], rv, seq![]);
        }
    }

    /// `rand`: an element of the list picked at random; an empty list
    /// stays as it is.
    pub fn cmd_rand(&mut self)
        ensures
            does_rand(*old(self), *final(self)),
    {
        let ghost o = *self;
        let v = self.pop1();
        let ghost m = *self;
        let list = v.get_list();
        proof {
            lemma_vals_of(list@);
        }
        let r = match choose_one(&list) {
            Some(x) => {
                let ghost i = choose|i: int| 0 <= i < list@.len() && list@[i] == *x;
                let d = x.duplicate();
                proof {
                    assert(d@ == vals_of(list@)[i]);
                }
                d
            },
            None => Type::List(list),
        };
        let ghost rv = r@;
        self.push(r);
        proof {
            lemma_effect_push(o, m, *self, 1, seq![], rv, seq![]);
            if vals_of(list@).len() > 0 {
                let i = choose|i: int| 0 <= i < vals_of(list@).len() && rv == vals_of(list@)[i];
                assert(effect(o, *self, 1, seq![vals_of(list@)[i]], seq![]));
            }
        }
    }

    /// `shuffle`: the list in a random order.
    pub fn cmd_shuffle(&mut self)
        ensures
            does_shuffle(*old(self), *final(self)),
    {
        let ghost o = *self;
        let v = self.pop1();
        let ghost m = *self;
        let mut list = v.get_list();
        let ghost before = list@;
        shuffle_all(&mut list);
        let ghost p = choose|p: Seq<int>| is_permutation(p, before.len()) && list@.len() == before.len()
            && forall|i: int| 0 <= i < before.len() ==> list@[i] == before[#[trigger] p[i]];
        proof {
            lemma_vals_of(list@);
            lemma_vals_of(before);
            assert(vals_of(list@) =~= Seq::new(vals_of(before).len(), |i: int| vals_of(before)[p[i]]));
        }
        let r = Type::List(list);
        let ghost rv = r@;
        self.push(r);
        proof {
            lemma_effect_push(o, m, *self, 1, seq![], rv, seq![]);
        }
    }

    /// `regex`: the matches of a pattern in a text, or a regex error.
    pub fn cmd_regex(&mut self)
        ensures
            does_regex(*old(self), *final(self)),
    {
        let ghost o = *self;
        let (pattern_v, text_v) = self.pop2();
        let ghost m = *self;
        let pattern = pattern_v.get_string();
        let text = text_v.get_string();
        match regex_find_all(pattern.as_str(), text.as_str()) {
            Ok(found) => {
                proof {
                    assert(views(found@) == found@.map_values(|t: String| t@));
                }
                let r = Type::List(string_values(found));
                let ghost rv = r@;
                self.push(r);
                proof {
                    lemma_effect_push(o, m, *self, 2, seq![], rv, seq![]);
                }
            },
            Err(e) => {
                let mut msg = lit("Error! ");
                msg.append(replace_str(e.as_str(), "Error", "").as_str());
                msg.append("\n");
                proof {
                    reveal_strlit("");
                    assert(""@ =~= Seq::<char>::empty());
                }
                let ghost mv = msg@;
                self.log_print(msg);
                let ghost m2 = *self;
                self.push(Type::Error(lit("regex")));
                proof {
                    lemma_effect_log(o, m, m2, 2, seq![], seq![], mv);
                    lemma_effect_push(o, m2, *self, 2, seq![], Val::Error("regex"@), seq![mv]);
                }
            },
        }
    }
}

proof fn lemma_repeat_empty(t: Seq<char>, k: nat)
    requires
        t.len() == 0,
    ensures
        repeat_spec(t, k) == Seq::<char>::empty(),
    decreases k,
{
    if k > 0 {
        lemma_repeat_empty(t, (k - 1) as nat);
        assert(repeat_spec(t, (k - 1) as nat) + t =~= Seq::<char>::empty());
    }
}

} // verus!
