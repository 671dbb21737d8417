//! The decisions of a window: reading its options, and what one message
//! from the page does.
use vstd::prelude::*;
use crate::value::{Type, Val, text_of};
use crate::machine::{Executor, stack_of, log_of, top, effect, number_value, lemma_effect_pop1};
use crate::numeral::{Numeral, float_to_i32, to_i32};
use crate::interp::{parser_total, host_total, evaluated};
use crate::store::lookup;
use crate::text::lit;

verus! {

pub open spec fn default_layout() -> Seq<char> {
    "<h1>Hello, StackGUI !!!</h1>"@
}

/// A window's size option: the property's number as `i32`, or `fallback`.
pub open spec fn size_ok<P: Fn(String) -> Option<Numeral>>(
    parse: P, fields: Seq<(Seq<char>, Val)>, key: Seq<char>, fallback: int, r: int,
) -> bool {
    match lookup(fields, key) {
        Some(v) => exists|x: (u64, Seq<char>)| #[trigger] number_value(parse, v, x) && r == float_to_i32(x.0),
        None => r == fallback,
    }
}

/// A window's options from the value handed to `gui`: an object gives its
/// name as the title and its `width` (800), `height` (600) and `layout`
/// properties; anything else gives the title `Hello` and the defaults.
pub open spec fn window_ok<P: Fn(String) -> Option<Numeral>>(
    parse: P, option: Val, title: Seq<char>, width: int, height: int, layout: Seq<char>,
) -> bool {
    match option {
        Val::Object(name, fields) => {
            &&& title == name
            &&& size_ok(parse, fields, "width"@, 800, width)
            &&& size_ok(parse, fields, "height"@, 600, height)
            &&& layout == match lookup(fields, "layout"@) {
                Some(l) => text_of(l),
                None => default_layout(),
            }
        },
        _ => title == "Hello"@ && width == 800 && height == 600 && layout == default_layout(),
    }
}

fn size_option<P>(fields: &Vec<(String, Type)>, key: &str, fallback: i32, parse: &P) -> (r: i32)
    where
        P: Fn(String) -> Option<Numeral>,
    requires
        parser_total(*parse),
    ensures
        size_ok(*parse, crate::value::fields_of(fields@), key@, fallback as int, r as int),
{
    match crate::store::get_named(fields, key) {
        Some(v) => {
            let n = crate::machine::number_of(&v, parse);
            proof {
                assert(number_value(*parse, v@, crate::value::num_val(n)));
            }
            to_i32(&n)
        },
        None => fallback,
    }
}

/// Reads a window's options: title, width, height and page.
pub fn window_options<P>(option: &Type, parse: &P) -> (r: (String, i32, i32, String))
    where
        P: Fn(String) -> Option<Numeral>,
    requires
        parser_total(*parse),
    ensures
        window_ok(*parse, option@, r.0@, r.1 as int, r.2 as int, r.3@),
{
    proof {
        reveal_strlit("width");
        reveal_strlit("height");
        reveal_strlit("layout");
    }
    match option {
        Type::Object(name, fields) => {
            let width = size_option(fields, "width", 800, parse);
            let height = size_option(fields, "height", 600, parse);
            let layout = match crate::store::get_named(fields, "layout") {
                Some(l) => l.get_string(),
                None => lit("<h1>Hello, StackGUI !!!</h1>"),
            };
            (crate::text::copy_string(name), width, height, layout)
        },
        _ => (lit("Hello"), 800, 600, lit("<h1>Hello, StackGUI !!!</h1>")),
    }
}

/// `m` is `o` with the page's message and the window's object pushed.
pub open spec fn posted(o: Executor, m: Executor, message: Seq<char>, object: Val) -> bool {
    effect(o, m, 0, seq![Val::Text(message), object], seq![])
}

impl Executor {
    /// One message from a window's page: the message and the window's
    /// object are pushed, `(code) method` is evaluated, and the string form
    /// of the value it leaves on top, popped, is the script the page runs
    /// next. Returns the fuel left and the script.
    pub fn window_event<P, C>(&mut self, message: String, object: &Type, parse: &P, host: &C, fuel: u64) -> (r: (u64, String))
        where
            P: Fn(String) -> Option<Numeral>,
            C: Fn(String, Executor) -> Executor,
        requires
            parser_total(*parse),
            host_total(*host),
        ensures
            r.0 <= fuel,
            exists|m: Executor, g: Executor| #![trigger posted(*old(self), m, message@, object@), effect(g, *final(self), 1, seq![], seq![])]
                posted(*old(self), m, message@, object@)
                && evaluated("(code) method"@, m, g, *parse, *host, fuel as nat, r.0 as nat)
                && effect(g, *final(self), 1, seq![], seq![])
                && r.1@ == text_of(top(stack_of(g))),
    {
        let ghost o = *self;
        let ghost mv = message@;
        self.push(Type::String(message));
        let ghost m1 = *self;
        self.push(object.duplicate());
        let ghost m = *self;
        proof {
            assert(effect(o, o, 0, seq![], seq![])) by {
                assert(crate::machine::after_pops(stack_of(o), 0) == stack_of(o));
                assert(stack_of(o) + Seq::<Val>::empty() =~= stack_of(o));
                assert(crate::machine::underflow(stack_of(o).len(), 0) + Seq::<Seq<char>>::empty()
                    =~= Seq::<Seq<char>>::empty());
                assert(log_of(o) + Seq::<Seq<char>>::empty() =~= log_of(o));
            }
            crate::machine::lemma_effect_push(o, o, m1, 0, seq![], Val::Text(mv), seq![]);
            crate::machine::lemma_effect_push(o, m1, m, 0, seq![Val::Text(mv)], object@, seq![]);
            assert(seq![Val::Text(mv)].push(object@) =~= seq![Val::Text(mv), object@]);
            assert(Seq::<Val>::empty().push(Val::Text(mv)) =~= seq![Val::Text(mv)]);
        }
        let rest = self.evaluate_program("(code) method", parse, host, fuel);
        let ghost g = *self;
        let top_value = self.pop_stack();
        proof {
            lemma_effect_pop1(g, *self);
            assert(posted(o, m, mv, object@));
            assert(effect(g, *self, 1, seq![], seq![]));
        }
        (rest, top_value.get_string())
    }
}

} // verus!
