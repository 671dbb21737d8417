//! Objects: named records of properties.
use vstd::prelude::*;
use crate::value::{Type, Val, val_of, vals_of, fields_of, lemma_fields_of, lemma_vals_of, text_of, items_of};
use crate::machine::{Executor, stack_of, log_of, logged, arg, effect, lemma_effect_push, lemma_effect_log};
use crate::store::{assign, lookup, names_of, set_named, get_named, names};
use crate::text::{lit, copy_string};
use crate::commands::{text_vals, string_values};

verus! {

broadcast use vstd::std_specs::vec::group_vec_axioms;

/// The name and properties of a value taken as an object; other values
/// give an empty name and no properties.
pub open spec fn object_parts(v: Val) -> (Seq<char>, Seq<(Seq<char>, Val)>) {
    match v {
        Val::Object(name, fields) => (name, fields),
        _ => (seq![], seq![]),
    }
}

/// The name and properties of a value taken as an object (`get_object`).
pub fn get_object(v: Type) -> (r: (String, Vec<(String, Type)>))
    ensures
        (r.0@, fields_of(r.1@)) == object_parts(v@),
{
    match v {
        Type::Object(name, fields) => (name, fields),
        _ => {
            let r: (String, Vec<(String, Type)>) = (String::new(), Vec::new());
            proof {
                assert(fields_of(r.1@) =~= Seq::<(Seq<char>, Val)>::empty());
            }
            r
        },
    }
}

/// The state of building an instance from its class, item by item.
pub struct Build {
    pub fields: Seq<(Seq<char>, Val)>,
    /// The next initial value to use.
    pub next: nat,
    pub pushed: Seq<Val>,
    pub msgs: Seq<Seq<char>>,
    /// The initial values ran out.
    pub short: bool,
}

pub open spec fn shortage_msg() -> Seq<char> {
    "Error! initial data is shortage\n"@
}

pub open spec fn wrong_msg() -> Seq<char> {
    "Error! the class data structure is wrong."@
}

/// One class item: `[name]` takes the next initial value, `[name default]`
/// gives the default, anything else is an error that does not stop.
pub open spec fn build_step(st: Build, data: Seq<Val>, item: Val) -> Build {
    if st.short {
        st
    } else {
        let il = items_of(item);
        if il.len() == 1 {
            if st.next < data.len() {
                Build { fields: assign(st.fields, text_of(il[0]), data[st.next as int]), next: st.next + 1, ..st }
            } else {
                Build {
                    short: true,
                    pushed: st.pushed.push(Val::Error("instance-shortage"@)),
                    msgs: st.msgs.push(shortage_msg()),
                    ..st
                }
            }
        } else if il.len() >= 2 {
            Build { fields: assign(st.fields, text_of(il[0]), il[1]), ..st }
        } else {
            Build { pushed: st.pushed.push(Val::Error("instance-default"@)), msgs: st.msgs.push(wrong_msg()), ..st }
        }
    }
}

pub open spec fn build_all(items: Seq<Val>, data: Seq<Val>) -> Build
    decreases items.len(),
{
    if items.len() == 0 {
        Build { fields: seq![], next: 0, pushed: seq![], msgs: seq![], short: false }
    } else {
        build_step(build_all(items.drop_last(), data), data, items.last())
    }
}

/// What `instance` pushes and logs for a class list and initial values.
pub open spec fn instance_result(class: Seq<Val>, data: Seq<Val>) -> (Seq<Val>, Seq<Seq<char>>) {
    if class.len() == 0 {
        (seq![Val::Error("instance-name"@)], seq!["Error! the type name is not found."@])
    } else {
        let b = build_all(class.drop_first(), data);
        if b.short {
            (b.pushed, b.msgs)
        } else {
            (b.pushed.push(Val::Object(text_of(class[0]), b.fields)), b.msgs)
        }
    }
}

/// Once the initial values ran out, the later items change nothing.
pub proof fn lemma_build_short(items: Seq<Val>, data: Seq<Val>, k: nat)
    requires
        k <= items.len(),
        build_all(items.take(k as int), data).short,
    ensures
        build_all(items, data) == build_all(items.take(k as int), data),
    decreases items.len() - k,
{
    if k < items.len() {
        assert(items.take((k + 1) as int).drop_last() =~= items.take(k as int));
        lemma_build_short(items, data, k + 1);
    } else {
        assert(items.take(k as int) =~= items);
    }
}

/// What `instance` does.
pub open spec fn does_instance(o: Executor, f: Executor) -> bool {
    &&& effect(o, f, 2,
        instance_result(items_of(arg(o, 1)), items_of(arg(o, 0))).0,
        instance_result(items_of(arg(o, 1)), items_of(arg(o, 0))).1)
}

/// What `property` does.
pub open spec fn does_property(o: Executor, f: Executor) -> bool {
    &&& effect(o, f, 2, seq![
        match lookup(object_parts(arg(o, 1)).1, text_of(arg(o, 0))) {
            Some(v) => v,
            None => Val::Error("property"@),
        }], seq![])
}

/// What `modify` does.
pub open spec fn does_modify(o: Executor, f: Executor) -> bool {
    &&& effect(o, f, 3, seq![Val::Object(object_parts(arg(o, 2)).0,
        assign(object_parts(arg(o, 2)).1, text_of(arg(o, 1)), arg(o, 0)))], seq![])
}

/// What `all` does.
pub open spec fn does_all(o: Executor, f: Executor) -> bool {
    &&& effect(o, f, 1, seq![Val::List(text_vals(names_of(object_parts(arg(o, 0)).1)))], seq![])
}

impl Executor {
    /// `instance`: an object built from a class list (name first, then
    /// property items) and a list of initial values.
    pub fn cmd_instance(&mut self)
        ensures
            does_instance(*old(self), *final(self)),
    {
        let ghost o = *self;
        let (data_v, class_v) = self.pop2();
        let data = data_v.get_list();
        let class = class_v.get_list();
        let ghost dv = vals_of(data@);
        let ghost cv = vals_of(class@);
        proof {
            lemma_vals_of(data@);
            lemma_vals_of(class@);
        }
        if class.len() == 0 {
            let ghost m = *self;
            self.log_print(lit("Error! the type name is not found."));
            let ghost m2 = *self;
            self.push(Type::Error(lit("instance-name")));
            proof {
                lemma_effect_log(o, m, m2, 2, seq![], seq![], "Error! the type name is not found."@);
                lemma_effect_push(o, m2, *self, 2, seq![], Val::Error("instance-name"@), seq!["Error! the type name is not found."@]);
            }
            return;
        }
        let name = class[0].get_string();
        let ghost items = cv.drop_first();
        let mut fields: Vec<(String, Type)> = Vec::new();
        let mut next: usize = 0;
        let mut i: usize = 1;
        proof {
            assert(fields_of(fields@) =~= Seq::<(Seq<char>, Val)>::empty());
            assert(items.take(0) =~= Seq::<Val>::empty());
            assert(effect(o, *self, 2, seq![], seq![]));
        }
        while i < class.len()
            invariant
                1 <= i <= class@.len(),
                cv == vals_of(class@),
                cv.len() == class@.len(),
                dv == vals_of(data@),
                dv.len() == data@.len(),
                forall|j: int| 0 <= j < class@.len() ==> #[trigger] cv[j] == val_of(class@[j]),
                forall|j: int| 0 <= j < data@.len() ==> #[trigger] dv[j] == val_of(data@[j]),
                items == cv.drop_first(),
                cv == items_of(arg(o, 1)),
                dv == items_of(arg(o, 0)),
                o == *old(self),
                ({
                    let b = build_all(items.take(i - 1), dv);
                    &&& !b.short
                    &&& fields_of(fields@) == b.fields
                    &&& next == b.next
                    &&& effect(o, *self, 2, b.pushed, b.msgs)
                }),
            decreases class@.len() - i,
        {
            let ghost b = build_all(items.take(i - 1), dv);
            proof {
                assert(items.take(i as int).drop_last() =~= items.take(i - 1));
                assert(items.take(i as int).last() == cv[i as int]);
            }
            let il = class[i].get_list();
            proof {
                lemma_vals_of(il@);
            }
            if il.len() == 1 {
                if next < data.len() {
                    let key = il[0].get_string();
                    let value = data[next].duplicate();
                    set_named(&mut fields, key, value);
                    next = next + 1;
                } else {
                    let ghost m = *self;
                    self.log_print(lit("Error! initial data is shortage\n"));
                    let ghost m2 = *self;
                    self.push(Type::Error(lit("instance-shortage")));
                    proof {
                        lemma_effect_log(o, m, m2, 2, b.pushed, b.msgs, shortage_msg());
                        lemma_effect_push(o, m2, *self, 2, b.pushed, Val::Error("instance-shortage"@), b.msgs.push(shortage_msg()));
                        let b2 = build_all(items.take(i as int), dv);
                        assert(items_of(cv[i as int]) == vals_of(il@));
                        assert(b2 == build_step(b, dv, cv[i as int]));
                        assert(b2.short);
                        assert(b2.pushed == b.pushed.push(Val::Error("instance-shortage"@)));
                        assert(b2.msgs == b.msgs.push(shortage_msg()));
                        assert(cv == items_of(arg(o, 1)));
                        assert(dv == items_of(arg(o, 0)));
                        lemma_build_short(items, dv, i as nat);
                        assert(build_all(items, dv) == b2);
                        assert(cv.drop_first() == items);
                        assert(instance_result(cv, dv) == (b2.pushed, b2.msgs));
                    }
                    return;
                }
            } else if il.len() >= 2 {
                let key = il[0].get_string();
                let value = il[1].duplicate();
                set_named(&mut fields, key, value);
            } else {
                let ghost m = *self;
                self.log_print(lit("Error! the class data structure is wrong."));
                let ghost m2 = *self;
                self.push(Type::Error(lit("instance-default")));
                proof {
                    lemma_effect_log(o, m, m2, 2, b.pushed, b.msgs, wrong_msg());
                    lemma_effect_push(o, m2, *self, 2, b.pushed, Val::Error("instance-default"@), b.msgs.push(wrong_msg()));
                }
            }
            i = i + 1;
        }
        proof {
            assert(items.take(class@.len() - 1) =~= items);
        }
        let ghost b = build_all(items, dv);
        let obj = Type::Object(name, fields);
        let ghost ov = obj@;
        let ghost m = *self;
        self.push(obj);
        proof {
            lemma_effect_push(o, m, *self, 2, b.pushed, ov, b.msgs);
        }
    }

    /// `property`: the value of an object's property, or a property error.
    pub fn cmd_property(&mut self)
        ensures
            does_property(*old(self), *final(self)),
    {
        let ghost o = *self;
        let (name_v, obj_v) = self.pop2();
        let ghost m = *self;
        let name = name_v.get_string();
        let (_, fields) = get_object(obj_v);
        let r = match get_named(&fields, name.as_str()) {
            Some(v) => v,
            None => Type::Error(lit("property")),
        };
        let ghost rv = r@;
        self.push(r);
        proof {
            lemma_effect_push(o, m, *self, 2, seq![], rv, seq![]);
        }
    }

    /// `modify`: the object with one property set.
    pub fn cmd_modify(&mut self)
        ensures
            does_modify(*old(self), *final(self)),
    {
        let ghost o = *self;
        let (data, prop_v, obj_v) = self.pop3();
        let ghost m = *self;
        let property = prop_v.get_string();
        let (name, mut fields) = get_object(obj_v);
        set_named(&mut fields, property, data);
        let r = Type::Object(name, fields);
        let ghost rv = r@;
        self.push(r);
        proof {
            lemma_effect_push(o, m, *self, 3, seq![], rv, seq![]);
        }
    }

    /// `all`: the property names of an object.
    pub fn cmd_all(&mut self)
        ensures
            does_all(*old(self), *final(self)),
    {
        let ghost o = *self;
        let obj_v = self.pop1();
        let ghost m = *self;
        let (_, fields) = get_object(obj_v);
        let r = Type::List(string_values(names(&fields)));
        let ghost rv = r@;
        self.push(r);
        proof {
            lemma_effect_push(o, m, *self, 1, seq![], rv, seq![]);
        }
    }
}

} // verus!
