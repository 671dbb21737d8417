//! Commands on documents: JSON members, templates, and the tables a
//! database query answers.
use vstd::prelude::*;
use crate::value::{Type, Val, text_of, vals_of, fields_of, lemma_vals_of, lemma_fields_of};
use crate::machine::{Executor, stack_of, effect, arg, halt_effect, lemma_effect_push, lemma_halt_effect, lemma_effect_pop1};
use crate::json::{json_member_text, member_text, json_with, json_with_of, json_parse_text};
use crate::commands::json_of;
use crate::store::{assign, set_named};
use crate::text::{lit, replace_str, replace_spec};

verus! {

broadcast use vstd::std_specs::vec::group_vec_axioms;

/// The JSON text of a value (`get_json`).
pub fn json_text(v: &Type) -> (r: String)
    ensures
        r@ == json_of(v@),
{
    match v {
        Type::Json(j) => crate::text::copy_string(j),
        Type::String(t) => json_parse_text(t.as_str()),
        _ => lit("{}"),
    }
}

/// What `get-json` does: the member named by the top value of the JSON
/// below it.
pub open spec fn does_get_json(o: Executor, f: Executor) -> bool {
    effect(o, f, 2, seq![Val::Json(member_text(json_of(arg(o, 1)), text_of(arg(o, 0))))], seq![])
}

/// `format!("{:?}", text)`: the text as Rust writes a `str` for debugging,
/// in double quotes with escapes.
pub uninterp spec fn debug_text_of(s: Seq<char>) -> Seq<char>;

/// Writes a text as Rust's `Debug` does for `str` (`format!("{:?}", ..)`).
#[verifier::external_body]
fn debug_text(s: &str) -> (r: String)
    ensures
        r@ == debug_text_of(s@),
{
    format!("{:?}", s)
}

/// Whether a character is JSON whitespace.
pub open spec fn json_blank(c: char) -> bool {
    c == ' ' || c == '\t' || c == '\n' || c == '\r'
}

/// The kind of the JSON value a JSON text holds, named as `serde_json`
/// names it; the first character after leading whitespace tells it.
pub open spec fn json_kind(t: Seq<char>) -> Seq<char>
    decreases t.len(),
{
    if t.len() == 0 {
        "null"@
    } else if json_blank(t[0]) {
        json_kind(t.drop_first())
    } else if t[0] == '{' {
        "object"@
    } else if t[0] == '[' {
        "array"@
    } else if t[0] == '"' {
        "string"@
    } else if t[0] == 't' || t[0] == 'f' {
        "boolean"@
    } else if t[0] == 'n' {
        "null"@
    } else {
        "number"@
    }
}

/// The name of the kind of JSON value a JSON text holds.
pub fn json_kind_name(t: &str) -> (r: String)
    ensures
        r@ == json_kind(t@),
{
    let cs = crate::text::chars_of(t);
    let n = cs.len();
    let mut i: usize = 0;
    assert(t@.skip(0) =~= t@);
    while i < n
        invariant
            i <= n,
            n == cs@.len(),
            cs@ == t@,
            json_kind(t@) == json_kind(t@.skip(i as int)),
        decreases n - i,
    {
        let c = cs[i];
        proof {
            assert(t@.skip(i as int)[0] == c);
            assert(t@.skip(i as int).drop_first() =~= t@.skip(i + 1));
        }
        if c == ' ' || c == '\t' || c == '\n' || c == '\r' {
            i = i + 1;
        } else if c == '{' {
            return lit("object");
        } else if c == '[' {
            return lit("array");
        } else if c == '"' {
            return lit("string");
        } else if c == 't' || c == 'f' {
            return lit("boolean");
        } else if c == 'n' {
            return lit("null");
        } else {
            return lit("number");
        }
    }
    proof {
        assert(t@.skip(i as int).len() == 0);
    }
    lit("null")
}

/// The message `set-json` halts with where the JSON is neither an object
/// nor null: the key as Rust debug-prints it and the JSON's kind.
pub open spec fn json_key_msg(text: Seq<char>, key: Seq<char>) -> Seq<char> {
    "cannot access key "@ + debug_text_of(key) + " in JSON "@ + json_kind(text)
}

/// What `set-json` does: the JSON third from the top with the member named
/// by the second set to the JSON on top; the program halts where the JSON
/// is neither an object nor null.
pub open spec fn does_set_json(o: Executor, f: Executor) -> bool {
    match json_with_of(json_of(arg(o, 2)), text_of(arg(o, 1)), json_of(arg(o, 0))) {
        Some(t) => effect(o, f, 3, seq![Val::Json(t)], seq![]),
        None => halt_effect(o, f, 3, json_key_msg(json_of(arg(o, 2)), text_of(arg(o, 1)))),
    }
}

/// The pairs a template is rendered with: each property and its string
/// form.
pub open spec fn template_pairs(fields: Seq<(Seq<char>, Val)>) -> Seq<(Seq<char>, Seq<char>)> {
    fields.map_values(|p: (Seq<char>, Val)| (p.0, text_of(p.1)))
}

pub open spec fn pairs_of(v: Seq<(String, String)>) -> Seq<(Seq<char>, Seq<char>)> {
    v.map_values(|p: (String, String)| (p.0@, p.1@))
}

pub open spec fn render_msg() -> Seq<char> {
    "template rendering failed"@
}

/// The characters a `{{ .. }}` tag of a plain template may hold: a
/// variable path or a literal number, and spaces.
pub open spec fn tag_char(c: char) -> bool {
    ('a' <= c <= 'z') || ('A' <= c <= 'Z') || ('0' <= c <= '9') || c == '_' || c == '.' || c == ' '
}

/// Whether the template from position `i` on, in a `{{ .. }}` tag or not,
/// is plain: no `{%` statement tags (so no includes, imports, macros or
/// loops), and each `{{ .. }}` tag holds only `tag_char`s and is closed.
/// Rendering such a template only looks variables up.
pub open spec fn plain_template(t: Seq<char>, i: nat, in_tag: bool) -> bool
    decreases t.len() - i,
{
    if i >= t.len() {
        !in_tag
    } else if !in_tag {
        if t[i as int] == '{' && i + 1 < t.len() && t[i + 1 as int] == '%' {
            false
        } else if t[i as int] == '{' && i + 1 < t.len() && t[i + 1 as int] == '{' {
            plain_template(t, i + 2, true)
        } else {
            plain_template(t, i + 1, false)
        }
    } else if t[i as int] == '}' && i + 1 < t.len() && t[i + 1 as int] == '}' {
        plain_template(t, i + 2, false)
    } else {
        tag_char(t[i as int]) && plain_template(t, i + 1, true)
    }
}

pub open spec fn template_tags_msg() -> Seq<char> {
    "template tags other than {{ name }} are not supported"@
}

/// Whether a template is plain (see `plain_template`).
pub fn is_plain_template(t: &str) -> (r: bool)
    ensures
        r == plain_template(t@, 0, false),
{
    let cs = crate::text::chars_of(t);
    let n = cs.len();
    let mut i: usize = 0;
    let mut in_tag = false;
    while i < n
        invariant
            i <= n,
            n == cs@.len(),
            cs@ == t@,
            plain_template(t@, 0, false) == plain_template(t@, i as nat, in_tag),
        decreases n - i,
    {
        let c = cs[i];
        let next: char = if i + 1 < n { cs[i + 1] } else { ' ' };
        if !in_tag {
            if c == '{' && i + 1 < n && next == '%' {
                return false;
            } else if c == '{' && i + 1 < n && next == '{' {
                in_tag = true;
                i = i + 2;
            } else {
                i = i + 1;
            }
        } else if c == '}' && i + 1 < n && next == '}' {
            in_tag = false;
            i = i + 2;
        } else if ('a' <= c && c <= 'z') || ('A' <= c && c <= 'Z') || ('0' <= c && c <= '9') || c == '_' || c == '.' || c == ' ' {
            i = i + 1;
        } else {
            return false;
        }
    }
    !in_tag
}

/// What `template` does: with an object on top, the text below it is
/// rendered with the object's properties (some text, or a halt where the
/// template does not render); a template that is not plain halts the
/// program; with anything else than an object an error is pushed.
pub open spec fn does_template(o: Executor, f: Executor) -> bool {
    match arg(o, 0) {
        Val::Object(_, fields) => if plain_template(text_of(arg(o, 1)), 0, false) {
            match render_of(text_of(arg(o, 1)), template_pairs(fields)) {
                Some(t) => effect(o, f, 2, seq![Val::Text(t)], seq![]),
                None => halt_effect(o, f, 2, render_msg()),
            }
        } else {
            halt_effect(o, f, 2, template_tags_msg())
        },
        _ => effect(o, f, 1, seq![Val::Error("not-object"@)], seq![]),
    }
}

/// What `Tera::default().render_str` gives for a template whose context
/// holds each pair, inserted in order as a string; `None` where it fails.
pub uninterp spec fn render_of(template: Seq<char>, pairs: Seq<(Seq<char>, Seq<char>)>) -> Option<Seq<char>>;

/// Renders a template with `tera` (`Tera::default().render_str`), each
/// pair inserted into the context as a string; `None` where it fails.
/// Only plain templates are handed over. Rendering one only looks names up
/// in the context (tera's context is a `BTreeMap`, so even the dump of the
/// whole context comes out in one order), which makes the result a
/// function of the template and the pairs; the contract names it. Other
/// templates are kept away: tera sets no bound on how deep rendering goes
/// (a template may include or import itself, or define a macro that calls
/// itself), on what `range` allocates, and `get_env` reads the environment.
#[verifier::external_body]
fn render_template(template: &str, pairs: &Vec<(String, String)>) -> (r: Option<String>)
    requires
        plain_template(template@, 0, false),
    ensures
        match r {
            Some(s) => render_of(template@, pairs_of(pairs@)) == Some(s@),
            None => render_of(template@, pairs_of(pairs@)) is None,
        },
{
    let mut context = tera::Context::new();
    for (key, value) in pairs.iter() {
        context.insert(key.as_str(), value);
    }
    tera::Tera::default().render_str(template, &context).ok()
}

/// The pairs for rendering with an object's properties.
pub fn context_pairs(fields: &Vec<(String, Type)>) -> (r: Vec<(String, String)>)
    ensures
        pairs_of(r@) == template_pairs(fields_of(fields@)),
{
    let mut r: Vec<(String, String)> = Vec::new();
    let mut i: usize = 0;
    proof {
        lemma_fields_of(fields@);
    }
    while i < fields.len()
        invariant
            i <= fields@.len(),
            fields_of(fields@).len() == fields@.len(),
            forall|j: int| 0 <= j < fields@.len() ==> #[trigger] fields_of(fields@)[j] == (fields@[j].0@, fields@[j].1@),
            pairs_of(r@) == template_pairs(fields_of(fields@)).take(i as int),
        decreases fields@.len() - i,
    {
        let key = crate::text::copy_string(&fields[i].0);
        let value = fields[i].1.get_string();
        let ghost before = r@;
        r.push((key, value));
        proof {
            assert(pairs_of(r@) =~= pairs_of(before).push((key@, value@)));
            assert(template_pairs(fields_of(fields@)).take(i + 1) =~= template_pairs(fields_of(fields@)).take(i as int).push((key@, value@)));
        }
        i = i + 1;
    }
    proof {
        assert(template_pairs(fields_of(fields@)).take(fields@.len() as int) =~= template_pairs(fields_of(fields@)));
    }
    r
}

impl Executor {
    /// `get-json`.
    pub fn cmd_get_json(&mut self)
        ensures
            does_get_json(*old(self), *final(self)),
    {
        let ghost o = *self;
        let (key, json) = self.pop2();
        let ghost m = *self;
        let text = json_text(&json);
        let member = json_member_text(text.as_str(), key.get_string().as_str());
        let v = Type::Json(member);
        self.push(v);
        proof {
            lemma_effect_push(o, m, *self, 2, seq![], v@, seq![]);
        }
    }

    /// `set-json`.
    pub fn cmd_set_json(&mut self)
        ensures
            does_set_json(*old(self), *final(self)),
    {
        let ghost o = *self;
        let (value, key, json) = self.pop3();
        let ghost m = *self;
        let text = json_text(&json);
        let vtext = json_text(&value);
        let name = key.get_string();
        match json_with(text.as_str(), name.as_str(), vtext.as_str()) {
            Some(t) => {
                let v = Type::Json(t);
                self.push(v);
                proof {
                    lemma_effect_push(o, m, *self, 3, seq![], v@, seq![]);
                }
            },
            None => {
                let mut msg = lit("cannot access key ");
                let shown = debug_text(name.as_str());
                crate::text::append(&mut msg, shown.as_str());
                crate::text::append(&mut msg, " in JSON ");
                let kind = json_kind_name(text.as_str());
                crate::text::append(&mut msg, kind.as_str());
                self.halted = Some(msg);
                proof {
                    lemma_halt_effect(o, m, *self, 3, json_key_msg(json_of(arg(o, 2)), text_of(arg(o, 1))));
                }
            },
        }
    }

    /// What follows rendering a template: the text rendered is pushed, or,
    /// where rendering failed, the program halts.
    pub fn push_rendered(&mut self, rendered: Option<String>)
        ensures
            final(self).memory == old(self).memory,
            final(self).log == old(self).log,
            final(self).mode == old(self).mode,
            match rendered {
                Some(t) => stack_of(*final(self)) == stack_of(*old(self)).push(Val::Text(t@))
                    && final(self).halted == old(self).halted,
                None => stack_of(*final(self)) == stack_of(*old(self))
                    && (final(self).halted matches Some(x) && x@ == render_msg()),
            },
    {
        match rendered {
            Some(t) => self.push(Type::String(t)),
            None => {
                self.halted = Some(lit("template rendering failed"));
            },
        }
    }

    /// `template`: renders the text below an object with its properties.
    pub fn cmd_template(&mut self)
        ensures
            does_template(*old(self), *final(self)),
    {
        let ghost o = *self;
        let object = self.pop_stack();
        let ghost m1 = *self;
        proof {
            lemma_effect_pop1(o, m1);
        }
        match object {
            Type::Object(_, fields) => {
                let template = self.pop_stack();
                let ghost m = *self;
                proof {
                    crate::machine::lemma_pop_more(crate::machine::stack_of(o), 1);
                    crate::machine::lemma_pop_more(crate::machine::stack_of(o), 0);
                    crate::machine::lemma_pop_more(crate::machine::stack_of(m1), 0);
                    crate::machine::lemma_log_chain(o, m1, m, crate::machine::underflow(crate::machine::stack_of(o).len(), 1),
                        crate::machine::underflow(crate::machine::stack_of(m1).len(), 1));
                    assert(crate::machine::after_pops(crate::machine::below(crate::machine::stack_of(m1)), 0)
                        == crate::machine::below(crate::machine::stack_of(m1)));
                    assert(crate::machine::underflow(crate::machine::stack_of(o).len(), 2) + Seq::<Seq<char>>::empty()
                        =~= crate::machine::underflow(crate::machine::stack_of(o).len(), 2));
                    assert(crate::machine::stack_of(m) + Seq::<Val>::empty() =~= crate::machine::stack_of(m));
                    assert(effect(o, m, 2, seq![], seq![]));
                }
                let text = template.get_string();
                if !is_plain_template(text.as_str()) {
                    self.halted = Some(lit("template tags other than {{ name }} are not supported"));
                    proof {
                        lemma_halt_effect(o, m, *self, 2, template_tags_msg());
                    }
                    return;
                }
                let pairs = context_pairs(&fields);
                let rendered = render_template(text.as_str(), &pairs);
                let ghost out = rendered;
                self.push_rendered(rendered);
                proof {
                    match out {
                        Some(r) => {
                            lemma_effect_push(o, m, *self, 2, seq![], Val::Text(r@), seq![]);
                            assert(Seq::<Val>::empty().push(Val::Text(r@)) =~= seq![Val::Text(r@)]);
                        },
                        None => {
                            lemma_halt_effect(o, m, *self, 2, render_msg());
                        },
                    }
                }
            },
            _ => {
                let v = Type::Error(lit("not-object"));
                self.push(v);
                proof {
                    lemma_effect_push(o, m1, *self, 1, seq![], v@, seq![]);
                }
            },
        }
    }
}

// ---------------------------------------------------------------------------
// Tables

/// A row's properties: its columns set in order, a later column of the same
/// name replacing an earlier one.
pub open spec fn row_fields(row: Seq<(Seq<char>, Val)>) -> Seq<(Seq<char>, Val)>
    decreases row.len(),
{
    if row.len() == 0 {
        seq![]
    } else {
        assign(row_fields(row.drop_last()), row.last().0, row.last().1)
    }
}

pub open spec fn rows_of(rows: Seq<Vec<(String, Type)>>) -> Seq<Seq<(Seq<char>, Val)>> {
    rows.map_values(|r: Vec<(String, Type)>| fields_of(r@))
}

/// The table a query answers: a list of `table` objects, one per row.
pub open spec fn table_val(rows: Seq<Seq<(Seq<char>, Val)>>) -> Val {
    Val::List(rows.map_values(|r: Seq<(Seq<char>, Val)>| Val::Object("table"@, row_fields(r))))
}

/// The object of one row.
fn row_object(row: Vec<(String, Type)>) -> (r: Type)
    ensures
        r@ == Val::Object("table"@, row_fields(fields_of(row@))),
{
    let mut fields: Vec<(String, Type)> = Vec::new();
    let ghost rv = fields_of(row@);
    proof {
        lemma_fields_of(row@);
        assert(fields_of(fields@) =~= Seq::<(Seq<char>, Val)>::empty());
        assert(rv.take(0) =~= Seq::<(Seq<char>, Val)>::empty());
    }
    let mut i: usize = 0;
    while i < row.len()
        invariant
            i <= row@.len(),
            rv == fields_of(row@),
            rv.len() == row@.len(),
            forall|j: int| 0 <= j < row@.len() ==> #[trigger] rv[j] == (row@[j].0@, row@[j].1@),
            fields_of(fields@) == row_fields(rv.take(i as int)),
        decreases row@.len() - i,
    {
        let key = crate::text::copy_string(&row[i].0);
        let value = row[i].1.duplicate();
        set_named(&mut fields, key, value);
        proof {
            assert(rv.take(i + 1).drop_last() =~= rv.take(i as int));
        }
        i = i + 1;
    }
    proof {
        assert(rv.take(row@.len() as int) =~= rv);
        reveal_strlit("table");
    }
    Type::Object(lit("table"), fields)
}

/// The table value of the rows a query answered, each row its columns'
/// names and values in order.
pub fn table_of(rows: Vec<Vec<(String, Type)>>) -> (r: Type)
    ensures
        r@ == table_val(rows_of(rows@)),
{
    let mut list: Vec<Type> = Vec::new();
    let ghost rs = rows_of(rows@);
    let ghost target = rs.map_values(|r: Seq<(Seq<char>, Val)>| Val::Object("table"@, row_fields(r)));
    let mut i: usize = 0;
    while i < rows.len()
        invariant
            i <= rows@.len(),
            rs == rows_of(rows@),
            target == rs.map_values(|r: Seq<(Seq<char>, Val)>| Val::Object("table"@, row_fields(r))),
            vals_of(list@) == target.take(i as int),
        decreases rows@.len() - i,
    {
        let mut row: Vec<(String, Type)> = Vec::new();
        let mut j: usize = 0;
        while j < rows[i].len()
            invariant
                i < rows@.len(),
                j <= rows@[i as int]@.len(),
                fields_of(row@) == fields_of(rows@[i as int]@).take(j as int),
            decreases rows@[i as int]@.len() - j,
        {
            let key = crate::text::copy_string(&rows[i][j].0);
            let value = rows[i][j].1.duplicate();
            let ghost before = row@;
            row.push((key, value));
            proof {
                lemma_fields_of(rows@[i as int]@);
                assert(row@.drop_last() =~= before);
                assert(fields_of(rows@[i as int]@).take(j + 1) =~= fields_of(rows@[i as int]@).take(j as int).push((key@, value@)));
            }
            j = j + 1;
        }
        proof {
            lemma_fields_of(rows@[i as int]@);
            lemma_fields_of(row@);
            assert(fields_of(rows@[i as int]@).take(rows@[i as int]@.len() as int) =~= fields_of(rows@[i as int]@));
        }
        let obj = row_object(row);
        let ghost before = list@;
        list.push(obj);
        proof {
            crate::value::lemma_vals_push(before, obj);
            assert(target.take(i + 1) =~= target.take(i as int).push(obj@));
        }
        i = i + 1;
    }
    proof {
        assert(target.take(rows@.len() as int) =~= target);
    }
    Type::List(list)
}

// ---------------------------------------------------------------------------
// Console text

/// What `print` and `println` show of a text: the escapes `\n`, `\t` and
/// `\r` written out in it become the characters they name.
pub open spec fn printed(s: Seq<char>) -> Seq<char> {
    replace_spec(replace_spec(replace_spec(s, "\\n"@, "\n"@), "\\t"@, "\t"@), "\\r"@, "\r"@)
}

/// The text `print` and `println` show.
pub fn printed_text(s: &str) -> (r: String)
    ensures
        r@ == printed(s@),
{
    let a = replace_str(s, "\\n", "\n");
    let b = replace_str(a.as_str(), "\\t", "\t");
    replace_str(b.as_str(), "\\r", "\r")
}

} // verus!
