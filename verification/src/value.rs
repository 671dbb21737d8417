//! The values of the language and the conversions between them.
use vstd::prelude::*;
use crate::numeral::{Numeral, count_bits, decimal, decimal_text, is_zero, is_zero_bits, numeral_of_count};
use crate::text::{chars_of, copy_string, join_spec, join_strings, lit, push_char, string_of, views, lemma_views_push};
use crate::json::{json_bool, json_bool_of, json_keys, json_keys_of, json_str, json_str_of};

verus! {

broadcast use vstd::std_specs::vec::group_vec_axioms;

/// A value on the stack.
pub enum Type {
    Number(Numeral),
    String(String),
    Bool(bool),
    List(Vec<Type>),
    /// The entries row by row, and the (rows, columns) it was written with.
    Matrix(Vec<Numeral>, (usize, usize)),
    /// A type name and its properties; no name occurs twice.
    Object(String, Vec<(String, Type)>),
    /// A JSON value, as its compact text.
    Json(String),
    Binary(Vec<u8>),
    /// An image, by the handle of the host that holds it.
    Image(u64),
    Error(String),
}

/// The mathematical model of a value.
pub enum Val {
    Number(u64, Seq<char>),
    Text(Seq<char>),
    Bool(bool),
    List(Seq<Val>),
    Matrix(Seq<(u64, Seq<char>)>, nat, nat),
    Object(Seq<char>, Seq<(Seq<char>, Val)>),
    Json(Seq<char>),
    Binary(Seq<u8>),
    Image(u64),
    Error(Seq<char>),
}

pub open spec fn num_val(n: Numeral) -> (u64, Seq<char>) {
    (n.bits, n.text@)
}

pub open spec fn val_of(t: Type) -> Val
    decreases t,
{
    match t {
        Type::Number(n) => Val::Number(n.bits, n.text@),
        Type::String(s) => Val::Text(s@),
        Type::Bool(b) => Val::Bool(b),
        Type::List(v) => Val::List(vals_of(v@)),
        Type::Matrix(m, size) => Val::Matrix(m@.map_values(|n: Numeral| num_val(n)), size.0 as nat, size.1 as nat),
        Type::Object(name, fields) => Val::Object(name@, fields_of(fields@)),
        Type::Json(j) => Val::Json(j@),
        Type::Binary(b) => Val::Binary(b@),
        Type::Image(h) => Val::Image(h),
        Type::Error(e) => Val::Error(e@),
    }
}

pub open spec fn vals_of(s: Seq<Type>) -> Seq<Val>
    decreases s,
{
    if s.len() == 0 {
        seq![]
    } else {
        vals_of(s.drop_last()).push(val_of(s.last()))
    }
}

pub open spec fn fields_of(s: Seq<(String, Type)>) -> Seq<(Seq<char>, Val)>
    decreases s,
{
    if s.len() == 0 {
        seq![]
    } else {
        fields_of(s.drop_last()).push((s.last().0@, val_of(s.last().1)))
    }
}

impl View for Type {
    type V = Val;

    open spec fn view(&self) -> Val {
        val_of(*self)
    }
}

pub proof fn lemma_vals_of(s: Seq<Type>)
    ensures
        vals_of(s).len() == s.len(),
        forall|i: int| 0 <= i < s.len() ==> #[trigger] vals_of(s)[i] == val_of(s[i]),
    decreases s.len(),
{
    if s.len() > 0 {
        lemma_vals_of(s.drop_last());
        assert forall|i: int| 0 <= i < s.len() implies #[trigger] vals_of(s)[i] == val_of(s[i]) by {
            if i < s.len() - 1 {
                assert(s.drop_last()[i] == s[i]);
            }
        }
    }
}

pub proof fn lemma_vals_push(s: Seq<Type>, t: Type)
    ensures
        vals_of(s.push(t)) == vals_of(s).push(val_of(t)),
{
    assert(s.push(t).drop_last() =~= s);
}

pub proof fn lemma_fields_of(s: Seq<(String, Type)>)
    ensures
        fields_of(s).len() == s.len(),
        forall|i: int| 0 <= i < s.len() ==> #[trigger] fields_of(s)[i] == (s[i].0@, val_of(s[i].1)),
    decreases s.len(),
{
    if s.len() > 0 {
        lemma_fields_of(s.drop_last());
        assert forall|i: int| 0 <= i < s.len() implies #[trigger] fields_of(s)[i] == (s[i].0@, val_of(s[i].1)) by {
            if i < s.len() - 1 {
                assert(s.drop_last()[i] == s[i]);
            }
        }
    }
}

/// Two sequences of values with the same elements have the same model.
pub proof fn lemma_vals_ext(a: Seq<Type>, b: Seq<Type>)
    requires
        a.len() == b.len(),
        forall|i: int| 0 <= i < a.len() ==> val_of(a[i]) == val_of(b[i]),
    ensures
        vals_of(a) == vals_of(b),
{
    lemma_vals_of(a);
    lemma_vals_of(b);
    assert(vals_of(a) =~= vals_of(b));
}

pub proof fn lemma_fields_ext(a: Seq<(String, Type)>, b: Seq<(String, Type)>)
    requires
        a.len() == b.len(),
        forall|i: int| 0 <= i < a.len() ==> a[i].0@ == b[i].0@ && val_of(a[i].1) == val_of(b[i].1),
    ensures
        fields_of(a) == fields_of(b),
{
    lemma_fields_of(a);
    lemma_fields_of(b);
    assert(fields_of(a) =~= fields_of(b));
}

// ---------------------------------------------------------------------------
// Spec conversions

pub open spec fn bool_text(b: bool) -> Seq<char> {
    if b {
        "true"@
    } else {
        "false"@
    }
}

pub open spec fn num_texts(m: Seq<(u64, Seq<char>)>) -> Seq<Seq<char>> {
    m.map_values(|n: (u64, Seq<char>)| n.1)
}

/// The rows the entries of a matrix are shown in: a new row starts after
/// `cols` entries (with `cols == 0`, every entry starts a row after an
/// empty first one).
pub open spec fn row_state(xs: Seq<Seq<char>>, cols: nat) -> (Seq<Seq<Seq<char>>>, Seq<Seq<char>>, nat)
    decreases xs.len(),
{
    if xs.len() == 0 {
        (seq![], seq![], 0)
    } else {
        let (rows, buf, count) = row_state(xs.drop_last(), cols);
        if count < cols {
            (rows, buf.push(xs.last()), count + 1)
        } else {
            (rows.push(buf), seq![xs.last()], 1)
        }
    }
}

pub open spec fn matrix_rows(xs: Seq<Seq<char>>, cols: nat) -> Seq<Seq<Seq<char>>> {
    let (rows, buf, _) = row_state(xs, cols);
    rows.push(buf)
}

/// The entries cut into rows of `cols`, front to back; the last row holds
/// what is left.
pub open spec fn chunk_rows(xs: Seq<Seq<char>>, cols: nat) -> Seq<Seq<Seq<char>>>
    decreases xs.len(),
{
    if cols == 0 || xs.len() <= cols {
        seq![xs]
    } else {
        seq![xs.take(cols as int)] + chunk_rows(xs.skip(cols as int), cols)
    }
}

proof fn lemma_chunks_push(xs: Seq<Seq<char>>, x: Seq<char>, cols: nat)
    requires
        cols >= 1,
        xs.len() >= 1,
    ensures
        chunk_rows(xs, cols).len() >= 1,
        chunk_rows(xs, cols).last().len() <= cols,
        chunk_rows(xs.push(x), cols) == (if chunk_rows(xs, cols).last().len() < cols {
            chunk_rows(xs, cols).drop_last().push(chunk_rows(xs, cols).last().push(x))
        } else {
            chunk_rows(xs, cols).push(seq![x])
        }),
    decreases xs.len(),
{
    let ys = xs.push(x);
    if xs.len() < cols {
        assert(chunk_rows(xs, cols) == seq![xs]);
        assert(chunk_rows(ys, cols) == seq![ys]);
        assert(seq![xs].drop_last().push(xs.push(x)) =~= seq![ys]);
    } else if xs.len() == cols {
        assert(chunk_rows(xs, cols) == seq![xs]);
        assert(ys.take(cols as int) =~= xs);
        assert(ys.skip(cols as int) =~= seq![x]);
        assert(chunk_rows(seq![x], cols) == seq![seq![x]]);
        assert(chunk_rows(ys, cols) == seq![xs] + seq![seq![x]]);
        assert(seq![xs] + seq![seq![x]] =~= seq![xs].push(seq![x]));
    } else {
        let t = xs.skip(cols as int);
        lemma_chunks_push(t, x, cols);
        assert(ys.take(cols as int) =~= xs.take(cols as int));
        assert(ys.skip(cols as int) =~= t.push(x));
        let c = chunk_rows(t, cols);
        let h = seq![xs.take(cols as int)];
        assert(chunk_rows(xs, cols) == h + c);
        assert(chunk_rows(ys, cols) == h + chunk_rows(t.push(x), cols));
        assert((h + c).last() == c.last());
        assert((h + c).drop_last() =~= h + c.drop_last());
        assert((h + c.drop_last()).push(c.last().push(x)) =~= h + c.drop_last().push(c.last().push(x)));
        assert((h + c).push(seq![x]) =~= h + c.push(seq![x]));
    }
}

/// Cutting the entries as they come (`row_state`) gives the rows of
/// `chunk_rows`.
pub proof fn lemma_rows_chunks(xs: Seq<Seq<char>>, cols: nat)
    requires
        cols >= 1,
        xs.len() >= 1,
    ensures
        row_state(xs, cols).0.push(row_state(xs, cols).1) == chunk_rows(xs, cols),
        row_state(xs, cols).2 == row_state(xs, cols).1.len(),
        1 <= row_state(xs, cols).2 <= cols,
    decreases xs.len(),
{
    if xs.len() == 1 {
        assert(xs.drop_last().len() == 0);
        assert(chunk_rows(xs, cols) == seq![xs]);
        assert(seq![xs.last()] =~= xs);
        assert(Seq::<Seq<Seq<char>>>::empty().push(seq![xs.last()]) =~= seq![xs]);
    } else {
        let p = xs.drop_last();
        lemma_rows_chunks(p, cols);
        lemma_chunks_push(p, xs.last(), cols);
        assert(p.push(xs.last()) =~= xs);
        let (rows, buf, count) = row_state(p, cols);
        assert(rows.push(buf).last() == buf);
        assert(rows.push(buf).drop_last() =~= rows);
    }
}

/// ` a, b, c,` for the entries of one row.
pub open spec fn cells_text(row: Seq<Seq<char>>) -> Seq<char>
    decreases row.len(),
{
    if row.len() == 0 {
        seq![]
    } else {
        cells_text(row.drop_last()) + " "@ + row.last() + ","@
    }
}

/// `{` followed by each row's cells, each time dropping the last character
/// written and ending the row with `;`.
pub open spec fn rows_text(rows: Seq<Seq<Seq<char>>>) -> Seq<char>
    decreases rows.len(),
{
    if rows.len() == 0 {
        "{"@
    } else {
        (rows_text(rows.drop_last()) + cells_text(rows.last())).drop_last() + ";"@
    }
}

/// The text of a matrix: `{ 1, 2; 3, 4}`.
pub open spec fn matrix_text(xs: Seq<Seq<char>>, cols: nat) -> Seq<char> {
    rows_text(matrix_rows(xs, cols)).drop_last() + "}"@
}

/// How a value is shown (`display`).
pub open spec fn display(v: Val) -> Seq<char>
    decreases v,
{
    match v {
        Val::Number(_, t) => t,
        Val::Text(s) => "("@ + s + ")"@,
        Val::Bool(b) => bool_text(b),
        Val::List(items) => "["@ + join_spec(displays(items), " "@) + "]"@,
        Val::Error(e) => "error:"@ + e,
        Val::Json(j) => crate::json::pretty_text(j),
        Val::Object(name, _) => "Object<"@ + name + ">"@,
        Val::Binary(b) => "Binary<"@ + decimal(b.len()) + ">"@,
        Val::Matrix(m, _, cols) => matrix_text(num_texts(m), cols),
        Val::Image(_) => "{Image}"@,
    }
}

pub open spec fn displays(items: Seq<Val>) -> Seq<Seq<char>>
    decreases items,
{
    if items.len() == 0 {
        seq![]
    } else {
        displays(items.drop_last()).push(display(items.last()))
    }
}

/// The string form of a value (`get_string`).
pub open spec fn text_of(v: Val) -> Seq<char> {
    match v {
        Val::Text(s) => s,
        Val::Number(_, t) => t,
        Val::Bool(b) => bool_text(b),
        Val::List(_) => display(v),
        Val::Error(e) => "error:"@ + e,
        Val::Object(name, _) => "Object<"@ + name + ">"@,
        Val::Json(j) => match json_str_of(j) {
            Some(s) => s,
            None => seq![],
        },
        Val::Matrix(m, _, cols) => matrix_text(num_texts(m), cols),
        Val::Binary(b) => "Binary<"@ + decimal(b.len()) + ">"@,
        Val::Image(_) => "{Image}"@,
    }
}

/// The truth of a value (`get_bool`); note that an object is true when it
/// has no properties.
pub open spec fn truth(v: Val) -> bool {
    match v {
        Val::Text(s) => s.len() > 0,
        Val::Number(bits, _) => !is_zero_bits(bits),
        Val::Bool(b) => b,
        Val::List(l) => l.len() > 0,
        Val::Json(j) => match json_bool_of(j) {
            Some(b) => b,
            None => false,
        },
        Val::Error(e) => e == "true"@,
        Val::Object(_, fields) => fields.len() == 0,
        Val::Binary(b) => b.len() > 0,
        _ => false,
    }
}

/// The number for a byte.
pub open spec fn byte_val(b: u8) -> Val {
    Val::Number(count_bits(b as nat) as u64, decimal(b as nat))
}

/// The elements of a value taken as a list (`get_list`).
pub open spec fn items_of(v: Val) -> Seq<Val> {
    match v {
        Val::Text(s) => s.map_values(|c: char| Val::Text(seq![c])),
        Val::Number(_, _) => seq![v],
        Val::Bool(_) => seq![v],
        Val::List(l) => l,
        Val::Error(_) => seq![v],
        Val::Object(_, fields) => fields.map_values(|f: (Seq<char>, Val)| f.1),
        Val::Json(j) => json_keys_of(j).map_values(|k: Seq<char>| Val::Text(k)),
        Val::Binary(b) => b.map_values(|x: u8| byte_val(x)),
        _ => seq![],
    }
}

/// The name of a value's type (`type`); an object answers its own name.
pub open spec fn kind_name(v: Val) -> Seq<char> {
    match v {
        Val::Number(_, _) => "number"@,
        Val::Text(_) => "string"@,
        Val::Bool(_) => "bool"@,
        Val::List(_) => "list"@,
        Val::Error(_) => "error"@,
        Val::Matrix(_, _, _) => "matrix"@,
        Val::Binary(_) => "binary"@,
        Val::Json(_) => "json"@,
        Val::Object(name, _) => name,
        Val::Image(_) => "image"@,
    }
}


// ---------------------------------------------------------------------------
// Matrix text

pub open spec fn rows_view(r: Seq<Vec<String>>) -> Seq<Seq<Seq<char>>> {
    r.map_values(|v: Vec<String>| views(v@))
}

pub proof fn lemma_rows_text_nonempty(rows: Seq<Seq<Seq<char>>>)
    ensures
        rows_text(rows).len() >= 1,
    decreases rows.len(),
{
    reveal_strlit("{");
    reveal_strlit(";");
    if rows.len() > 0 {
        lemma_rows_text_nonempty(rows.drop_last());
    }
}

fn push_all(out: &mut Vec<char>, s: &str)
    ensures
        final(out)@ == old(out)@ + s@,
{
    let cs = chars_of(s);
    let mut i: usize = 0;
    while i < cs.len()
        invariant
            i <= cs@.len(),
            out@ == old(out)@ + cs@.take(i as int),
            cs@ == s@,
        decreases cs@.len() - i,
    {
        out.push(cs[i]);
        assert(cs@.take(i + 1) =~= cs@.take(i as int).push(cs@[i as int]));
        i = i + 1;
    }
    assert(cs@.take(cs@.len() as int) =~= cs@);
}

/// The text of a matrix with the given entries and row length.
pub fn matrix_text_of(m: &Vec<Numeral>, cols: usize) -> (r: String)
    ensures
        r@ == matrix_text(num_texts(m@.map_values(|n: Numeral| num_val(n))), cols as nat),
{
    let ghost xs = num_texts(m@.map_values(|n: Numeral| num_val(n)));
    let mut rows: Vec<Vec<String>> = Vec::new();
    let mut buf: Vec<String> = Vec::new();
    let mut count: usize = 0;
    let mut i: usize = 0;
    while i < m.len()
        invariant
            i <= m@.len(),
            xs == num_texts(m@.map_values(|n: Numeral| num_val(n))),
            xs.len() == m@.len(),
            (rows_view(rows@), views(buf@), count as nat) == row_state(xs.take(i as int), cols as nat),
        decreases m@.len() - i,
    {
        proof {
            assert(xs.take(i + 1).drop_last() =~= xs.take(i as int));
            assert(xs.take(i + 1).last() == m@[i as int].text@);
        }
        let t = copy_string(&m[i].text);
        if count < cols {
            let ghost before = buf@;
            buf.push(t);
            proof {
                lemma_views_push(before, t);
            }
            count = count + 1;
        } else {
            let ghost before = rows@;
            rows.push(buf);
            proof {
                assert(rows_view(rows@) =~= rows_view(before).push(views(buf@)));
            }
            buf = Vec::new();
            let ghost b0 = buf@;
            buf.push(t);
            proof {
                lemma_views_push(b0, t);
                assert(views(buf@) =~= seq![t@]);
            }
            count = 1;
        }
        i = i + 1;
    }
    proof {
        assert(xs.take(m@.len() as int) =~= xs);
    }
    let ghost before = rows@;
    rows.push(buf);
    proof {
        assert(rows_view(rows@) =~= rows_view(before).push(views(buf@)));
        assert(rows_view(rows@) == matrix_rows(xs, cols as nat));
    }
    let ghost all_rows = rows_view(rows@);
    let mut out: Vec<char> = Vec::new();
    out.push('{');
    proof {
        reveal_strlit("{");
        assert(out@ =~= "{"@);
    }
    let mut k: usize = 0;
    while k < rows.len()
        invariant
            k <= rows@.len(),
            all_rows == rows_view(rows@),
            out@ == rows_text(all_rows.take(k as int)),
        decreases rows@.len() - k,
    {
        let row = &rows[k];
        let ghost prefix = out@;
        let ghost cells = views(row@);
        let mut j: usize = 0;
        while j < row.len()
            invariant
                j <= row@.len(),
                cells == views(row@),
                out@ == prefix + cells_text(cells.take(j as int)),
            decreases row@.len() - j,
        {
            out.push(' ');
            push_all(&mut out, row[j].as_str());
            out.push(',');
            proof {
                reveal_strlit(" ");
                reveal_strlit(",");
                assert(cells.take(j + 1).drop_last() =~= cells.take(j as int));
                assert(cells.take(j + 1).last() == row@[j as int]@);
                assert(out@ =~= prefix + cells_text(cells.take(j + 1)));
            }
            j = j + 1;
        }
        proof {
            assert(cells.take(row@.len() as int) =~= cells);
            assert(all_rows.take(k + 1).drop_last() =~= all_rows.take(k as int));
            assert(all_rows.take(k + 1).last() == cells);
            lemma_rows_text_nonempty(all_rows.take(k as int));
        }
        out.pop();
        out.push(';');
        proof {
            reveal_strlit(";");
            assert(out@ =~= rows_text(all_rows.take(k + 1)));
        }
        k = k + 1;
    }
    proof {
        assert(all_rows.take(rows@.len() as int) =~= all_rows);
        lemma_rows_text_nonempty(all_rows);
    }
    out.pop();
    out.push('}');
    proof {
        reveal_strlit("}");
        assert(out@ =~= matrix_text(xs, cols as nat));
    }
    string_of(out.as_slice())
}


// ---------------------------------------------------------------------------
// Executable conversions

pub fn copy_numeral(n: &Numeral) -> (r: Numeral)
    ensures
        num_val(r) == num_val(*n),
{
    Numeral { bits: n.bits, text: copy_string(&n.text) }
}

fn copy_numerals(m: &Vec<Numeral>) -> (r: Vec<Numeral>)
    ensures
        r@.map_values(|n: Numeral| num_val(n)) == m@.map_values(|n: Numeral| num_val(n)),
{
    let mut r: Vec<Numeral> = Vec::new();
    let mut i: usize = 0;
    while i < m.len()
        invariant
            i <= m@.len(),
            r@.len() == i,
            forall|j: int| 0 <= j < i ==> num_val(#[trigger] r@[j]) == num_val(m@[j]),
        decreases m@.len() - i,
    {
        r.push(copy_numeral(&m[i]));
        i = i + 1;
    }
    assert(r@.map_values(|n: Numeral| num_val(n)) =~= m@.map_values(|n: Numeral| num_val(n)));
    r
}

fn bool_string(b: bool) -> (r: String)
    ensures
        r@ == bool_text(b),
{
    if b {
        lit("true")
    } else {
        lit("false")
    }
}

fn wrapped(open: &str, middle: &str, close: &str) -> (r: String)
    ensures
        r@ == open@ + middle@ + close@,
{
    let mut r = lit(open);
    r.append(middle);
    r.append(close);
    r
}

impl Type {
    /// A copy of the value.
    #[verifier::loop_isolation(false)]
    pub fn duplicate(&self) -> (r: Type)
        ensures
            r@ == self@,
        decreases self,
    {
        match self {
            Type::Number(n) => Type::Number(copy_numeral(n)),
            Type::String(s) => Type::String(copy_string(s)),
            Type::Bool(b) => Type::Bool(*b),
            Type::List(v) => {
                let mut out: Vec<Type> = Vec::new();
                let mut i: usize = 0;
                while i < v.len()
                    invariant
                        i <= v@.len(),
                        out@.len() == i,
                        forall|j: int| 0 <= j < i ==> val_of(#[trigger] out@[j]) == val_of(v@[j]),
                    decreases v@.len() - i,
                {
                    let x = v[i].duplicate();
                    out.push(x);
                    i = i + 1;
                }
                proof {
                    lemma_vals_ext(out@, v@);
                }
                Type::List(out)
            },
            Type::Matrix(m, size) => Type::Matrix(copy_numerals(m), (size.0, size.1)),
            Type::Object(name, fields) => {
                let mut out: Vec<(String, Type)> = Vec::new();
                let mut i: usize = 0;
                while i < fields.len()
                    invariant
                        i <= fields@.len(),
                        out@.len() == i,
                        forall|j: int| 0 <= j < i ==> (#[trigger] out@[j]).0@ == fields@[j].0@ && val_of(out@[j].1) == val_of(fields@[j].1),
                    decreases fields@.len() - i,
                {
                    let k = copy_string(&fields[i].0);
                    let x = fields[i].1.duplicate();
                    out.push((k, x));
                    i = i + 1;
                }
                proof {
                    lemma_fields_ext(out@, fields@);
                }
                Type::Object(copy_string(name), out)
            },
            Type::Json(j) => Type::Json(copy_string(j)),
            Type::Binary(b) => Type::Binary(b.clone()),
            Type::Image(h) => Type::Image(*h),
            Type::Error(e) => Type::Error(copy_string(e)),
        }
    }

    /// How the value is shown.
    #[verifier::loop_isolation(false)]
    pub fn display(&self) -> (r: String)
        ensures
            r@ == display(self@),
        decreases self,
    {
        match self {
            Type::Number(n) => copy_string(&n.text),
            Type::String(s) => wrapped("(", s.as_str(), ")"),
            Type::Bool(b) => bool_string(*b),
            Type::List(v) => {
                let mut pieces: Vec<String> = Vec::new();
                let ghost items = vals_of(v@);
                proof {
                    lemma_vals_of(v@);
                }
                let mut i: usize = 0;
                while i < v.len()
                    invariant
                        i <= v@.len(),
                        items == vals_of(v@),
                        items.len() == v@.len(),
                        forall|j: int| 0 <= j < v@.len() ==> #[trigger] items[j] == val_of(v@[j]),
                        views(pieces@) == displays(items.take(i as int)),
                    decreases v@.len() - i,
                {
                    let d = v[i].display();
                    let ghost before = pieces@;
                    pieces.push(d);
                    proof {
                        lemma_views_push(before, d);
                        assert(items.take(i + 1).drop_last() =~= items.take(i as int));
                        assert(items.take(i + 1).last() == items[i as int]);
                    }
                    i = i + 1;
                }
                proof {
                    assert(items.take(v@.len() as int) =~= items);
                }
                let joined = join_strings(&pieces, " ");
                wrapped("[", joined.as_str(), "]")
            },
            Type::Error(e) => {
                let mut r = lit("error:");
                r.append(e.as_str());
                r
            },
            Type::Json(j) => crate::json::json_pretty_text(j.as_str()),
            Type::Object(name, _) => wrapped("Object<", name.as_str(), ">"),
            Type::Binary(b) => {
                let n = decimal_text(b.len() as u64);
                wrapped("Binary<", n.as_str(), ">")
            },
            Type::Matrix(m, size) => matrix_text_of(m, size.1),
            Type::Image(_) => lit("{Image}"),
        }
    }

    /// The string form of the value.
    pub fn get_string(&self) -> (r: String)
        ensures
            r@ == text_of(self@),
    {
        match self {
            Type::String(s) => copy_string(s),
            Type::Number(n) => copy_string(&n.text),
            Type::Bool(b) => bool_string(*b),
            Type::List(_) => self.display(),
            Type::Error(e) => {
                let mut r = lit("error:");
                r.append(e.as_str());
                r
            },
            Type::Object(name, _) => wrapped("Object<", name.as_str(), ">"),
            Type::Json(j) => match json_str(j.as_str()) {
                Some(s) => s,
                None => String::new(),
            },
            Type::Matrix(m, size) => matrix_text_of(m, size.1),
            Type::Binary(b) => {
                let n = decimal_text(b.len() as u64);
                wrapped("Binary<", n.as_str(), ">")
            },
            Type::Image(_) => lit("{Image}"),
        }
    }

    /// The truth of the value.
    pub fn get_bool(&self) -> (r: bool)
        ensures
            r == truth(self@),
    {
        match self {
            Type::String(s) => s.as_str().unicode_len() > 0,
            Type::Number(n) => !is_zero(n),
            Type::Bool(b) => *b,
            Type::List(l) => l.len() > 0,
            Type::Json(j) => match json_bool(j.as_str()) {
                Some(b) => b,
                None => false,
            },
            Type::Error(e) => crate::text::same_text(e.as_str(), "true"),
            Type::Object(_, fields) => fields.len() == 0,
            Type::Binary(b) => b.len() > 0,
            _ => false,
        }
    }

    /// The elements of the value taken as a list.
    pub fn get_list(&self) -> (r: Vec<Type>)
        ensures
            vals_of(r@) == items_of(self@),
    {
        match self {
            Type::String(s) => {
                let cs = chars_of(s.as_str());
                let mut out: Vec<Type> = Vec::new();
                let mut i: usize = 0;
                while i < cs.len()
                    invariant
                        i <= cs@.len(),
                        cs@ == s@,
                        out@.len() == i,
                        forall|j: int| 0 <= j < i ==> val_of(#[trigger] out@[j]) == Val::Text(seq![cs@[j]]),
                    decreases cs@.len() - i,
                {
                    let mut t = String::new();
                    push_char(&mut t, cs[i]);
                    out.push(Type::String(t));
                    proof {
                        assert(t@ =~= seq![cs@[i as int]]);
                    }
                    i = i + 1;
                }
                proof {
                    lemma_vals_of(out@);
                    assert(vals_of(out@) =~= s@.map_values(|c: char| Val::Text(seq![c])));
                }
                out
            },
            Type::Number(_) | Type::Bool(_) | Type::Error(_) => {
                let mut out: Vec<Type> = Vec::new();
                let x = self.duplicate();
                out.push(x);
                proof {
                    lemma_vals_of(out@);
                    assert(vals_of(out@) =~= seq![self@]);
                }
                out
            },
            Type::List(l) => {
                let x = self.duplicate();
                match x {
                    Type::List(v) => v,
                    _ => {
                        proof {
                            assert(false);
                        }
                        Vec::new()
                    },
                }
            },
            Type::Object(_, fields) => {
                let mut out: Vec<Type> = Vec::new();
                let mut i: usize = 0;
                proof {
                    lemma_fields_of(fields@);
                }
                while i < fields.len()
                    invariant
                        i <= fields@.len(),
                        out@.len() == i,
                        forall|j: int| 0 <= j < i ==> val_of(#[trigger] out@[j]) == val_of(fields@[j].1),
                    decreases fields@.len() - i,
                {
                    out.push(fields[i].1.duplicate());
                    i = i + 1;
                }
                proof {
                    lemma_vals_of(out@);
                    lemma_fields_of(fields@);
                    assert(vals_of(out@) =~= fields_of(fields@).map_values(|f: (Seq<char>, Val)| f.1));
                }
                out
            },
            Type::Json(j) => {
                let keys = json_keys(j.as_str());
                let mut out: Vec<Type> = Vec::new();
                let mut i: usize = 0;
                while i < keys.len()
                    invariant
                        i <= keys@.len(),
                        out@.len() == i,
                        forall|k: int| 0 <= k < i ==> val_of(#[trigger] out@[k]) == Val::Text(keys@[k]@),
                    decreases keys@.len() - i,
                {
                    out.push(Type::String(copy_string(&keys[i])));
                    i = i + 1;
                }
                proof {
                    lemma_vals_of(out@);
                    assert(vals_of(out@) =~= json_keys_of(j@).map_values(|k: Seq<char>| Val::Text(k)));
                }
                out
            },
            Type::Binary(b) => {
                let mut out: Vec<Type> = Vec::new();
                let mut i: usize = 0;
                while i < b.len()
                    invariant
                        i <= b@.len(),
                        out@.len() == i,
                        forall|k: int| 0 <= k < i ==> val_of(#[trigger] out@[k]) == byte_val(b@[k]),
                    decreases b@.len() - i,
                {
                    let n = match numeral_of_count(b[i] as u64) {
                        Some(n) => n,
                        None => {
                            proof {
                                assert(false);
                            }
                            Numeral { bits: 0, text: String::new() }
                        },
                    };
                    out.push(Type::Number(n));
                    i = i + 1;
                }
                proof {
                    lemma_vals_of(out@);
                    assert(vals_of(out@) =~= b@.map_values(|x: u8| byte_val(x)));
                }
                out
            },
            _ => Vec::new(),
        }
    }

    /// The name of the value's type.
    pub fn kind_name(&self) -> (r: String)
        ensures
            r@ == kind_name(self@),
    {
        match self {
            Type::Number(_) => lit("number"),
            Type::String(_) => lit("string"),
            Type::Bool(_) => lit("bool"),
            Type::List(_) => lit("list"),
            Type::Error(_) => lit("error"),
            Type::Matrix(_, _) => lit("matrix"),
            Type::Binary(_) => lit("binary"),
            Type::Json(_) => lit("json"),
            Type::Object(name, _) => copy_string(name),
            Type::Image(_) => lit("image"),
        }
    }
}


/// Copies of the values, in order.
pub fn copy_values(v: &Vec<Type>) -> (r: Vec<Type>)
    ensures
        vals_of(r@) == vals_of(v@),
{
    let mut out: Vec<Type> = Vec::new();
    let mut i: usize = 0;
    while i < v.len()
        invariant
            i <= v@.len(),
            out@.len() == i,
            forall|j: int| 0 <= j < i ==> val_of(#[trigger] out@[j]) == val_of(v@[j]),
        decreases v@.len() - i,
    {
        out.push(v[i].duplicate());
        i = i + 1;
    }
    proof {
        lemma_vals_ext(out@, v@);
    }
    out
}

/// The values in reverse order.
pub fn reversed(v: Vec<Type>) -> (r: Vec<Type>)
    ensures
        vals_of(r@) == vals_of(v@).reverse(),
{
    let mut v = v;
    let ghost orig = v@;
    let mut out: Vec<Type> = Vec::new();
    proof {
        lemma_vals_of(orig);
    }
    while v.len() > 0
        invariant
            v@.len() <= orig.len(),
            v@ == orig.take(v@.len() as int),
            out@.len() == orig.len() - v@.len(),
            forall|j: int| 0 <= j < out@.len() ==> val_of(#[trigger] out@[j]) == val_of(orig[orig.len() - 1 - j]),
        decreases v@.len(),
    {
        let ghost before = v@;
        let x = v.pop().unwrap();
        proof {
            assert(v@ =~= orig.take(v@.len() as int));
            assert(x == orig[before.len() - 1]);
        }
        out.push(x);
    }
    proof {
        lemma_vals_of(out@);
        lemma_vals_of(orig);
        assert(vals_of(out@) =~= vals_of(orig).reverse());
    }
    out
}

} // verus!
