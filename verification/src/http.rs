//! Serving programs over HTTP: reading a request, choosing its route,
//! checking Basic credentials and writing the reply.
use vstd::prelude::*;
use vstd::utf8::{valid_utf8, decode_utf8, encode_utf8};
use crate::value::{Type, Val, text_of, items_of, lemma_vals_of};
use crate::machine::stack_of;
use crate::numeral::Numeral;
use crate::interp::{parser_total, host_total};
use crate::text::{views, lemma_views_push, split_spec, split_str, trim, trim_spec, lit, same_text};

verus! {

broadcast use vstd::std_specs::vec::group_vec_axioms;

// ---------------------------------------------------------------------------
// Decoders of the outside world

/// What `String::from_utf8_lossy` makes of some bytes.
pub uninterp spec fn lossy_text_of(bytes: Seq<u8>) -> Seq<char>;

/// `String::from_utf8_lossy`: the bytes read as UTF-8 with every invalid
/// sequence replaced by U+FFFD; bytes that are valid UTF-8 are read exactly.
#[verifier::external_body]
fn utf8_lossy(bytes: &[u8]) -> (r: String)
    ensures
        r@ == lossy_text_of(bytes@),
        valid_utf8(bytes@) ==> r@ == decode_utf8(bytes@),
{
    String::from_utf8_lossy(bytes).into_owned()
}

/// The value of an ASCII hexadecimal digit.
pub open spec fn hex_digit(b: u8) -> Option<u8> {
    if 48 <= b <= 57 {
        Some((b - 48) as u8)
    } else if 97 <= b <= 102 {
        Some((b - 87) as u8)
    } else if 65 <= b <= 70 {
        Some((b - 55) as u8)
    } else {
        None
    }
}

/// Percent-decoding: each `%` followed by two hexadecimal digits becomes
/// the byte they spell; every other byte stays.
pub open spec fn percent_bytes(s: Seq<u8>) -> Seq<u8>
    decreases s.len(),
{
    if s.len() == 0 {
        seq![]
    } else if s[0] == 37 && s.len() >= 3 && hex_digit(s[1]) is Some && hex_digit(s[2]) is Some {
        seq![(hex_digit(s[1])->0 * 16 + hex_digit(s[2])->0) as u8] + percent_bytes(s.skip(3))
    } else {
        seq![s[0]] + percent_bytes(s.skip(1))
    }
}

/// The text a percent-encoded text stands for, when its bytes are UTF-8.
pub open spec fn percent_text(t: Seq<char>) -> Option<Seq<char>> {
    let b = percent_bytes(encode_utf8(t));
    if valid_utf8(b) {
        Some(decode_utf8(b))
    } else {
        None
    }
}

/// `percent_encoding::percent_decode_str(text).decode_utf8()`: the bytes of
/// the text percent-decoded and read as UTF-8; `None` where they are not
/// UTF-8.
#[verifier::external_body]
fn percent_decode(text: &str) -> (r: Option<String>)
    ensures
        match r {
            Some(s) => percent_text(text@) == Some(s@),
            None => percent_text(text@) is None,
        },
{
    match percent_encoding::percent_decode_str(text).decode_utf8() {
        Ok(s) => Some(s.into_owned()),
        Err(_) => None,
    }
}

/// What `base64::decode` makes of a text: the bytes, or `None` where the
/// text is not padded standard Base64.
pub uninterp spec fn base64_of(text: Seq<char>) -> Option<Seq<u8>>;

/// `base64::decode` with the standard alphabet and padding.
#[verifier::external_body]
#[allow(deprecated)]
fn base64_decode(text: &str) -> (r: Option<Vec<u8>>)
    ensures
        match r {
            Some(b) => base64_of(text@) == Some(b@),
            None => base64_of(text@) is None,
        },
{
    base64::decode(text).ok()
}

// ---------------------------------------------------------------------------
// The request line

/// The first two pieces of a trimmed line split at `key`; a missing piece
/// is empty.
pub open spec fn line_parts(line: Seq<char>, key: Seq<char>) -> (Seq<char>, Seq<char>) {
    let p = split_spec(trim_spec(line), key);
    (
        if p.len() > 0 { p[0] } else { seq![] },
        if p.len() > 1 { p[1] } else { seq![] },
    )
}

/// Splits a request line into its method and path (with `" "`), or a path
/// into the path and its query (with `"?"`).
pub fn parse_request_line(request_line: &str, key: &str) -> (r: (String, String))
    ensures
        (r.0@, r.1@) == line_parts(request_line@, key@),
{
    let t = trim(request_line);
    let parts = split_str(t.as_str(), key);
    proof {
        assert(views(parts@).len() == parts@.len());
    }
    let first = if parts.len() > 0 {
        proof {
            assert(views(parts@)[0] == parts@[0]@);
        }
        crate::text::copy_string(&parts[0])
    } else {
        String::new()
    };
    let second = if parts.len() > 1 {
        proof {
            assert(views(parts@)[1] == parts@[1]@);
        }
        crate::text::copy_string(&parts[1])
    } else {
        String::new()
    };
    (first, second)
}

// ---------------------------------------------------------------------------
// Routes

/// A handler: the `"METHOD /path"` it answers, the code that answers it,
/// and whether it asks for credentials, with the code that lists the users.
pub struct Route {
    pub key: String,
    pub code: String,
    pub auth: bool,
    pub auth_data: String,
}

pub open spec fn route_view(r: Route) -> (Seq<char>, Seq<char>, bool, Seq<char>) {
    (r.key@, r.code@, r.auth, r.auth_data@)
}

pub open spec fn routes_view(rs: Seq<Route>) -> Seq<(Seq<char>, Seq<char>, bool, Seq<char>)> {
    rs.map_values(|r: Route| route_view(r))
}

/// The route one handler description makes: `[[key] code]`, or
/// `[[key "auth" users] code]` for one that asks for credentials; `None`
/// where a part is missing.
pub open spec fn route_entry(v: Val) -> Option<(Seq<char>, Seq<char>, bool, Seq<char>)> {
    let pair = items_of(v);
    if pair.len() == 0 {
        None
    } else {
        let m = items_of(pair[0]);
        if m.len() == 0 || pair.len() < 2 {
            None
        } else {
            Some((
                text_of(m[0]),
                text_of(pair[1]),
                m.len() > 2 && text_of(m[1]) == "auth"@,
                if m.len() > 2 { text_of(m[2]) } else { seq![] },
            ))
        }
    }
}

/// The routes of a list of handler descriptions, in order; `None` if one
/// of them is malformed.
pub open spec fn route_table(items: Seq<Val>) -> Option<Seq<(Seq<char>, Seq<char>, bool, Seq<char>)>>
    decreases items.len(),
{
    if items.len() == 0 {
        Some(seq![])
    } else {
        match (route_table(items.drop_last()), route_entry(items.last())) {
            (Some(t), Some(e)) => Some(t.push(e)),
            _ => None,
        }
    }
}

/// The route for a key: the last one made for it.
pub open spec fn route_for(rs: Seq<(Seq<char>, Seq<char>, bool, Seq<char>)>, key: Seq<char>) -> Option<int>
    decreases rs.len(),
{
    if rs.len() == 0 {
        None
    } else if rs.last().0 == key {
        Some(rs.len() - 1)
    } else {
        route_for(rs.drop_last(), key)
    }
}

proof fn lemma_route_for(rs: Seq<(Seq<char>, Seq<char>, bool, Seq<char>)>, key: Seq<char>)
    ensures
        route_for(rs, key) matches Some(i) ==> 0 <= i < rs.len() && rs[i].0 == key
            && forall|j: int| i < j < rs.len() ==> #[trigger] rs[j].0 != key,
        route_for(rs, key) is None ==> forall|j: int| 0 <= j < rs.len() ==> #[trigger] rs[j].0 != key,
    decreases rs.len(),
{
    if rs.len() > 0 {
        lemma_route_for(rs.drop_last(), key);
        assert forall|j: int| 0 <= j < rs.len() - 1 implies #[trigger] rs[j] == rs.drop_last()[j] by {}
    }
}

/// The route of one handler description.
fn make_route(v: &Type) -> (r: Option<Route>)
    ensures
        match r {
            Some(x) => route_entry(v@) == Some(route_view(x)),
            None => route_entry(v@) is None,
        },
{
    let pair = v.get_list();
    proof {
        lemma_vals_of(pair@);
    }
    if pair.len() == 0 {
        return None;
    }
    let m = pair[0].get_list();
    proof {
        lemma_vals_of(m@);
    }
    if m.len() == 0 || pair.len() < 2 {
        return None;
    }
    let key = m[0].get_string();
    let code = pair[1].get_string();
    let (auth, auth_data) = if m.len() > 2 {
        let tag = m[1].get_string();
        (same_text(tag.as_str(), "auth"), m[2].get_string())
    } else {
        (false, String::new())
    };
    Some(Route { key, code, auth, auth_data })
}

/// The routes of a server's handler list (`[[[key] code] ...]`), in order;
/// `None` where a description lacks its key or its code.
pub fn routes_of(code: &Type) -> (r: Option<Vec<Route>>)
    ensures
        match r {
            Some(rs) => route_table(items_of(code@)) == Some(routes_view(rs@)),
            None => route_table(items_of(code@)) is None,
        },
{
    let items = code.get_list();
    proof {
        lemma_vals_of(items@);
    }
    let ghost iv = items_of(code@);
    let mut rs: Vec<Route> = Vec::new();
    let mut i: usize = 0;
    while i < items.len()
        invariant
            i <= items@.len(),
            iv == items_of(code@),
            iv == crate::value::vals_of(items@),
            iv.len() == items@.len(),
            forall|j: int| 0 <= j < items@.len() ==> #[trigger] iv[j] == items@[j]@,
            route_table(iv.take(i as int)) == Some(routes_view(rs@)),
        decreases items@.len() - i,
    {
        let e = make_route(&items[i]);
        proof {
            assert(iv.take(i + 1).drop_last() =~= iv.take(i as int));
        }
        match e {
            Some(x) => {
                let ghost before = rs@;
                rs.push(x);
                proof {
                    assert(iv.take(i + 1).last() == items@[i as int]@);
                    assert(routes_view(rs@) =~= routes_view(before).push(route_view(x)));
                }
            },
            None => {
                proof {
                    assert(iv.take(i + 1).last() == items@[i as int]@);
                    assert(route_table(iv.take(i + 1)) is None);
                    lemma_table_none(iv, i as int);
                }
                return None;
            },
        }
        i = i + 1;
    }
    proof {
        assert(iv.take(items@.len() as int) =~= iv);
    }
    Some(rs)
}

/// A malformed description spoils every longer table.
proof fn lemma_table_none(iv: Seq<Val>, i: int)
    requires
        0 <= i < iv.len(),
        route_table(iv.take(i + 1)) is None,
    ensures
        route_table(iv) is None,
    decreases iv.len() - i,
{
    if i + 1 < iv.len() {
        assert(iv.take(i + 2).drop_last() =~= iv.take(i + 1));
        lemma_table_none(iv, i + 1);
    } else {
        assert(iv.take(i + 1) =~= iv);
    }
}

/// The index of the route for a key (the last one made for it).
pub fn find_route(routes: &Vec<Route>, key: &str) -> (r: Option<usize>)
    ensures
        match r {
            Some(i) => route_for(routes_view(routes@), key@) == Some(i as int),
            None => route_for(routes_view(routes@), key@) is None,
        },
{
    let ghost rv = routes_view(routes@);
    let mut n: usize = routes.len();
    proof {
        assert(rv.take(n as int) =~= rv);
    }
    while n > 0
        invariant
            n <= routes@.len(),
            rv == routes_view(routes@),
            rv.len() == routes@.len(),
            route_for(rv, key@) == route_for(rv.take(n as int), key@),
        decreases n,
    {
        proof {
            assert(rv.take(n as int).drop_last() =~= rv.take(n - 1));
            assert(rv[n - 1].0 == routes@[n - 1].key@);
        }
        if same_text(routes[n - 1].key.as_str(), key) {
            return Some(n - 1);
        }
        n = n - 1;
    }
    None
}

// ---------------------------------------------------------------------------
// Users and credentials

pub open spec fn pairs_view(db: Seq<(String, String)>) -> Seq<(Seq<char>, Seq<char>)> {
    db.map_values(|e: (String, String)| (e.0@, e.1@))
}

/// The users a route lists, `[[user password] ...]`, in order; `None` where
/// a row has fewer than two items.
pub open spec fn user_rows(items: Seq<Val>) -> Option<Seq<(Seq<char>, Seq<char>)>>
    decreases items.len(),
{
    if items.len() == 0 {
        Some(seq![])
    } else {
        let row = items_of(items.last());
        match user_rows(items.drop_last()) {
            Some(t) => if row.len() >= 2 {
                Some(t.push((text_of(row[0]), text_of(row[1]))))
            } else {
                None
            },
            None => None,
        }
    }
}

proof fn lemma_rows_none(iv: Seq<Val>, i: int)
    requires
        0 <= i < iv.len(),
        user_rows(iv.take(i + 1)) is None,
    ensures
        user_rows(iv) is None,
    decreases iv.len() - i,
{
    if i + 1 < iv.len() {
        assert(iv.take(i + 2).drop_last() =~= iv.take(i + 1));
        lemma_rows_none(iv, i + 1);
    } else {
        assert(iv.take(i + 1) =~= iv);
    }
}

/// The user table a value lists.
pub fn user_table(v: &Type) -> (r: Option<Vec<(String, String)>>)
    ensures
        match r {
            Some(db) => user_rows(items_of(v@)) == Some(pairs_view(db@)),
            None => user_rows(items_of(v@)) is None,
        },
{
    let items = v.get_list();
    proof {
        lemma_vals_of(items@);
    }
    let ghost iv = items_of(v@);
    let mut db: Vec<(String, String)> = Vec::new();
    let mut i: usize = 0;
    while i < items.len()
        invariant
            i <= items@.len(),
            iv == items_of(v@),
            iv == crate::value::vals_of(items@),
            iv.len() == items@.len(),
            forall|j: int| 0 <= j < items@.len() ==> #[trigger] iv[j] == items@[j]@,
            user_rows(iv.take(i as int)) == Some(pairs_view(db@)),
        decreases items@.len() - i,
    {
        let row = items[i].get_list();
        proof {
            lemma_vals_of(row@);
            assert(iv.take(i + 1).drop_last() =~= iv.take(i as int));
            assert(iv.take(i + 1).last() == items@[i as int]@);
        }
        if row.len() < 2 {
            proof {
                lemma_rows_none(iv, i as int);
            }
            return None;
        }
        let user = row[0].get_string();
        let pass = row[1].get_string();
        let ghost before = db@;
        db.push((user, pass));
        proof {
            assert(pairs_view(db@) =~= pairs_view(before).push((user@, pass@)));
        }
        i = i + 1;
    }
    proof {
        assert(iv.take(items@.len() as int) =~= iv);
    }
    Some(db)
}

/// The password of a user: the last one listed for the name.
pub open spec fn password_of(db: Seq<(Seq<char>, Seq<char>)>, user: Seq<char>) -> Option<Seq<char>>
    decreases db.len(),
{
    if db.len() == 0 {
        None
    } else if db.last().0 == user {
        Some(db.last().1)
    } else {
        password_of(db.drop_last(), user)
    }
}

/// Looks up the password of a user.
pub fn find_password(db: &Vec<(String, String)>, user: &str) -> (r: Option<String>)
    ensures
        match r {
            Some(p) => password_of(pairs_view(db@), user@) == Some(p@),
            None => password_of(pairs_view(db@), user@) is None,
        },
{
    let ghost dv = pairs_view(db@);
    let mut n: usize = db.len();
    proof {
        assert(dv.take(n as int) =~= dv);
    }
    while n > 0
        invariant
            n <= db@.len(),
            dv == pairs_view(db@),
            dv.len() == db@.len(),
            password_of(dv, user@) == password_of(dv.take(n as int), user@),
        decreases n,
    {
        proof {
            assert(dv.take(n as int).drop_last() =~= dv.take(n - 1));
            assert(dv[n - 1] == (db@[n - 1].0@, db@[n - 1].1@));
        }
        if same_text(db[n - 1].0.as_str(), user) {
            return Some(crate::text::copy_string(&db[n - 1].1));
        }
        n = n - 1;
    }
    None
}

/// The first index of `c` in `s`.
pub open spec fn first_index(s: Seq<char>, c: char) -> Option<int>
    decreases s.len(),
{
    if s.len() == 0 {
        None
    } else if s[0] == c {
        Some(0)
    } else {
        match first_index(s.drop_first(), c) {
            Some(i) => Some(i + 1),
            None => None,
        }
    }
}

proof fn lemma_first_index(s: Seq<char>, c: char)
    ensures
        first_index(s, c) matches Some(i) ==> 0 <= i < s.len() && s[i] == c
            && forall|j: int| 0 <= j < i ==> #[trigger] s[j] != c,
        first_index(s, c) is None ==> forall|j: int| 0 <= j < s.len() ==> #[trigger] s[j] != c,
    decreases s.len(),
{
    if s.len() > 0 {
        lemma_first_index(s.drop_first(), c);
        assert forall|j: int| 1 <= j < s.len() implies #[trigger] s[j] == s.drop_first()[j - 1] by {}
    }
}

pub open spec fn basic_prefix() -> Seq<char> {
    "Authorization: Basic "@
}

/// The user and password a header line carries: an `Authorization: Basic`
/// line whose Base64 payload (empty if it does not decode) reads, as UTF-8,
/// as a name, a colon and a password.
pub open spec fn credentials(line: Seq<char>) -> Option<(Seq<char>, Seq<char>)> {
    if basic_prefix().len() <= line.len() && line.take(basic_prefix().len() as int) == basic_prefix() {
        let enc = crate::text::trim_start_str(line, basic_prefix());
        let bytes = match base64_of(enc) {
            Some(b) => b,
            None => seq![],
        };
        let text = lossy_text_of(bytes);
        match first_index(text, ':') {
            Some(i) => Some((text.take(i), text.skip(i + 1))),
            None => None,
        }
    } else {
        None
    }
}

/// The verdict on a request's lines: the first line carrying credentials of
/// a listed user decides, by whether its password is that user's; with no
/// such line the request is refused.
pub open spec fn auth_result(ls: Seq<Seq<char>>, db: Seq<(Seq<char>, Seq<char>)>) -> (bool, Seq<char>, Seq<char>)
    decreases ls.len(),
{
    if ls.len() == 0 {
        (false, seq![], seq![])
    } else {
        match credentials(ls[0]) {
            Some((u, p)) => match password_of(db, u) {
                Some(e) => (p == e, u, p),
                None => auth_result(ls.drop_first(), db),
            },
            None => auth_result(ls.drop_first(), db),
        }
    }
}

/// The credentials of one line.
fn line_credentials(line: &str) -> (r: Option<(String, String)>)
    ensures
        match r {
            Some(x) => credentials(line@) == Some((x.0@, x.1@)),
            None => credentials(line@) is None,
        },
{
    proof {
        reveal_strlit("Authorization: Basic ");
    }
    if !crate::text::starts_with(line, "Authorization: Basic ") {
        return None;
    }
    let enc = crate::text::trim_start_matching(line, "Authorization: Basic ");
    let bytes = match base64_decode(enc.as_str()) {
        Some(b) => b,
        None => Vec::new(),
    };
    proof {
        assert(bytes@ == (match base64_of(enc@) {
            Some(b) => b,
            None => Seq::<u8>::empty(),
        }));
    }
    let text = utf8_lossy(bytes.as_slice());
    let cs = crate::text::chars_of(text.as_str());
    proof {
        lemma_first_index(cs@, ':');
    }
    let mut i: usize = 0;
    while i < cs.len() && cs[i] != ':'
        invariant
            i <= cs@.len(),
            forall|j: int| 0 <= j < i ==> #[trigger] cs@[j] != ':',
        decreases cs@.len() - i,
    {
        i = i + 1;
    }
    if i == cs.len() {
        proof {
            if first_index(cs@, ':') is Some {
                let k = first_index(cs@, ':')->0;
                assert(cs@[k] == ':');
            }
        }
        return None;
    }
    proof {
        let k = first_index(cs@, ':')->0;
        assert(first_index(cs@, ':') is Some) by {
            if first_index(cs@, ':') is None {
                assert(cs@[i as int] != ':');
            }
        }
        if k < i {
            assert(cs@[k] != ':');
        }
        if k > i {
            assert(cs@[i as int] != ':');
        }
        assert(cs@.subrange(0, i as int) =~= cs@.take(i as int));
        assert(cs@.subrange(i + 1, cs@.len() as int) =~= cs@.skip(i + 1));
    }
    let user = crate::text::string_of_range(&cs, 0, i);
    let pass = crate::text::string_of_range(&cs, i + 1, cs.len());
    Some((user, pass))
}

/// Checks a request's Basic credentials against the user table; answers
/// whether they hold, with the user and password that were sent.
pub fn authenticate(request_str: &str, database: &Vec<(String, String)>) -> (r: (bool, (String, String)))
    ensures
        (r.0, r.1.0@, r.1.1@) == auth_result(crate::text::lines_spec(request_str@), pairs_view(database@)),
{
    let ls = crate::text::lines(request_str);
    let ghost lv = views(ls@);
    let ghost dv = pairs_view(database@);
    let mut i: usize = 0;
    proof {
        assert(lv.skip(0) =~= lv);
    }
    while i < ls.len()
        invariant
            i <= ls@.len(),
            lv == views(ls@),
            lv.len() == ls@.len(),
            dv == pairs_view(database@),
            auth_result(crate::text::lines_spec(request_str@), dv) == auth_result(lv.skip(i as int), dv),
            lv == crate::text::lines_spec(request_str@),
        decreases ls@.len() - i,
    {
        proof {
            assert(lv[i as int] == ls@[i as int]@);
            assert(lv.skip(i as int)[0] == lv[i as int]);
            assert(lv.skip(i as int).drop_first() =~= lv.skip(i + 1));
        }
        match line_credentials(ls[i].as_str()) {
            Some((u, p)) => {
                match find_password(database, u.as_str()) {
                    Some(e) => {
                        let ok = same_text(p.as_str(), e.as_str());
                        return (ok, (u, p));
                    },
                    None => {},
                }
            },
            None => {},
        }
        i = i + 1;
    }
    (false, (String::new(), String::new()))
}

// ---------------------------------------------------------------------------
// The request

/// A piece of the body: percent-decoded (empty where that is not UTF-8),
/// trimmed, and without trailing NUL characters.
pub open spec fn clean_piece(t: Seq<char>) -> Seq<char> {
    let d = match percent_text(t) {
        Some(x) => x,
        None => seq![],
    };
    crate::text::trim_end_char(trim_spec(d), '\0')
}

fn clean(t: &str) -> (r: String)
    ensures
        r@ == clean_piece(t@),
{
    let d = match percent_decode(t) {
        Some(x) => x,
        None => String::new(),
    };
    let tr = trim(d.as_str());
    crate::text::trim_end_matching(tr.as_str(), '\0')
}

/// The first empty line at or after `i`, or the number of lines.
pub open spec fn blank_from(ls: Seq<Seq<char>>, i: int) -> int
    decreases ls.len() - i,
{
    if i < 0 || i >= ls.len() {
        ls.len() as int
    } else if ls[i].len() == 0 {
        i
    } else {
        blank_from(ls, i + 1)
    }
}

/// The cleaned lines `a..b`, one after the other.
pub open spec fn body_text(ls: Seq<Seq<char>>, a: int, b: int) -> Seq<char>
    decreases b - a,
{
    if b <= a {
        seq![]
    } else {
        body_text(ls, a, b - 1) + clean_piece(ls[b - 1])
    }
}

/// What a request asks: `"METHOD /path"`, the key its route is found by,
/// and its body: the query, then the lines after the headers up to the
/// next empty line, each cleaned.
pub open spec fn request_of(text: Seq<char>) -> (Seq<char>, Seq<char>) {
    let ls = crate::text::lines_spec(text);
    let first = if ls.len() > 0 { ls[0] } else { seq![] };
    let (method, target) = line_parts(first, " "@);
    let (path, query) = line_parts(target, "?"@);
    let h = blank_from(ls, if ls.len() > 0 { 1 } else { 0 });
    let b0 = if h < ls.len() { h + 1 } else { ls.len() as int };
    let e = blank_from(ls, b0);
    (method + " "@ + path, clean_piece(query) + body_text(ls, b0, e))
}

proof fn lemma_blank_from(ls: Seq<Seq<char>>, i: int)
    requires
        0 <= i <= ls.len(),
    ensures
        i <= blank_from(ls, i) <= ls.len(),
        blank_from(ls, i) < ls.len() ==> ls[blank_from(ls, i)].len() == 0,
        forall|j: int| i <= j < blank_from(ls, i) ==> #[trigger] ls[j].len() > 0,
    decreases ls.len() - i,
{
    if i < ls.len() && ls[i].len() > 0 {
        lemma_blank_from(ls, i + 1);
    }
}

/// The first empty line at or after `i`.
fn find_blank(ls: &Vec<String>, i: usize) -> (r: usize)
    requires
        i <= ls@.len(),
    ensures
        r as int == blank_from(views(ls@), i as int),
{
    let ghost lv = views(ls@);
    let mut j = i;
    while j < ls.len() && ls[j].as_str().unicode_len() != 0
        invariant
            i <= j <= ls@.len(),
            lv == views(ls@),
            lv.len() == ls@.len(),
            blank_from(lv, i as int) == blank_from(lv, j as int),
        decreases ls@.len() - j,
    {
        proof {
            assert(lv[j as int] == ls@[j as int]@);
        }
        j = j + 1;
    }
    proof {
        if j < ls@.len() {
            assert(lv[j as int] == ls@[j as int]@);
        }
    }
    j
}

/// Reads a request: the key of its route and its body.
pub fn read_request(request_str: &str) -> (r: (String, String))
    ensures
        (r.0@, r.1@) == request_of(request_str@),
{
    let ls = crate::text::lines(request_str);
    let ghost lv = views(ls@);
    proof {
        assert(lv.len() == ls@.len());
    }
    let first = if ls.len() > 0 {
        proof {
            assert(lv[0] == ls@[0]@);
        }
        crate::text::copy_string(&ls[0])
    } else {
        String::new()
    };
    let (method, target) = parse_request_line(first.as_str(), " ");
    let (path, query) = parse_request_line(target.as_str(), "?");
    let h = find_blank(&ls, if ls.len() > 0 { 1 } else { 0 });
    let b0 = if h < ls.len() { h + 1 } else { ls.len() };
    proof {
        lemma_blank_from(lv, if lv.len() > 0 { 1 } else { 0 });
    }
    let e = find_blank(&ls, b0);
    proof {
        lemma_blank_from(lv, b0 as int);
    }
    let mut body = clean(query.as_str());
    let ghost head = body@;
    let mut j = b0;
    while j < e
        invariant
            b0 <= j <= e <= ls@.len(),
            lv == views(ls@),
            lv.len() == ls@.len(),
            body@ == head + body_text(lv, b0 as int, j as int),
        decreases e - j,
    {
        let piece = clean(ls[j].as_str());
        proof {
            assert(lv[j as int] == ls@[j as int]@);
            assert(head + body_text(lv, b0 as int, j + 1) =~= head + body_text(lv, b0 as int, j as int) + piece@);
        }
        body.append(piece.as_str());
        j = j + 1;
    }
    let mut key = method;
    key.append(" ");
    key.append(path.as_str());
    proof {
        reveal_strlit(" ");
    }
    (key, body)
}

// ---------------------------------------------------------------------------
// Replies

pub open spec fn writes_view(w: Seq<Vec<u8>>) -> Seq<Seq<u8>> {
    w.map_values(|b: Vec<u8>| b@)
}

/// A page: status 200, the content type, then the text.
pub open spec fn text_reply(body: Seq<char>, ctype: Seq<char>) -> Seq<u8> {
    encode_utf8("HTTP/1.1 200 OK\r\nContent-Type: "@ + ctype + "; charset=utf-8\r\n\r\n"@ + body)
}

/// Binary content: status 200, the content type, then the bytes.
pub open spec fn binary_reply(ctype: Seq<char>, data: Seq<u8>) -> Seq<u8> {
    encode_utf8("HTTP/1.1 200 OK\r\nContent-Type: "@ + ctype + ";\r\n\r\n"@) + data
}

/// A missing page: status 404, the content type, then the text.
pub open spec fn missing_reply(body: Seq<char>, ctype: Seq<char>) -> Seq<u8> {
    encode_utf8("HTTP/1.1 404 NOT FOUND\r\nContent-Type: "@ + ctype + "; charset=utf-8\r\n\r\n"@ + body)
}

/// The answer to missing or wrong credentials.
pub open spec fn refusal() -> Seq<u8> {
    encode_utf8("HTTP/1.1 401 Unauthorized\r\nWWW-Authenticate: Basic realm=\"Restricted area\"\r\nContent-Type: text/plain\r\n\r\nUnauthorized"@)
}

/// The UTF-8 bytes of a text.
pub fn text_bytes(s: &str) -> (b: Vec<u8>)
    ensures
        b@ == encode_utf8(s@),
{
    let src = s.as_bytes();
    let mut b: Vec<u8> = Vec::new();
    let mut i: usize = 0;
    while i < src.len()
        invariant
            i <= src@.len(),
            b@ == src@.take(i as int),
        decreases src@.len() - i,
    {
        b.push(src[i]);
        proof {
            assert(src@.take(i + 1) =~= src@.take(i as int).push(src@[i as int]));
        }
        i = i + 1;
    }
    proof {
        assert(src@.take(src@.len() as int) =~= src@);
    }
    b
}

fn head_text(status: &str, ctype: &str, tail: &str) -> (r: String)
    ensures
        r@ == status@ + ctype@ + tail@,
{
    let mut r = lit(status);
    r.append(ctype);
    r.append(tail);
    r
}

/// The reply after a route's code ran: the top value is the content; a
/// binary content is first sent with the content type below it, and then,
/// as for every content, its text is sent with the content type below that.
pub open spec fn replied(m: crate::machine::Executor, f: crate::machine::Executor, w: Seq<Seq<u8>>) -> bool {
    let v = crate::machine::arg(m, 0);
    match v {
        Val::Binary(d) => {
            &&& w == seq![
                binary_reply(text_of(crate::machine::arg(m, 1)), d),
                text_reply(text_of(v), text_of(crate::machine::arg(m, 2))),
            ]
            &&& crate::machine::effect(m, f, 3, seq![], seq![])
        },
        _ => {
            &&& w == seq![text_reply(text_of(v), text_of(crate::machine::arg(m, 1)))]
            &&& crate::machine::effect(m, f, 2, seq![], seq![])
        },
    }
}

impl crate::machine::Executor {
    /// Builds the reply from what a route's code left on the stack.
    pub fn finish_reply(&mut self) -> (w: Vec<Vec<u8>>)
        ensures
            replied(*old(self), *final(self), writes_view(w@)),
    {
        let ghost o = *self;
        let value = self.pop_stack();
        let ghost m = *self;
        let mut w: Vec<Vec<u8>> = Vec::new();
        match &value {
            Type::Binary(data) => {
                let (ct, ct2) = self.pop2();
                proof {
                    crate::machine::lemma_pop_more(stack_of(o), 1);
                    crate::machine::lemma_pop_more(stack_of(o), 0);
                    crate::machine::lemma_pop_more(stack_of(o), 2);
                    crate::machine::lemma_log_chain(o, m, *self, crate::machine::underflow(stack_of(o).len(), 1), crate::machine::underflow(stack_of(m).len(), 2) + Seq::<Seq<char>>::empty());
                    assert(crate::machine::underflow(stack_of(m).len(), 2) + Seq::<Seq<char>>::empty() =~= crate::machine::underflow(stack_of(m).len(), 2));
                    assert(crate::machine::underflow(stack_of(o).len(), 3) + Seq::<Seq<char>>::empty() =~= crate::machine::underflow(stack_of(o).len(), 3));
                    assert(stack_of(*self) + Seq::<Val>::empty() =~= stack_of(*self));
                }
                let ctext = ct.get_string();
                let head = head_text("HTTP/1.1 200 OK\r\nContent-Type: ", ctext.as_str(), ";\r\n\r\n");
                let mut bin = text_bytes(head.as_str());
                let mut i: usize = 0;
                let ghost hb = bin@;
                while i < data.len()
                    invariant
                        i <= data@.len(),
                        bin@ == hb + data@.take(i as int),
                    decreases data@.len() - i,
                {
                    bin.push(data[i]);
                    proof {
                        assert(data@.take(i + 1) =~= data@.take(i as int).push(data@[i as int]));
                    }
                    i = i + 1;
                }
                proof {
                    assert(data@.take(data@.len() as int) =~= data@);
                }
                w.push(bin);
                let vtext = value.get_string();
                let page = head_text("HTTP/1.1 200 OK\r\nContent-Type: ", ct2.get_string().as_str(), "; charset=utf-8\r\n\r\n");
                let mut page = page;
                page.append(vtext.as_str());
                w.push(text_bytes(page.as_str()));
                proof {
                    assert(writes_view(w@) =~= seq![
                        binary_reply(text_of(crate::machine::arg(o, 1)), data@),
                        text_reply(text_of(value@), text_of(crate::machine::arg(o, 2))),
                    ]);
                }
            },
            _ => {
                let ct = self.pop_stack();
                proof {
                    crate::machine::lemma_pop_more(stack_of(o), 0);
                    crate::machine::lemma_pop_more(stack_of(o), 1);
                    crate::machine::lemma_log_chain(o, m, *self, crate::machine::underflow(stack_of(o).len(), 1), crate::machine::underflow(stack_of(m).len(), 1));
                    assert(crate::machine::underflow(stack_of(o).len(), 2) + Seq::<Seq<char>>::empty() =~= crate::machine::underflow(stack_of(o).len(), 2));
                    crate::machine::lemma_pop_more(stack_of(m), 0);
                    assert(crate::machine::after_pops(below_of(m), 0) == below_of(m));
                    assert(stack_of(*self) + Seq::<Val>::empty() =~= stack_of(*self));
                }
                let vtext = value.get_string();
                let mut page = head_text("HTTP/1.1 200 OK\r\nContent-Type: ", ct.get_string().as_str(), "; charset=utf-8\r\n\r\n");
                page.append(vtext.as_str());
                w.push(text_bytes(page.as_str()));
                proof {
                    assert(writes_view(w@) =~= seq![text_reply(text_of(value@), text_of(crate::machine::arg(o, 1)))]);
                }
            },
        }
        w
    }
}

/// A route's code ran: the body was pushed, the code evaluated without
/// halting, and the reply built from the stack it left.
pub open spec fn ran_route<P: Fn(String) -> Option<Numeral>, C: Fn(String, crate::machine::Executor) -> crate::machine::Executor>(
    code: Seq<char>, body: Seq<char>, o: crate::machine::Executor, f: crate::machine::Executor, w: Seq<Seq<u8>>, parse: P, host: C,
    fuel: nat,
) -> bool {
    exists|p: crate::machine::Executor, m: crate::machine::Executor, r: nat|
        crate::machine::effect(o, p, 0, seq![Val::Text(body)], seq![])
        && #[trigger] crate::interp::evaluated(code, p, m, parse, host, fuel, r)
        && m.halted is None && replied(m, f, w)
}

/// A route's user table was listed by its code, which ran without halting,
/// and the request's credentials were checked against it, with outcome `ok`.
pub open spec fn authorized<P: Fn(String) -> Option<Numeral>, C: Fn(String, crate::machine::Executor) -> crate::machine::Executor>(
    data: Seq<char>, request: Seq<char>, o: crate::machine::Executor, c: crate::machine::Executor, ok: Option<bool>, parse: P, host: C,
    fuel: nat,
) -> bool {
    exists|a: crate::machine::Executor, r: nat|
        #[trigger] crate::interp::evaluated(data, o, a, parse, host, fuel, r) && a.halted is None && checked(a, c, request, ok)
}

/// The `not-found` route's code ran without halting and left the page and
/// its content type.
pub open spec fn ran_missing<P: Fn(String) -> Option<Numeral>, C: Fn(String, crate::machine::Executor) -> crate::machine::Executor>(
    code: Seq<char>, o: crate::machine::Executor, f: crate::machine::Executor, w: Seq<Seq<u8>>, parse: P, host: C,
    fuel: nat,
) -> bool {
    exists|m: crate::machine::Executor, r: nat|
        #[trigger] crate::interp::evaluated(code, o, m, parse, host, fuel, r) && m.halted is None
        && w == seq![missing_reply(text_of(crate::machine::arg(m, 0)), text_of(crate::machine::arg(m, 1)))]
        && crate::machine::effect(m, f, 2, seq![], seq![])
}

/// The answer to a request its route exists for: for a route asking for
/// credentials, the refusal where they fail, else the route's code run
/// after the user and password were pushed; for another route, its code
/// run; `None` where a program halted or the user table is malformed.
pub open spec fn answered<P: Fn(String) -> Option<Numeral>, C: Fn(String, crate::machine::Executor) -> crate::machine::Executor>(
    route: (Seq<char>, Seq<char>, bool, Seq<char>), request: Seq<char>, o: crate::machine::Executor,
    f: crate::machine::Executor, r: Option<Seq<Seq<u8>>>, parse: P, host: C, fuel: nat,
) -> bool {
    let body = request_of(request).1;
    match r {
        Some(w) => if route.2 {
            ||| w == seq![refusal()] && authorized(route.3, request, o, f, Some(false), parse, host, fuel)
            ||| exists|c: crate::machine::Executor| #[trigger] authorized(route.3, request, o, c, Some(true), parse, host, fuel)
                && ran_route(route.1, body, c, f, w, parse, host, fuel)
        } else {
            ran_route(route.1, body, o, f, w, parse, host, fuel)
        },
        None => f.halted is Some || (route.2 && authorized(route.3, request, o, f, None, parse, host, fuel)),
    }
}

spec fn below_of(m: crate::machine::Executor) -> Seq<Val> {
    crate::machine::below(stack_of(m))
}

/// The answer to missing or wrong credentials, as bytes.
pub fn refusal_bytes() -> (b: Vec<u8>)
    ensures
        b@ == refusal(),
{
    text_bytes("HTTP/1.1 401 Unauthorized\r\nWWW-Authenticate: Basic realm=\"Restricted area\"\r\nContent-Type: text/plain\r\n\r\nUnauthorized")
}

/// The outcome of checking credentials against the user table the top value
/// lists: `None` for a malformed table; else whether they hold, and on
/// success the user and password pushed as a list.
pub open spec fn checked(o: crate::machine::Executor, f: crate::machine::Executor, request: Seq<char>, r: Option<bool>) -> bool {
    match user_rows(items_of(crate::machine::arg(o, 0))) {
        None => r is None && crate::machine::effect(o, f, 1, seq![], seq![]),
        Some(db) => {
            let a = auth_result(crate::text::lines_spec(request), db);
            &&& r == Some(a.0)
            &&& a.0 ==> crate::machine::effect(o, f, 1, seq![Val::List(seq![Val::Text(a.1), Val::Text(a.2)])], seq![])
            &&& !a.0 ==> crate::machine::effect(o, f, 1, seq![], seq![])
        },
    }
}

impl crate::machine::Executor {
    /// Checks a request's credentials against the user table on top of the
    /// stack.
    pub fn check_credentials(&mut self, request_str: &str) -> (r: Option<bool>)
        ensures
            checked(*old(self), *final(self), request_str@, r),
    {
        let ghost o = *self;
        let table = self.pop_stack();
        let ghost m = *self;
        proof {
            crate::machine::lemma_effect_pop1(o, *self);
        }
        match user_table(&table) {
            None => None,
            Some(db) => {
                let (ok, (user, pass)) = authenticate(request_str, &db);
                if ok {
                    let mut pair: Vec<Type> = Vec::new();
                    pair.push(Type::String(user));
                    pair.push(Type::String(pass));
                    proof {
                        assert(crate::value::vals_of(pair@) =~= seq![Val::Text(user@), Val::Text(pass@)]) by {
                            crate::value::lemma_vals_of(pair@);
                        }
                    }
                    let v = Type::List(pair);
                    self.push(v);
                    proof {
                        crate::machine::lemma_effect_push(o, m, *self, 1, seq![], v@, seq![]);
                        assert(seq![v@] =~= seq![Val::List(seq![Val::Text(user@), Val::Text(pass@)])]);
                    }
                }
                Some(ok)
            },
        }
    }

    /// The reply to a request no route answers: the page the `not-found`
    /// route left on the stack (when `custom`) or the default text, with
    /// the content type below it.
    pub fn reply_missing(&mut self, custom: bool) -> (w: Vec<u8>)
        ensures
            custom ==> w@ == missing_reply(text_of(crate::machine::arg(*old(self), 0)), text_of(crate::machine::arg(*old(self), 1)))
                && crate::machine::effect(*old(self), *final(self), 2, seq![], seq![]),
            !custom ==> w@ == missing_reply("404 - Not found"@, text_of(crate::machine::arg(*old(self), 0)))
                && crate::machine::effect(*old(self), *final(self), 1, seq![], seq![]),
    {
        let ghost o = *self;
        let page = if custom {
            self.pop_stack().get_string()
        } else {
            lit("404 - Not found")
        };
        let ghost m = *self;
        let ct = self.pop_stack();
        proof {
            if custom {
                crate::machine::lemma_pop_more(stack_of(o), 0);
                crate::machine::lemma_pop_more(stack_of(o), 1);
                crate::machine::lemma_pop_more(stack_of(m), 0);
                assert(crate::machine::after_pops(below_of(m), 0) == below_of(m));
                crate::machine::lemma_log_chain(o, m, *self, crate::machine::underflow(stack_of(o).len(), 1), crate::machine::underflow(stack_of(m).len(), 1));
                assert(crate::machine::underflow(stack_of(o).len(), 2) + Seq::<Seq<char>>::empty() =~= crate::machine::underflow(stack_of(o).len(), 2));
            } else {
                crate::machine::lemma_effect_pop1(o, *self);
            }
            assert(stack_of(*self) + Seq::<Val>::empty() =~= stack_of(*self));
        }
        let mut text = head_text("HTTP/1.1 404 NOT FOUND\r\nContent-Type: ", ct.get_string().as_str(), "; charset=utf-8\r\n\r\n");
        text.append(page.as_str());
        text_bytes(text.as_str())
    }

    /// Answers one request, given as the bytes read from the connection:
    /// the route its method and path name runs with the body on the stack
    /// (after the user table is checked, for a route that asks for
    /// credentials), and the writes to send back are returned; `None` where
    /// serving stops (a program halted or a user table is malformed).
    pub fn handle_request<P, C>(&mut self, request: &[u8], routes: &Vec<Route>, parse: &P, host: &C, fuel: u64) -> (r: Option<Vec<Vec<u8>>>)
        where
            P: Fn(String) -> Option<Numeral>,
            C: Fn(String, crate::machine::Executor) -> crate::machine::Executor,
        requires
            parser_total(*parse),
            host_total(*host),
        ensures
            route_for(routes_view(routes@), request_of(lossy_text_of(request@)).0) is None
                && route_for(routes_view(routes@), "not-found"@) is None ==> {
                &&& r matches Some(w)
                &&& writes_view(w@) == seq![missing_reply("404 - Not found"@, text_of(crate::machine::arg(*old(self), 0)))]
                &&& crate::machine::effect(*old(self), *final(self), 1, seq![], seq![])
            },
            route_for(routes_view(routes@), request_of(lossy_text_of(request@)).0) is None
                ==> (route_for(routes_view(routes@), "not-found"@) matches Some(j)
                ==> match r {
                    Some(w) => ran_missing(routes_view(routes@)[j].1, *old(self), *final(self), writes_view(w@), *parse, *host, fuel as nat),
                    None => final(self).halted is Some,
                }),
            route_for(routes_view(routes@), request_of(lossy_text_of(request@)).0) matches Some(ri)
                ==> answered(routes_view(routes@)[ri], lossy_text_of(request@), *old(self), *final(self),
                    match r { Some(w) => Some(writes_view(w@)), None => None }, *parse, *host, fuel as nat),
    {
        let text = utf8_lossy(request);
        let (key, body) = read_request(text.as_str());
        proof {
            reveal_strlit("not-found");
            assert(key@ == request_of(lossy_text_of(request@)).0);
            lemma_route_for(routes_view(routes@), "not-found"@);
            assert(routes_view(routes@).len() == routes@.len());
        }
        let ghost o = *self;
        let ghost rv = routes_view(routes@);
        let ghost req = lossy_text_of(request@);
        proof {
            assert(text@ == req);
            assert(body@ == request_of(req).1);
        }
        match find_route(routes, key.as_str()) {
            Some(i) => {
                proof {
                    lemma_route_for(rv, key@);
                    assert(rv[i as int] == route_view(routes@[i as int]));
                }
                let route = &routes[i];
                let ghost rt = rv[i as int];
                let ghost c = *self;
                if route.auth {
                    let ra = self.evaluate_program(route.auth_data.as_str(), parse, host, fuel);
                    if self.halted.is_some() {
                        return None;
                    }
                    let ghost a = *self;
                    let outcome = self.check_credentials(text.as_str());
                    proof {
                        assert(crate::interp::evaluated(rt.3, o, a, *parse, *host, fuel as nat, ra as nat));
                        assert(authorized(rt.3, req, o, *self, outcome, *parse, *host, fuel as nat));
                    }
                    match outcome {
                        None => {
                            return None;
                        },
                        Some(false) => {
                            let mut w: Vec<Vec<u8>> = Vec::new();
                            w.push(refusal_bytes());
                            proof {
                                assert(writes_view(w@) =~= seq![refusal()]);
                            }
                            return Some(w);
                        },
                        Some(true) => {},
                    }
                    proof {
                        c = *self;
                    }
                }
                let ghost bv = body@;
                self.push(Type::String(body));
                let ghost p = *self;
                proof {
                    crate::interp::lemma_pushed_text(c, p, bv);
                }
                let rc = self.evaluate_program(route.code.as_str(), parse, host, fuel);
                if self.halted.is_some() {
                    return None;
                }
                let ghost m = *self;
                let w = self.finish_reply();
                proof {
                    assert(crate::interp::evaluated(rt.1, p, m, *parse, *host, fuel as nat, rc as nat));
                    assert(ran_route(rt.1, request_of(req).1, c, *self, writes_view(w@), *parse, *host, fuel as nat));
                    if rt.2 {
                        assert(authorized(rt.3, req, o, c, Some(true), *parse, *host, fuel as nat));
                    } else {
                        assert(c == o);
                    }
                }
                Some(w)
            },
            None => {
                let mut w: Vec<Vec<u8>> = Vec::new();
                match find_route(routes, "not-found") {
                    Some(j) => {
                        let rn = self.evaluate_program(routes[j].code.as_str(), parse, host, fuel);
                        if self.halted.is_some() {
                            return None;
                        }
                        let ghost m = *self;
                        let page = self.reply_missing(true);
                        w.push(page);
                        proof {
                            assert(rv[j as int] == route_view(routes@[j as int]));
                            assert(writes_view(w@) =~= seq![page@]);
                            assert(crate::interp::evaluated(rv[j as int].1, o, m, *parse, *host, fuel as nat, rn as nat));
                            assert(ran_missing(rv[j as int].1, o, *self, writes_view(w@), *parse, *host, fuel as nat));
                        }
                    },
                    None => {
                        let page = self.reply_missing(false);
                        w.push(page);
                        proof {
                            assert(writes_view(w@) =~= seq![page@]);
                        }
                    },
                }
                Some(w)
            },
        }
    }
}

/// The name, address and buffer size a server runs with: an object gives
/// its type name and its `address` and `buffer-size` properties (defaults
/// `127.0.0.1:8000` and 8192); any other value is the address of a server
/// named `app`.
pub open spec fn options_ok<P: Fn(String) -> Option<Numeral>>(parse: P, v: Val, name: Seq<char>, address: Seq<char>, size: nat) -> bool {
    match v {
        Val::Object(n, fields) => {
            &&& name == n
            &&& address == (match crate::store::lookup(fields, "address"@) {
                Some(a) => text_of(a),
                None => "127.0.0.1:8000"@,
            })
            &&& match crate::store::lookup(fields, "buffer-size"@) {
                Some(b) => exists|x: (u64, Seq<char>)| #[trigger] crate::machine::number_value(parse, b, x)
                    && size == crate::numeral::float_to_usize(x.0),
                None => size == 8192,
            }
        },
        _ => name == "app"@ && address == text_of(v) && size == 8192,
    }
}

/// Reads a server's options.
pub fn server_options<P>(option: &Type, parse: &P) -> (r: (String, String, usize))
    where
        P: Fn(String) -> Option<Numeral>,
    requires
        parser_total(*parse),
    ensures
        options_ok(*parse, option@, r.0@, r.1@, r.2 as nat),
{
    proof {
        reveal_strlit("address");
        reveal_strlit("buffer-size");
    }
    match option {
        Type::Object(name, fields) => {
            let address = match crate::store::get_named(fields, "address") {
                Some(a) => a.get_string(),
                None => lit("127.0.0.1:8000"),
            };
            let size = match crate::store::get_named(fields, "buffer-size") {
                Some(b) => {
                    let n = crate::machine::number_of(&b, parse);
                    proof {
                        assert(crate::machine::number_value(*parse, b@, crate::value::num_val(n)));
                    }
                    crate::numeral::to_usize(&n)
                },
                None => 8192,
            };
            (crate::text::copy_string(name), address, size)
        },
        _ => (lit("app"), option.get_string(), 8192),
    }
}

proof fn lemma_body_flatten(ls: Seq<Seq<char>>, a: int, b: int)
    requires
        0 <= a <= b <= ls.len(),
    ensures
        body_text(ls, a, b) == ls.subrange(a, b).map_values(|l: Seq<char>| clean_piece(l)).flatten_alt(),
    decreases b - a,
{
    let m = ls.subrange(a, b).map_values(|l: Seq<char>| clean_piece(l));
    if b > a {
        lemma_body_flatten(ls, a, b - 1);
        assert(m.drop_last() =~= ls.subrange(a, b - 1).map_values(|l: Seq<char>| clean_piece(l)));
        assert(m.last() == clean_piece(ls[b - 1]));
    } else {
        assert(m.len() == 0);
    }
}

proof fn lemma_first_blank(ls: Seq<Seq<char>>, i: int, h: int)
    requires
        0 <= i <= h <= ls.len(),
        h < ls.len() ==> ls[h].len() == 0,
        forall|j: int| i <= j < h ==> #[trigger] ls[j].len() > 0,
    ensures
        blank_from(ls, i) == h,
{
    lemma_blank_from(ls, i);
    let bf = blank_from(ls, i);
    if bf < h {
        assert(ls[bf].len() > 0);
    }
    if bf > h {
        assert(ls[h].len() > 0);
    }
}

/// A request's body starts with its query, cleaned.
pub proof fn law_query_first(text: Seq<char>)
    ensures
        ({
            let ls = crate::text::lines_spec(text);
            let first = if ls.len() > 0 { ls[0] } else { seq![] };
            let q = clean_piece(line_parts(line_parts(first, " "@).1, "?"@).1);
            request_of(text).1.take(q.len() as int) == q
        }),
{
    let ls = crate::text::lines_spec(text);
    let first = if ls.len() > 0 { ls[0] } else { seq![] };
    let q = clean_piece(line_parts(line_parts(first, " "@).1, "?"@).1);
    let r = request_of(text).1;
    assert(r.take(q.len() as int) =~= q);
}

/// A request whose headers end at the empty line `h`, and whose body lines
/// run up to the next empty line `e` (or the end), has as its body the
/// cleaned query followed by the cleaned body lines, in order.
pub proof fn law_request_body(text: Seq<char>, h: int, e: int)
    requires
        1 <= h < crate::text::lines_spec(text).len(),
        crate::text::lines_spec(text)[h].len() == 0,
        forall|j: int| 1 <= j < h ==> #[trigger] crate::text::lines_spec(text)[j].len() > 0,
        h + 1 <= e <= crate::text::lines_spec(text).len(),
        e < crate::text::lines_spec(text).len() ==> crate::text::lines_spec(text)[e].len() == 0,
        forall|j: int| h + 1 <= j < e ==> #[trigger] crate::text::lines_spec(text)[j].len() > 0,
    ensures
        ({
            let ls = crate::text::lines_spec(text);
            request_of(text).1 == clean_piece(line_parts(line_parts(ls[0], " "@).1, "?"@).1)
                + ls.subrange(h + 1, e).map_values(|l: Seq<char>| clean_piece(l)).flatten()
        }),
{
    let ls = crate::text::lines_spec(text);
    lemma_first_blank(ls, 1, h);
    lemma_first_blank(ls, h + 1, e);
    lemma_body_flatten(ls, h + 1, e);
    ls.subrange(h + 1, e).map_values(|l: Seq<char>| clean_piece(l)).lemma_flatten_and_flatten_alt_are_equivalent();
}

} // verus!
