//! Strings as sequences of characters: splitting, joining, replacing,
//! trimming and the other text operations the language uses.
use vstd::prelude::*;

verus! {

/// Appends one character to a string (`String::push`).
#[verifier::external_body]
pub(crate) fn push_char(s: &mut String, c: char)
    ensures
        final(s)@ == old(s)@.push(c),
{
    s.push(c);
}

/// The characters of a string, in order.
pub fn chars_of(s: &str) -> (v: Vec<char>)
    ensures
        v@ == s@,
{
    let mut v: Vec<char> = Vec::new();
    for c in it: s.chars()
        invariant
            v@ == it.seq().take(it.index() as int),
            it.seq() == s@,
    {
        v.push(c);
    }
    v
}

/// The string made of the given characters.
pub fn string_of(cs: &[char]) -> (s: String)
    ensures
        s@ == cs@,
{
    let mut s = String::new();
    for i in 0..cs.len()
        invariant
            s@ == cs@.take(i as int),
    {
        push_char(&mut s, cs[i]);
        assert(cs@.take(i + 1) == cs@.take(i as int).push(cs@[i as int]));
    }
    assert(cs@.take(cs@.len() as int) == cs@);
    s
}

/// The string made of the characters `cs[from..to]`.
pub fn string_of_range(cs: &Vec<char>, from: usize, to: usize) -> (s: String)
    requires
        from <= to <= cs@.len(),
    ensures
        s@ == cs@.subrange(from as int, to as int),
{
    let mut s = String::new();
    let mut i = from;
    while i < to
        invariant
            from <= i <= to <= cs@.len(),
            s@ == cs@.subrange(from as int, i as int),
        decreases to - i,
    {
        push_char(&mut s, cs[i]);
        assert(cs@.subrange(from as int, i + 1) == cs@.subrange(from as int, i as int).push(cs@[i as int]));
        i = i + 1;
    }
    s
}

/// Appends a string to another.
pub fn append(s: &mut String, t: &str)
    ensures
        final(s)@ == old(s)@ + t@,
{
    s.append(t);
}

/// A string from a literal.
pub fn lit(t: &str) -> (s: String)
    ensures
        s@ == t@,
{
    String::from_str(t)
}

/// The views of a sequence of strings.
pub open spec fn views(v: Seq<String>) -> Seq<Seq<char>> {
    v.map_values(|t: String| t@)
}

pub proof fn lemma_views_push(v: Seq<String>, t: String)
    ensures
        views(v.push(t)) == views(v).push(t@),
{
    assert(views(v.push(t)) =~= views(v).push(t@));
}

// ---------------------------------------------------------------------------
// Searching, splitting, joining, replacing

/// `k` occurs in `s` starting at index `i`.
pub open spec fn occurs_at(s: Seq<char>, k: Seq<char>, i: int) -> bool {
    0 <= i && i + k.len() <= s.len() && s.subrange(i, i + k.len()) == k
}

/// The pieces of `s[start..]` between the non-overlapping occurrences of a
/// non-empty `k`, searching from `pos` onwards, leftmost first.
pub open spec fn split_from(s: Seq<char>, k: Seq<char>, start: int, pos: int) -> Seq<Seq<char>>
    recommends
        k.len() > 0,
        0 <= start <= pos <= s.len(),
    decreases s.len() - pos,
{
    if k.len() == 0 || pos < 0 || pos + k.len() > s.len() {
        seq![s.subrange(start, s.len() as int)]
    } else if occurs_at(s, k, pos) {
        seq![s.subrange(start, pos)] + split_from(s, k, pos + k.len(), pos + k.len())
    } else {
        split_from(s, k, start, pos + 1)
    }
}

/// The pieces of `s` around the matches of `k` (`str::split` with a string
/// pattern): an empty pattern matches at every character boundary.
pub open spec fn split_spec(s: Seq<char>, k: Seq<char>) -> Seq<Seq<char>> {
    if k.len() == 0 {
        seq![Seq::<char>::empty()] + s.map_values(|c: char| seq![c]) + seq![Seq::<char>::empty()]
    } else {
        split_from(s, k, 0, 0)
    }
}

/// The pieces joined with a separator (`[String]::join`).
pub open spec fn join_spec(pieces: Seq<Seq<char>>, sep: Seq<char>) -> Seq<char>
    decreases pieces.len(),
{
    if pieces.len() == 0 {
        seq![]
    } else if pieces.len() == 1 {
        pieces[0]
    } else {
        join_spec(pieces.drop_last(), sep) + sep + pieces.last()
    }
}

/// Every match of `from` replaced by `to` (`str::replace`).
pub open spec fn replace_spec(s: Seq<char>, from: Seq<char>, to: Seq<char>) -> Seq<char> {
    join_spec(split_spec(s, from), to)
}

/// `k` occurs somewhere in `s` (`str::contains`); the empty string occurs everywhere.
pub open spec fn contains_spec(s: Seq<char>, k: Seq<char>) -> bool {
    exists|i: int| occurs_at(s, k, i)
}

/// Whether `k` occurs at index `i` of `s`.
fn matches_at(s: &Vec<char>, k: &Vec<char>, i: usize) -> (b: bool)
    requires
        i + k@.len() <= s@.len(),
    ensures
        b == occurs_at(s@, k@, i as int),
{
    let n = s.len();
    let mut j: usize = 0;
    while j < k.len()
        invariant
            n == s@.len(),
            i + k@.len() <= s@.len(),
            j <= k@.len(),
            forall|m: int| 0 <= m < j ==> s@[i + m] == k@[m],
        decreases k@.len() - j,
    {
        if s[i + j] != k[j] {
            assert(s@.subrange(i as int, i + k@.len())[j as int] != k@[j as int]);
            return false;
        }
        j = j + 1;
    }
    assert(s@.subrange(i as int, i + k@.len()) =~= k@);
    true
}

/// Splits `text` at every match of `key`, leftmost first (`str::split`).
pub fn split_str(text: &str, key: &str) -> (pieces: Vec<String>)
    ensures
        views(pieces@) == split_spec(text@, key@),
{
    let s = chars_of(text);
    let k = chars_of(key);
    let mut pieces: Vec<String> = Vec::new();
    if k.len() == 0 {
        pieces.push(String::new());
        let mut i: usize = 0;
        while i < s.len()
            invariant
                i <= s@.len(),
                views(pieces@) == seq![Seq::<char>::empty()] + s@.take(i as int).map_values(|c: char| seq![c]),
            decreases s@.len() - i,
        {
            let piece = string_of_range(&s, i, i + 1);
            let ghost before = pieces@;
            pieces.push(piece);
            proof {
                lemma_views_push(before, piece);
                assert(s@.subrange(i as int, i + 1) =~= seq![s@[i as int]]);
                assert(s@.take(i + 1).map_values(|c: char| seq![c]) =~= s@.take(i as int).map_values(|c: char| seq![c]).push(seq![s@[i as int]]));
            }
            i = i + 1;
        }
        let ghost before = pieces@;
        let e = String::new();
        pieces.push(e);
        proof {
            lemma_views_push(before, e);
            assert(s@.take(s@.len() as int) =~= s@);
        }
        return pieces;
    }
    let mut start: usize = 0;
    let mut pos: usize = 0;
    while k.len() <= s.len() - pos
        invariant
            k@.len() > 0,
            s@ == text@,
            k@ == key@,
            start <= pos <= s@.len(),
            views(pieces@) + split_from(s@, k@, start as int, pos as int) == split_spec(s@, k@),
        decreases s@.len() - pos,
    {
        if matches_at(&s, &k, pos) {
            let piece = string_of_range(&s, start, pos);
            let ghost before = pieces@;
            pieces.push(piece);
            proof {
                lemma_views_push(before, piece);
                assert(views(pieces@) + split_from(s@, k@, (pos + k@.len()) as int, (pos + k@.len()) as int)
                    =~= views(before) + split_from(s@, k@, start as int, pos as int));
            }
            pos = pos + k.len();
            start = pos;
        } else {
            pos = pos + 1;
        }
    }
    let piece = string_of_range(&s, start, s.len());
    let ghost before = pieces@;
    pieces.push(piece);
    proof {
        lemma_views_push(before, piece);
    }
    pieces
}

/// Joins strings with a separator (`[String]::join`).
pub fn join_strings(pieces: &Vec<String>, sep: &str) -> (s: String)
    ensures
        s@ == join_spec(views(pieces@), sep@),
{
    let mut s = String::new();
    let mut i: usize = 0;
    while i < pieces.len()
        invariant
            i <= pieces@.len(),
            s@ == join_spec(views(pieces@.take(i as int)), sep@),
        decreases pieces@.len() - i,
    {
        proof {
            assert(views(pieces@.take(i + 1)).drop_last() =~= views(pieces@.take(i as int)));
            assert(views(pieces@.take(i + 1)).last() == pieces@[i as int]@);
        }
        if i > 0 {
            s.append(sep);
        }
        s.append(pieces[i].as_str());
        proof {
            if i == 0 {
                assert(views(pieces@.take(1)) =~= seq![pieces@[0]@]);
            }
        }
        i = i + 1;
    }
    assert(pieces@.take(pieces@.len() as int) =~= pieces@);
    s
}

/// Replaces every match of `from` by `to` (`str::replace`).
pub fn replace_str(s: &str, from: &str, to: &str) -> (r: String)
    ensures
        r@ == replace_spec(s@, from@, to@),
{
    let pieces = split_str(s, from);
    join_strings(&pieces, to)
}

/// Whether `k` occurs in `text` (`str::contains`).
pub fn contains_str(text: &str, k: &str) -> (b: bool)
    ensures
        b == contains_spec(text@, k@),
{
    let s = chars_of(text);
    let kk = chars_of(k);
    if kk.len() > s.len() {
        assert forall|j: int| !occurs_at(s@, kk@, j) by {}
        return false;
    }
    let last = s.len() - kk.len();
    let mut i: usize = 0;
    loop
        invariant
            i <= last,
            last + kk@.len() == s@.len(),
            forall|j: int| 0 <= j < i ==> !occurs_at(s@, kk@, j),
            s@ == text@,
            kk@ == k@,
        ensures
            forall|j: int| 0 <= j <= last ==> !occurs_at(s@, kk@, j),
        decreases last - i,
    {
        if matches_at(&s, &kk, i) {
            return true;
        }
        if i == last {
            break;
        }
        i = i + 1;
    }
    assert forall|j: int| !occurs_at(s@, kk@, j) by {
        if 0 <= j <= last {
        }
    }
    false
}

/// Whether `s` starts with `p` (`str::starts_with`).
pub fn starts_with(s: &str, p: &str) -> (b: bool)
    ensures
        b == (p@.len() <= s@.len() && s@.take(p@.len() as int) == p@),
{
    let sc = chars_of(s);
    let pc = chars_of(p);
    if pc.len() > sc.len() {
        return false;
    }
    let b = matches_at(&sc, &pc, 0);
    assert(sc@.subrange(0, pc@.len() as int) == sc@.take(pc@.len() as int));
    b
}

// ---------------------------------------------------------------------------
// Proofs about splitting and joining

pub proof fn lemma_join_push(pieces: Seq<Seq<char>>, x: Seq<char>, sep: Seq<char>)
    requires
        pieces.len() > 0,
    ensures
        join_spec(pieces.push(x), sep) == join_spec(pieces, sep) + sep + x,
{
    assert(pieces.push(x).drop_last() =~= pieces);
}

/// Joining `a + b` puts one separator between the two joins.
pub proof fn lemma_join_concat(a: Seq<Seq<char>>, b: Seq<Seq<char>>, sep: Seq<char>)
    requires
        a.len() > 0,
        b.len() > 0,
    ensures
        join_spec(a + b, sep) == join_spec(a, sep) + sep + join_spec(b, sep),
    decreases b.len(),
{
    if b.len() == 1 {
        assert((a + b).drop_last() =~= a);
        assert((a + b).last() == b[0]);
    } else {
        lemma_join_concat(a, b.drop_last(), sep);
        assert((a + b).drop_last() =~= a + b.drop_last());
        assert((a + b).last() == b.last());
        assert(join_spec(a, sep) + sep + join_spec(b.drop_last(), sep) + sep + b.last()
            =~= join_spec(a, sep) + sep + (join_spec(b.drop_last(), sep) + sep + b.last()));
    }
}

pub proof fn lemma_split_from_len(s: Seq<char>, k: Seq<char>, start: int, pos: int)
    requires
        k.len() > 0,
        0 <= start <= pos <= s.len(),
    ensures
        split_from(s, k, start, pos).len() > 0,
    decreases s.len() - pos,
{
    if pos + k.len() > s.len() {
    } else if occurs_at(s, k, pos) {
    } else {
        lemma_split_from_len(s, k, start, pos + 1);
    }
}

/// Joining the pieces of `s[start..]` with `k` gives `s[start..]` back.
pub proof fn lemma_join_split_from(s: Seq<char>, k: Seq<char>, start: int, pos: int)
    requires
        k.len() > 0,
        0 <= start <= pos <= s.len(),
    ensures
        join_spec(split_from(s, k, start, pos), k) == s.subrange(start, s.len() as int),
    decreases s.len() - pos,
{
    if pos + k.len() > s.len() {
    } else if occurs_at(s, k, pos) {
        let next = pos + k.len();
        lemma_join_split_from(s, k, next, next);
        lemma_split_from_len(s, k, next, next);
        lemma_join_concat(seq![s.subrange(start, pos)], split_from(s, k, next, next), k);
        assert(join_spec(seq![s.subrange(start, pos)], k) == s.subrange(start, pos));
        assert(s.subrange(start, pos) + k + s.subrange(next, s.len() as int) =~= s.subrange(start, s.len() as int));
    } else {
        lemma_join_split_from(s, k, start, pos + 1);
    }
}

proof fn lemma_join_singletons(s: Seq<char>)
    ensures
        s.len() > 0 ==> join_spec(s.map_values(|c: char| seq![c]), Seq::<char>::empty()) == s,
    decreases s.len(),
{
    if s.len() > 1 {
        lemma_join_singletons(s.drop_last());
        assert(s.map_values(|c: char| seq![c]).drop_last() =~= s.drop_last().map_values(|c: char| seq![c]));
        assert(s.drop_last() + seq![s.last()] =~= s);
    } else if s.len() == 1 {
        assert(s =~= seq![s[0]]);
    }
}

/// Splitting with a key and joining the pieces with the same key gives the
/// text back: the `split` and `join` commands undo each other.
pub proof fn law_join_split(s: Seq<char>, k: Seq<char>)
    ensures
        join_spec(split_spec(s, k), k) == s,
{
    if k.len() == 0 {
        let e = Seq::<char>::empty();
        let mid = s.map_values(|c: char| seq![c]);
        lemma_join_concat(seq![e], mid + seq![e], k);
        if s.len() == 0 {
            assert(seq![e] + mid + seq![e] =~= seq![e, e]);
            assert(seq![e, e].drop_last() =~= seq![e]);
        } else {
            lemma_join_singletons(s);
            lemma_join_push(mid, e, k);
            assert(seq![e] + (mid + seq![e]) =~= seq![e] + mid + seq![e]);
            assert(mid.push(e) =~= mid + seq![e]);
            assert(e + k + (s + k + e) =~= s);
        }
    } else {
        lemma_join_split_from(s, k, 0, 0);
        assert(s.subrange(0, s.len() as int) =~= s);
    }
}

/// Replacing a string by itself changes nothing.
pub proof fn law_replace_same(s: Seq<char>, k: Seq<char>)
    ensures
        replace_spec(s, k, k) == s,
{
    law_join_split(s, k);
}


/// Whether two strings are equal.
pub fn same_text(a: &str, b: &str) -> (r: bool)
    ensures
        r == (a@ == b@),
{
    let x = chars_of(a);
    let y = chars_of(b);
    if x.len() != y.len() {
        return false;
    }
    let mut i: usize = 0;
    while i < x.len()
        invariant
            x@ == a@,
            y@ == b@,
            x@.len() == y@.len(),
            i <= x@.len(),
            forall|j: int| 0 <= j < i ==> x@[j] == y@[j],
        decreases x@.len() - i,
    {
        if x[i] != y[i] {
            return false;
        }
        i = i + 1;
    }
    assert(x@ =~= y@);
    true
}

/// A copy of a string.
pub fn copy_string(s: &String) -> (r: String)
    ensures
        r@ == s@,
{
    s.clone()
}

/// The concatenation of two strings.
pub fn concat(a: &str, b: &str) -> (r: String)
    ensures
        r@ == a@ + b@,
{
    let mut r = String::from_str(a);
    r.append(b);
    r
}


// ---------------------------------------------------------------------------
// Trimming and lines

/// The Unicode `White_Space` characters (`char::is_whitespace`).
pub open spec fn is_blank(c: char) -> bool {
    let u = c as u32;
    (0x9 <= u && u <= 0xD) || u == 0x20 || u == 0x85 || u == 0xA0 || u == 0x1680
        || (0x2000 <= u && u <= 0x200A) || u == 0x2028 || u == 0x2029 || u == 0x202F
        || u == 0x205F || u == 0x3000
}

pub fn blank(c: char) -> (r: bool)
    ensures
        r == is_blank(c),
{
    let u = c as u32;
    (0x9 <= u && u <= 0xD) || u == 0x20 || u == 0x85 || u == 0xA0 || u == 0x1680
        || (0x2000 <= u && u <= 0x200A) || u == 0x2028 || u == 0x2029 || u == 0x202F
        || u == 0x205F || u == 0x3000
}

/// The number of leading characters satisfying being blank.
pub open spec fn lead_blank(s: Seq<char>) -> nat
    decreases s.len(),
{
    if s.len() == 0 || !is_blank(s[0]) {
        0
    } else {
        1 + lead_blank(s.drop_first())
    }
}

/// The text without trailing blanks.
pub open spec fn trim_end_spec(s: Seq<char>) -> Seq<char>
    decreases s.len(),
{
    if s.len() > 0 && is_blank(s.last()) {
        trim_end_spec(s.drop_last())
    } else {
        s
    }
}

/// The text without leading and trailing blanks (`str::trim`).
pub open spec fn trim_spec(s: Seq<char>) -> Seq<char> {
    trim_end_spec(s.skip(lead_blank(s) as int))
}

/// The text without trailing copies of `c` (`str::trim_end_matches(c)`).
pub open spec fn trim_end_char(s: Seq<char>, c: char) -> Seq<char>
    decreases s.len(),
{
    if s.len() > 0 && s.last() == c {
        trim_end_char(s.drop_last(), c)
    } else {
        s
    }
}

/// The text without leading copies of a non-empty `p`
/// (`str::trim_start_matches(p)`).
pub open spec fn trim_start_str(s: Seq<char>, p: Seq<char>) -> Seq<char>
    decreases s.len(),
{
    if p.len() > 0 && p.len() <= s.len() && s.take(p.len() as int) == p {
        trim_start_str(s.skip(p.len() as int), p)
    } else {
        s
    }
}

proof fn lemma_lead_blank(s: Seq<char>)
    ensures
        lead_blank(s) <= s.len(),
        forall|i: int| 0 <= i < lead_blank(s) ==> is_blank(#[trigger] s[i]),
        lead_blank(s) < s.len() ==> !is_blank(s[lead_blank(s) as int]),
    decreases s.len(),
{
    if s.len() > 0 && is_blank(s[0]) {
        lemma_lead_blank(s.drop_first());
        assert forall|i: int| 0 <= i < lead_blank(s) implies is_blank(#[trigger] s[i]) by {
            if i > 0 {
                assert(s[i] == s.drop_first()[i - 1]);
            }
        }
    }
}

/// `str::trim`.
pub fn trim(t: &str) -> (r: String)
    ensures
        r@ == trim_spec(t@),
{
    let cs = chars_of(t);
    proof {
        lemma_lead_blank(cs@);
    }
    let mut a: usize = 0;
    while a < cs.len() && blank(cs[a])
        invariant
            a <= lead_blank(cs@),
            lead_blank(cs@) <= cs@.len(),
            lead_blank(cs@) < cs@.len() ==> !is_blank(cs@[lead_blank(cs@) as int]),
        decreases cs@.len() - a,
    {
        a = a + 1;
    }
    assert(a == lead_blank(cs@));
    let mut b: usize = cs.len();
    let ghost rest = cs@.skip(a as int);
    while b > a && blank(cs[b - 1])
        invariant
            a <= b <= cs@.len(),
            rest == cs@.skip(a as int),
            trim_end_spec(rest) == trim_end_spec(cs@.subrange(a as int, b as int)),
        decreases b,
    {
        proof {
            assert(cs@.subrange(a as int, b as int).drop_last() =~= cs@.subrange(a as int, b - 1));
        }
        b = b - 1;
    }
    proof {
        assert(rest =~= cs@.subrange(a as int, cs@.len() as int));
    }
    string_of_range(&cs, a, b)
}

/// `str::trim_end_matches` with a character.
pub fn trim_end_matching(t: &str, c: char) -> (r: String)
    ensures
        r@ == trim_end_char(t@, c),
{
    let cs = chars_of(t);
    let mut b: usize = cs.len();
    proof {
        assert(cs@.subrange(0, b as int) =~= cs@);
    }
    while b > 0 && cs[b - 1] == c
        invariant
            b <= cs@.len(),
            trim_end_char(cs@, c) == trim_end_char(cs@.subrange(0, b as int), c),
        decreases b,
    {
        proof {
            assert(cs@.subrange(0, b as int).drop_last() =~= cs@.subrange(0, b - 1));
        }
        b = b - 1;
    }
    string_of_range(&cs, 0, b)
}

/// `str::trim_start_matches` with a non-empty string.
pub fn trim_start_matching(t: &str, p: &str) -> (r: String)
    ensures
        r@ == trim_start_str(t@, p@),
{
    let cs = chars_of(t);
    let pc = chars_of(p);
    let mut a: usize = 0;
    proof {
        assert(cs@.skip(0) =~= cs@);
    }
    while pc.len() > 0 && pc.len() <= cs.len() - a && matches_at(&cs, &pc, a)
        invariant
            a <= cs@.len(),
            trim_start_str(cs@, pc@) == trim_start_str(cs@.skip(a as int), pc@),
        decreases cs@.len() - a,
    {
        proof {
            assert(cs@.skip(a as int).take(pc@.len() as int) =~= cs@.subrange(a as int, a + pc@.len()));
            assert(cs@.skip(a as int).skip(pc@.len() as int) =~= cs@.skip(a + pc@.len()));
        }
        a = a + pc.len();
    }
    proof {
        if pc@.len() > 0 && pc@.len() <= cs@.len() - a {
            assert(cs@.skip(a as int).take(pc@.len() as int) =~= cs@.subrange(a as int, a + pc@.len()));
        }
    }
    string_of_range(&cs, a, cs.len())
}

/// A line that ended in `\n`, without one trailing `\r`.
pub open spec fn strip_cr(l: Seq<char>) -> Seq<char> {
    if l.len() > 0 && l.last() == '\r' {
        l.drop_last()
    } else {
        l
    }
}

/// The lines of a text (`str::lines`): split at `\n`; a line ended by `\n`
/// loses one trailing `\r`; an empty last piece is no line.
pub open spec fn lines_spec(s: Seq<char>) -> Seq<Seq<char>> {
    let pieces = crate::syntax::cut(s, seq!['\n']);
    let ended = pieces.drop_last().map_values(|l: Seq<char>| strip_cr(l));
    if pieces.last().len() == 0 {
        ended
    } else {
        ended.push(pieces.last())
    }
}

/// `str::lines`.
pub fn lines(t: &str) -> (r: Vec<String>)
    ensures
        views(r@) == lines_spec(t@),
{
    let cs = chars_of(t);
    let mut nl: Vec<char> = Vec::new();
    nl.push('\n');
    let pieces = crate::syntax::cut_text(&cs, 0, cs.len(), &nl);
    proof {
        assert(cs@.subrange(0, cs@.len() as int) =~= cs@);
        crate::syntax::lemma_cut_nonempty(cs@, nl@);
    }
    let ghost pv = views(pieces@);
    let mut r: Vec<String> = Vec::new();
    let mut i: usize = 0;
    while i < pieces.len() - 1
        invariant
            i < pieces@.len(),
            pv == views(pieces@),
            r@.len() == i,
            forall|j: int| 0 <= j < i ==> (#[trigger] r@[j])@ == strip_cr(pv[j]),
        decreases pieces@.len() - i,
    {
        let lc = chars_of(pieces[i].as_str());
        let l = if lc.len() > 0 && lc[lc.len() - 1] == '\r' {
            string_of_range(&lc, 0, lc.len() - 1)
        } else {
            string_of_range(&lc, 0, lc.len())
        };
        proof {
            assert(lc@.subrange(0, lc@.len() as int) =~= lc@);
            assert(lc@.len() > 0 ==> lc@.subrange(0, lc@.len() - 1) =~= lc@.drop_last());
        }
        r.push(l);
        i = i + 1;
    }
    let ghost ended = pv.drop_last().map_values(|l: Seq<char>| strip_cr(l));
    proof {
        assert(views(r@) =~= ended);
    }
    let last = copy_string(&pieces[i]);
    if last.as_str().unicode_len() != 0 {
        let ghost before = r@;
        r.push(last);
        proof {
            lemma_views_push(before, last);
        }
    }
    r
}

} // verus!
