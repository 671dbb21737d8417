//! Reading program text: the tokens of a program, string literal bodies,
//! and splitting text at separator characters.
use vstd::prelude::*;
use crate::text::{chars_of, string_of, views, lemma_views_push, string_of_range};

verus! {

/// Line breaks, tabs and the ideographic space all separate tokens like a space.
pub open spec fn normalize_blank(c: char) -> char {
    if c == '\n' || c == '\t' || c == '\r' || c == '\u{3000}' {
        ' '
    } else {
        c
    }
}

/// The state of the token scanner between two characters.
pub struct Scan {
    pub tokens: Seq<Seq<char>>,
    pub buffer: Seq<char>,
    /// Nesting depth of string literals `( ... )`.
    pub brackets: int,
    /// Nesting depth of list literals `[ ... ]`.
    pub parens: int,
    /// Nesting depth of matrix literals `{ ... }`.
    pub braces: int,
    /// Inside a `# ... #` comment.
    pub hash: bool,
    /// The previous character was an unescaped backslash.
    pub escape: bool,
}

pub open spec fn scan_start() -> Scan {
    Scan { tokens: seq![], buffer: seq![], brackets: 0, parens: 0, braces: 0, hash: false, escape: false }
}

/// What an ordinary character adds to the buffer.
pub open spec fn plain_push(s: Scan, c: char) -> Seq<char> {
    if s.parens == 0 && s.brackets == 0 && !s.hash {
        if s.escape {
            if c == 'n' {
                s.buffer + seq!['\\', 'n']
            } else if c == 't' {
                s.buffer + seq!['\\', 't']
            } else if c == 'r' {
                s.buffer + seq!['\\', 'r']
            } else {
                s.buffer.push(c)
            }
        } else {
            s.buffer.push(c)
        }
    } else if s.escape {
        s.buffer.push('\\').push(c)
    } else {
        s.buffer.push(c)
    }
}

/// One step of the scanner on an (already normalized) character.
pub open spec fn scan_step(s: Scan, c: char) -> Scan {
    if c == '\\' && !s.escape {
        Scan { escape: true, ..s }
    } else if c == '(' && !s.hash && !s.escape {
        Scan { brackets: s.brackets + 1, buffer: s.buffer.push(c), ..s }
    } else if c == ')' && !s.hash && !s.escape {
        Scan { brackets: s.brackets - 1, buffer: s.buffer.push(c), ..s }
    } else if c == '{' && !s.hash && s.brackets == 0 && !s.escape {
        Scan { braces: s.braces + 1, buffer: s.buffer.push(c), ..s }
    } else if c == '}' && !s.hash && s.brackets == 0 && !s.escape {
        Scan { braces: s.braces - 1, buffer: s.buffer.push(c), ..s }
    } else if c == '#' && !s.escape {
        Scan { hash: !s.hash, buffer: s.buffer.push(c), ..s }
    } else if c == '[' && !s.hash && s.brackets == 0 && !s.escape {
        Scan { parens: s.parens + 1, buffer: s.buffer.push(c), ..s }
    } else if c == ']' && !s.hash && s.brackets == 0 && !s.escape {
        Scan { parens: s.parens - 1, buffer: s.buffer.push(c), ..s }
    } else if c == ' ' && !s.hash && s.parens == 0 && s.brackets == 0 && !s.escape && s.braces == 0 {
        if s.buffer.len() > 0 {
            Scan { tokens: s.tokens.push(s.buffer), buffer: seq![], ..s }
        } else {
            s
        }
    } else {
        Scan { buffer: plain_push(s, c), escape: false, ..s }
    }
}

/// The scanner after reading all of `cs`.
pub open spec fn scan_all(cs: Seq<char>) -> Scan
    decreases cs.len(),
{
    if cs.len() == 0 {
        scan_start()
    } else {
        scan_step(scan_all(cs.drop_last()), normalize_blank(cs.last()))
    }
}

/// The tokens of a program text.
pub open spec fn tokenize(cs: Seq<char>) -> Seq<Seq<char>> {
    let s = scan_all(cs);
    if s.buffer.len() > 0 {
        s.tokens.push(s.buffer)
    } else {
        s.tokens
    }
}

/// Splits a program into tokens: blanks separate tokens except inside string
/// literals `( )`, list literals `[ ]`, matrix literals `{ }` and comments
/// `# #`; a backslash escapes the next character.
pub fn analyze_syntax(code: &str) -> (syntax: Vec<String>)
    ensures
        views(syntax@) == tokenize(code@),
{
    let cs = chars_of(code);
    let mut syntax: Vec<String> = Vec::new();
    let mut buffer: Vec<char> = Vec::new();
    let mut brackets: i128 = 0;
    let mut parens: i128 = 0;
    let mut braces: i128 = 0;
    let mut hash = false;
    let mut escape = false;
    let n = cs.len();
    for i in 0..n
        invariant
            n == cs@.len(),
            cs@ == code@,
            n <= usize::MAX,
            -(i as int) <= brackets <= i,
            -(i as int) <= parens <= i,
            -(i as int) <= braces <= i,
            ({
                let s = scan_all(cs@.take(i as int));
                &&& views(syntax@) == s.tokens
                &&& buffer@ == s.buffer
                &&& brackets == s.brackets
                &&& parens == s.parens
                &&& braces == s.braces
                &&& hash == s.hash
                &&& escape == s.escape
            }),
    {
        let raw = cs[i];
        let c = if raw == '\n' || raw == '\t' || raw == '\r' || raw == '\u{3000}' {
            ' '
        } else {
            raw
        };
        proof {
            assert(cs@.take(i + 1).drop_last() == cs@.take(i as int));
            assert(cs@.take(i + 1).last() == cs@[i as int]);
        }
        if c == '\\' && !escape {
            escape = true;
        } else if c == '(' && !hash && !escape {
            brackets = brackets + 1;
            buffer.push(c);
        } else if c == ')' && !hash && !escape {
            brackets = brackets - 1;
            buffer.push(c);
        } else if c == '{' && !hash && brackets == 0 && !escape {
            braces = braces + 1;
            buffer.push(c);
        } else if c == '}' && !hash && brackets == 0 && !escape {
            braces = braces - 1;
            buffer.push(c);
        } else if c == '#' && !escape {
            hash = !hash;
            buffer.push(c);
        } else if c == '[' && !hash && brackets == 0 && !escape {
            parens = parens + 1;
            buffer.push(c);
        } else if c == ']' && !hash && brackets == 0 && !escape {
            parens = parens - 1;
            buffer.push(c);
        } else if c == ' ' && !hash && parens == 0 && brackets == 0 && !escape && braces == 0 {
            if buffer.len() > 0 {
                let t = string_of(buffer.as_slice());
                let ghost before = syntax@;
                syntax.push(t);
                proof {
                    assert(views(syntax@) == views(before).push(t@));
                }
                buffer = Vec::new();
            }
        } else {
            if parens == 0 && brackets == 0 && !hash {
                if escape {
                    if c == 'n' {
                        buffer.push('\\');
                        buffer.push('n');
                    } else if c == 't' {
                        buffer.push('\\');
                        buffer.push('t');
                    } else if c == 'r' {
                        buffer.push('\\');
                        buffer.push('r');
                    } else {
                        buffer.push(c);
                    }
                } else {
                    buffer.push(c);
                }
            } else {
                if escape {
                    buffer.push('\\');
                }
                buffer.push(c);
            }
            escape = false;
        }
    }
    if buffer.len() > 0 {
        let t = string_of(buffer.as_slice());
        let ghost before = syntax@;
        syntax.push(t);
        proof {
            assert(views(syntax@) == views(before).push(t@));
        }
    }
    proof {
        assert(cs@.take(n as int) == cs@);
    }
    syntax
}


/// The state of reading the body of a string literal.
pub struct Lit {
    pub buffer: Seq<char>,
    pub brackets: int,
    pub parens: int,
    pub hash: bool,
    pub escape: bool,
}

/// One step of reading a string literal's body: nested brackets and
/// comments are kept as written; outside them a backslash escapes the next
/// character (`\n`, `\t`, `\r` stay as two characters).
pub open spec fn lit_step(s: Lit, c: char) -> Lit {
    if c == '\\' && !s.escape {
        Lit { escape: true, ..s }
    } else if c == '(' && !s.hash && !s.escape {
        Lit { brackets: s.brackets + 1, buffer: s.buffer.push(c), ..s }
    } else if c == ')' && !s.hash && !s.escape {
        Lit { brackets: s.brackets - 1, buffer: s.buffer.push(c), ..s }
    } else if c == '#' && !s.escape {
        Lit { hash: !s.hash, buffer: s.buffer.push(c), ..s }
    } else if c == '[' && !s.hash && s.brackets == 0 && !s.escape {
        Lit { parens: s.parens + 1, buffer: s.buffer.push(c), ..s }
    } else if c == ']' && !s.hash && s.brackets == 0 && !s.escape {
        Lit { parens: s.parens - 1, buffer: s.buffer.push(c), ..s }
    } else {
        let b = if s.parens == 0 && s.brackets == 0 && !s.hash {
            if s.escape {
                if c == 'n' {
                    s.buffer + seq!['\\', 'n']
                } else if c == 't' {
                    s.buffer + seq!['\\', 't']
                } else if c == 'r' {
                    s.buffer + seq!['\\', 'r']
                } else {
                    s.buffer.push(c)
                }
            } else {
                s.buffer.push(c)
            }
        } else if s.escape {
            s.buffer.push('\\').push(c)
        } else {
            s.buffer.push(c)
        };
        Lit { buffer: b, escape: false, ..s }
    }
}

pub open spec fn lit_all(cs: Seq<char>) -> Lit
    decreases cs.len(),
{
    if cs.len() == 0 {
        Lit { buffer: seq![], brackets: 0, parens: 0, hash: false, escape: false }
    } else {
        lit_step(lit_all(cs.drop_last()), cs.last())
    }
}

/// The string a literal's body stands for.
pub open spec fn literal_text(body: Seq<char>) -> Seq<char> {
    lit_all(body).buffer
}

/// Reads the body of a string literal (the text between its parentheses).
pub fn literal_string(cs: &Vec<char>, from: usize, to: usize) -> (r: String)
    requires
        from <= to <= cs@.len(),
    ensures
        r@ == literal_text(cs@.subrange(from as int, to as int)),
{
    let ghost body = cs@.subrange(from as int, to as int);
    let mut buffer: Vec<char> = Vec::new();
    let mut brackets: i128 = 0;
    let mut parens: i128 = 0;
    let mut hash = false;
    let mut escape = false;
    let mut i = from;
    while i < to
        invariant
            from <= i <= to <= cs@.len(),
            body == cs@.subrange(from as int, to as int),
            -((i - from) as int) <= brackets <= (i - from) as int,
            -((i - from) as int) <= parens <= (i - from) as int,
            ({
                let s = lit_all(body.take((i - from) as int));
                &&& buffer@ == s.buffer
                &&& brackets == s.brackets
                &&& parens == s.parens
                &&& hash == s.hash
                &&& escape == s.escape
            }),
        decreases to - i,
    {
        let c = cs[i];
        proof {
            assert(body.take((i + 1 - from) as int).drop_last() =~= body.take((i - from) as int));
            assert(body.take((i + 1 - from) as int).last() == c);
        }
        if c == '\\' && !escape {
            escape = true;
        } else if c == '(' && !hash && !escape {
            brackets = brackets + 1;
            buffer.push(c);
        } else if c == ')' && !hash && !escape {
            brackets = brackets - 1;
            buffer.push(c);
        } else if c == '#' && !escape {
            hash = !hash;
            buffer.push(c);
        } else if c == '[' && !hash && brackets == 0 && !escape {
            parens = parens + 1;
            buffer.push(c);
        } else if c == ']' && !hash && brackets == 0 && !escape {
            parens = parens - 1;
            buffer.push(c);
        } else {
            if parens == 0 && brackets == 0 && !hash {
                if escape {
                    if c == 'n' {
                        buffer.push('\\');
                        buffer.push('n');
                    } else if c == 't' {
                        buffer.push('\\');
                        buffer.push('t');
                    } else if c == 'r' {
                        buffer.push('\\');
                        buffer.push('r');
                    } else {
                        buffer.push(c);
                    }
                } else {
                    buffer.push(c);
                }
            } else {
                if escape {
                    buffer.push('\\');
                }
                buffer.push(c);
            }
            escape = false;
        }
        i = i + 1;
    }
    proof {
        assert(body.take((to - from) as int) =~= body);
    }
    string_of(buffer.as_slice())
}

/// The pieces of `s` between the characters of `seps`.
pub open spec fn cut(s: Seq<char>, seps: Seq<char>) -> Seq<Seq<char>>
    decreases s.len(),
{
    if s.len() == 0 {
        seq![seq![]]
    } else {
        let p = cut(s.drop_last(), seps);
        if seps.contains(s.last()) {
            p.push(seq![])
        } else {
            p.update(p.len() - 1, p.last().push(s.last()))
        }
    }
}

pub proof fn lemma_cut_nonempty(s: Seq<char>, seps: Seq<char>)
    ensures
        cut(s, seps).len() >= 1,
    decreases s.len(),
{
    if s.len() > 0 {
        lemma_cut_nonempty(s.drop_last(), seps);
    }
}

/// Splits `cs[from..to]` at every character of `seps` (`str::split` with a
/// character pattern).
pub fn cut_text(cs: &Vec<char>, from: usize, to: usize, seps: &Vec<char>) -> (pieces: Vec<String>)
    requires
        from <= to <= cs@.len(),
    ensures
        views(pieces@) == cut(cs@.subrange(from as int, to as int), seps@),
{
    let ghost body = cs@.subrange(from as int, to as int);
    let mut pieces: Vec<String> = Vec::new();
    let mut start = from;
    let mut i = from;
    proof {
        assert(body.take(0) =~= Seq::<char>::empty());
        assert(views(pieces@) =~= Seq::<Seq<char>>::empty());
        assert(cs@.subrange(from as int, from as int) =~= Seq::<char>::empty());
        assert(views(pieces@).push(cs@.subrange(start as int, i as int)) =~= seq![Seq::<char>::empty()]);
    }
    while i < to
        invariant
            from <= start <= i <= to <= cs@.len(),
            body == cs@.subrange(from as int, to as int),
            views(pieces@).push(cs@.subrange(start as int, i as int)) == cut(body.take((i - from) as int), seps@),
        decreases to - i,
    {
        let c = cs[i];
        let mut is_sep = false;
        let mut k: usize = 0;
        while k < seps.len()
            invariant
                k <= seps@.len(),
                is_sep == exists|q: int| 0 <= q < k && seps@[q] == c,
            decreases seps@.len() - k,
        {
            if seps[k] == c {
                is_sep = true;
            }
            k = k + 1;
        }
        proof {
            assert(body.take((i + 1 - from) as int).drop_last() =~= body.take((i - from) as int));
            assert(body.take((i + 1 - from) as int).last() == c);
            assert(is_sep == seps@.contains(c));
        }
        if is_sep {
            let piece = string_of_range(cs, start, i);
            let ghost before = pieces@;
            pieces.push(piece);
            proof {
                lemma_views_push(before, piece);
                assert(cs@.subrange((i + 1) as int, (i + 1) as int) =~= Seq::<char>::empty());
            }
            start = i + 1;
        } else {
            proof {
                let p = cut(body.take((i - from) as int), seps@);
                assert(cs@.subrange(start as int, (i + 1) as int) =~= cs@.subrange(start as int, i as int).push(c));
                assert(views(pieces@).push(cs@.subrange(start as int, (i + 1) as int)) =~= p.update(p.len() - 1, p.last().push(c)));
            }
        }
        i = i + 1;
    }
    let piece = string_of_range(cs, start, to);
    let ghost before = pieces@;
    pieces.push(piece);
    proof {
        lemma_views_push(before, piece);
        assert(body.take((to - from) as int) =~= body);
    }
    pieces
}


proof fn lemma_scan_tokens_nonempty(cs: Seq<char>)
    ensures
        forall|i: int| 0 <= i < scan_all(cs).tokens.len() ==> (#[trigger] scan_all(cs).tokens[i]).len() > 0,
    decreases cs.len(),
{
    if cs.len() > 0 {
        lemma_scan_tokens_nonempty(cs.drop_last());
        let s = scan_all(cs.drop_last());
        let t = scan_all(cs);
        assert forall|i: int| 0 <= i < t.tokens.len() implies (#[trigger] t.tokens[i]).len() > 0 by {
            if i < s.tokens.len() {
                assert(t.tokens[i] == s.tokens[i]);
            }
        }
    }
}

/// Each token followed by a space.
pub open spec fn spaced(ts: Seq<Seq<char>>) -> Seq<char>
    decreases ts.len(),
{
    if ts.len() == 0 {
        seq![]
    } else {
        spaced(ts.drop_last()) + ts.last() + seq![' ']
    }
}

/// The text a scanner state stands for: its tokens, each followed by a
/// space, then what it holds.
pub open spec fn scan_text(s: Scan) -> Seq<char> {
    spaced(s.tokens) + s.buffer
}

pub open spec fn no_backslash(cs: Seq<char>) -> bool {
    forall|i: int| 0 <= i < cs.len() ==> cs[i] != '\\'
}

/// Without backslashes, scanning the text a scanner state stands for gives
/// that state back.
proof fn lemma_scan_text(cs: Seq<char>)
    requires
        no_backslash(cs),
    ensures
        !scan_all(cs).escape,
        scan_all(scan_text(scan_all(cs))) == scan_all(cs),
    decreases cs.len(),
{
    if cs.len() == 0 {
        assert(scan_text(scan_start()) =~= Seq::<char>::empty());
    } else {
        let p = cs.drop_last();
        assert forall|i: int| 0 <= i < p.len() implies p[i] != '\\' by {
            assert(p[i] == cs[i]);
        }
        lemma_scan_text(p);
        let s0 = scan_all(p);
        let c = normalize_blank(cs.last());
        assert(cs.last() == cs[cs.len() - 1]);
        assert(c != '\\');
        assert(normalize_blank(c) == c);
        let s = scan_step(s0, c);
        let x = scan_text(s0);
        if s == s0 {
        } else if s.tokens == s0.tokens {
            assert(s.buffer == s0.buffer.push(c));
            assert(scan_text(s) =~= x.push(c));
            assert(x.push(c).drop_last() =~= x);
        } else {
            assert(s.tokens == s0.tokens.push(s0.buffer));
            assert(s.buffer.len() == 0);
            assert(s0.tokens.push(s0.buffer).drop_last() =~= s0.tokens);
            assert(scan_text(s) =~= x.push(' '));
            assert(x.push(' ').drop_last() =~= x);
        }
    }
}

proof fn lemma_spaced_join(ts: Seq<Seq<char>>)
    requires
        ts.len() > 0,
    ensures
        spaced(ts) == crate::text::join_spec(ts, seq![' ']) + seq![' '],
    decreases ts.len(),
{
    if ts.len() == 1 {
        assert(ts.drop_last().len() == 0);
        assert(spaced(ts.drop_last()) == Seq::<char>::empty());
        assert(ts.last() == ts[0]);
        assert(Seq::<char>::empty() + ts[0] + seq![' '] =~= ts[0] + seq![' ']);
    } else {
        lemma_spaced_join(ts.drop_last());
        let j = crate::text::join_spec(ts.drop_last(), seq![' ']);
        assert(j + seq![' '] + ts.last() + seq![' '] =~= (j + seq![' '] + ts.last()) + seq![' ']);
    }
}

/// Joining the tokens of a program without backslashes by single spaces
/// and reading the result again gives the same tokens.
pub proof fn law_retokenize(cs: Seq<char>)
    requires
        no_backslash(cs),
    ensures
        tokenize(crate::text::join_spec(tokenize(cs), " "@)) == tokenize(cs),
{
    reveal_strlit(" ");
    assert(" "@ =~= seq![' ']);
    lemma_scan_text(cs);
    let s = scan_all(cs);
    let ts = tokenize(cs);
    let r = crate::text::join_spec(ts, seq![' ']);
    if s.buffer.len() > 0 {
        lemma_spaced_join(ts);
        assert(ts.drop_last() =~= s.tokens);
        assert(ts.last() == s.buffer);
        lemma_spaced_join(ts);
        if s.tokens.len() > 0 {
            lemma_spaced_join(s.tokens);
            crate::text::lemma_join_push(s.tokens, s.buffer, seq![' ']);
            assert(scan_text(s) =~= r);
        } else {
            assert(ts =~= seq![s.buffer]);
            assert(spaced(s.tokens) =~= Seq::<char>::empty());
            assert(scan_text(s) =~= r);
        }
    } else if s.tokens.len() > 0 {
        lemma_spaced_join(s.tokens);
        assert(ts == s.tokens);
        assert(scan_text(s) =~= r.push(' '));
        assert(r.push(' ').drop_last() =~= r);
        assert(normalize_blank(' ') == ' ');
        let x = scan_all(r);
        assert(scan_step(x, ' ') == s);
        if x.buffer.len() == 0 {
            assert(x == s || x.tokens.push(x.buffer) == s.tokens);
        }
    } else {
        assert(ts.len() == 0);
        assert(r =~= Seq::<char>::empty());
    }
}

/// A scanner between tokens: outside every literal and comment, with no
/// backslash pending.
pub open spec fn at_rest(s: Scan) -> bool {
    s.brackets == 0 && s.parens == 0 && s.braces == 0 && !s.hash && !s.escape
}

/// A scanner state with `t` read before its tokens.
pub open spec fn shifted(s: Scan, t: Seq<Seq<char>>) -> Scan {
    Scan { tokens: t + s.tokens, ..s }
}

proof fn lemma_scan_shift(x: Seq<char>, b: Seq<char>)
    requires
        scan_all(x).buffer.len() == 0,
        at_rest(scan_all(x)),
    ensures
        scan_all(x + b) == shifted(scan_all(b), scan_all(x).tokens),
    decreases b.len(),
{
    let t = scan_all(x).tokens;
    if b.len() == 0 {
        assert(x + b =~= x);
        assert(t + Seq::<Seq<char>>::empty() =~= t);
        assert(scan_all(x).buffer =~= Seq::<char>::empty());
    } else {
        lemma_scan_shift(x, b.drop_last());
        assert((x + b).drop_last() =~= x + b.drop_last());
        assert((x + b).last() == b.last());
        let s = scan_all(b.drop_last());
        assert((t + s.tokens).push(s.buffer) =~= t + s.tokens.push(s.buffer));
    }
}

/// Reading `a`, a space and `b`, where `a` ends between tokens, gives the
/// tokens of `a` and then those of `b`.
pub proof fn law_tokens_concat(a: Seq<char>, b: Seq<char>)
    requires
        at_rest(scan_all(a)),
    ensures
        tokenize(a + " "@ + b) == tokenize(a) + tokenize(b),
{
    reveal_strlit(" ");
    let x = a + seq![' '];
    assert(x.drop_last() =~= a);
    assert(x.last() == ' ');
    assert(normalize_blank(' ') == ' ');
    let sa = scan_all(a);
    assert(scan_all(x).tokens == tokenize(a));
    lemma_scan_shift(x, b);
    assert(a + " "@ + b =~= x + b);
    let sb = scan_all(b);
    if sb.buffer.len() > 0 {
        assert((tokenize(a) + sb.tokens).push(sb.buffer) =~= tokenize(a) + sb.tokens.push(sb.buffer));
    }
}

/// A comment token: it starts and ends with `#`.
pub open spec fn comment_token(t: Seq<char>) -> bool {
    t.len() > 0 && t[0] == '#' && t.last() == '#'
}

/// The number of `#` characters in a text.
pub open spec fn hashes(cs: Seq<char>) -> nat
    decreases cs.len(),
{
    if cs.len() == 0 {
        0
    } else {
        hashes(cs.drop_last()) + if cs.last() == '#' { 1nat } else { 0nat }
    }
}

/// A program text of blanks and closed `# .. #` comments only, without
/// backslashes: every other character stands inside a comment.
pub open spec fn comment_program(cs: Seq<char>) -> bool {
    &&& no_backslash(cs)
    &&& hashes(cs) % 2 == 0
    &&& forall|i: int| 0 <= i < cs.len() ==> normalize_blank(cs[i]) == ' ' || cs[i] == '#'
        || #[trigger] hashes(cs.take(i)) % 2 == 1
}

proof fn lemma_comment_scan(cs: Seq<char>)
    requires
        no_backslash(cs),
        forall|i: int| 0 <= i < cs.len() ==> normalize_blank(cs[i]) == ' ' || cs[i] == '#'
            || #[trigger] hashes(cs.take(i)) % 2 == 1,
    ensures
        scan_all(cs).hash == (hashes(cs) % 2 == 1),
        scan_all(cs).brackets == 0,
        scan_all(cs).parens == 0,
        scan_all(cs).braces == 0,
        !scan_all(cs).escape,
        forall|j: int| 0 <= j < scan_all(cs).tokens.len() ==> comment_token(#[trigger] scan_all(cs).tokens[j]),
        !scan_all(cs).hash ==> scan_all(cs).buffer.len() == 0 || comment_token(scan_all(cs).buffer),
        scan_all(cs).hash ==> scan_all(cs).buffer.len() > 0 && scan_all(cs).buffer[0] == '#',
    decreases cs.len(),
{
    if cs.len() > 0 {
        let p = cs.drop_last();
        assert forall|i: int| 0 <= i < p.len() implies normalize_blank(p[i]) == ' ' || p[i] == '#'
            || #[trigger] hashes(p.take(i)) % 2 == 1 by {
            assert(p[i] == cs[i]);
            assert(p.take(i) =~= cs.take(i));
            assert(normalize_blank(cs[i]) == ' ' || cs[i] == '#' || hashes(cs.take(i)) % 2 == 1);
        }
        lemma_comment_scan(p);
        let s0 = scan_all(p);
        let x = cs.last();
        let c = normalize_blank(x);
        assert(x == cs[cs.len() - 1]);
        assert(cs.take(cs.len() - 1) =~= p);
        assert(normalize_blank(x) == ' ' || x == '#' || hashes(cs.take(cs.len() - 1)) % 2 == 1);
        assert(c != '\\');
        let s = scan_step(s0, c);
        assert(s.tokens.len() >= s0.tokens.len());
        assert forall|j: int| 0 <= j < s.tokens.len() implies comment_token(#[trigger] s.tokens[j]) by {
            if j < s0.tokens.len() {
                assert(s.tokens[j] == s0.tokens[j]);
            }
        }
        if s0.buffer.len() > 0 && s.buffer.len() > 0 {
            assert(s.buffer[0] == s0.buffer[0]);
        }
    }
}

/// Every token of a program of blanks and comments is a comment.
pub proof fn law_comment_tokens(cs: Seq<char>)
    requires
        comment_program(cs),
    ensures
        forall|j: int| 0 <= j < tokenize(cs).len() ==> comment_token(#[trigger] tokenize(cs)[j]),
{
    lemma_comment_scan(cs);
    let s = scan_all(cs);
    if s.buffer.len() > 0 {
        assert forall|j: int| 0 <= j < tokenize(cs).len() implies comment_token(#[trigger] tokenize(cs)[j]) by {
            if j < s.tokens.len() {
                assert(tokenize(cs)[j] == s.tokens[j]);
            }
        }
    }
}

proof fn lemma_scan_normalized(cs: Seq<char>)
    ensures
        scan_all(cs.map_values(|c: char| normalize_blank(c))) == scan_all(cs),
    decreases cs.len(),
{
    let n = cs.map_values(|c: char| normalize_blank(c));
    if cs.len() > 0 {
        lemma_scan_normalized(cs.drop_last());
        assert(n.drop_last() =~= cs.drop_last().map_values(|c: char| normalize_blank(c)));
        assert(n.last() == normalize_blank(cs.last()));
    }
}

/// Reading a text with its blanks normalized gives the same tokens.
pub proof fn law_tokens_normalized(cs: Seq<char>)
    ensures
        tokenize(cs.map_values(|c: char| normalize_blank(c))) == tokenize(cs),
{
    lemma_scan_normalized(cs);
}

/// The code of a list literal: read after `[`, it never closes the list
/// before its end, where it stands outside strings and comments with the
/// list still open once.
pub open spec fn list_body(c: Seq<char>) -> bool {
    &&& no_backslash(c)
    &&& forall|k: int| 0 <= k <= c.len() ==> #[trigger] scan_all(seq!['['] + c.take(k)).parens >= 1
    &&& scan_all(seq!['['] + c).parens == 1
    &&& scan_all(seq!['['] + c).brackets == 0
    &&& !scan_all(seq!['['] + c).hash
}

proof fn lemma_list_scan(c: Seq<char>, k: int)
    requires
        no_backslash(c),
        0 <= k <= c.len(),
        forall|j: int| 0 <= j <= c.len() ==> #[trigger] scan_all(seq!['['] + c.take(j)).parens >= 1,
    ensures
        scan_all(seq!['['] + c.take(k)).tokens.len() == 0,
        scan_all(seq!['['] + c.take(k)).buffer == seq!['['] + c.take(k).map_values(|x: char| normalize_blank(x)),
        !scan_all(seq!['['] + c.take(k)).escape,
    decreases k,
{
    let x = seq!['['] + c.take(k);
    if k == 0 {
        assert(x =~= seq!['[']);
        assert(x.drop_last() =~= Seq::<char>::empty());
        assert(scan_all(x.drop_last()) == scan_start());
        assert(x.last() == '[');
        assert(normalize_blank('[') == '[');
        assert(scan_all(x) == scan_step(scan_start(), '['));
        assert(scan_start().buffer.push('[') =~= seq!['[']);
        assert(c.take(0).map_values(|y: char| normalize_blank(y)) =~= Seq::<char>::empty());
        assert(seq!['['] + Seq::<char>::empty() =~= seq!['[']);
    } else {
        lemma_list_scan(c, k - 1);
        assert(x.drop_last() =~= seq!['['] + c.take(k - 1));
        assert(x.last() == c[k - 1]);
        assert(c[k - 1] != '\\');
        let s0 = scan_all(seq!['['] + c.take(k - 1));
        assert(s0.parens >= 1);
        assert(scan_all(x) == scan_step(s0, normalize_blank(c[k - 1])));
        assert(c.take(k).map_values(|y: char| normalize_blank(y))
            =~= c.take(k - 1).map_values(|y: char| normalize_blank(y)).push(normalize_blank(c[k - 1])));
        assert(seq!['['] + c.take(k).map_values(|y: char| normalize_blank(y))
            =~= (seq!['['] + c.take(k - 1).map_values(|y: char| normalize_blank(y))).push(normalize_blank(c[k - 1])));
    }
}

/// `[`, a list body and `]` read as one token: the list literal, with its
/// blanks normalized.
pub proof fn law_list_token(c: Seq<char>)
    requires
        list_body(c),
    ensures
        tokenize(seq!['['] + c + seq![']'])
            == seq![seq!['['] + c.map_values(|x: char| normalize_blank(x)) + seq![']']],
{
    lemma_list_scan(c, c.len() as int);
    assert(c.take(c.len() as int) =~= c);
    let t = seq!['['] + c + seq![']'];
    assert(t.drop_last() =~= seq!['['] + c);
    assert(t.last() == ']');
    let s0 = scan_all(seq!['['] + c);
    assert(scan_all(t) == scan_step(s0, ']'));
    assert(s0.buffer.push(']') =~= seq!['['] + c.map_values(|x: char| normalize_blank(x)) + seq![']']);
}

/// No token is empty.
pub proof fn law_tokens_nonempty(cs: Seq<char>)
    ensures
        forall|i: int| 0 <= i < tokenize(cs).len() ==> (#[trigger] tokenize(cs)[i]).len() > 0,
{
    lemma_scan_tokens_nonempty(cs);
}

/// A character with no meaning to the scanner: no backslash, bracket,
/// brace, parenthesis or `#`.
pub open spec fn plain_char(c: char) -> bool {
    c != '\\' && c != '(' && c != ')' && c != '[' && c != ']' && c != '{' && c != '}' && c != '#'
}

/// The text with every blank normalized to a space.
pub open spec fn normalized(cs: Seq<char>) -> Seq<char> {
    cs.map_values(|c: char| normalize_blank(c))
}

/// Whether a piece is non-empty.
pub open spec fn is_word() -> spec_fn(Seq<char>) -> bool {
    |w: Seq<char>| w.len() > 0
}

/// The non-empty pieces.
pub open spec fn nonempty_pieces(p: Seq<Seq<char>>) -> Seq<Seq<char>> {
    p.filter(is_word())
}

/// The words of a text: the non-empty pieces between blanks.
pub open spec fn words(cs: Seq<char>) -> Seq<Seq<char>> {
    nonempty_pieces(cut(normalized(cs), seq![' ']))
}

proof fn lemma_nonempty_push(p: Seq<Seq<char>>, w: Seq<char>)
    ensures
        nonempty_pieces(p.push(w)) == if w.len() > 0 { nonempty_pieces(p).push(w) } else { nonempty_pieces(p) },
{
    p.lemma_filter_push(w, is_word());
}

proof fn lemma_scan_plain(cs: Seq<char>)
    requires
        forall|i: int| 0 <= i < cs.len() ==> plain_char(#[trigger] cs[i]),
    ensures
        cut(normalized(cs), seq![' ']).len() >= 1,
        scan_all(cs).tokens == nonempty_pieces(cut(normalized(cs), seq![' ']).drop_last()),
        scan_all(cs).buffer == cut(normalized(cs), seq![' ']).last(),
        scan_all(cs).brackets == 0,
        scan_all(cs).parens == 0,
        scan_all(cs).braces == 0,
        !scan_all(cs).hash,
        !scan_all(cs).escape,
    decreases cs.len(),
{
    let n = normalized(cs);
    lemma_cut_nonempty(n, seq![' ']);
    if cs.len() == 0 {
        assert(n =~= Seq::<char>::empty());
        assert(cut(n, seq![' ']) =~= seq![Seq::<char>::empty()]);
        assert(cut(n, seq![' ']).drop_last() =~= Seq::<Seq<char>>::empty());
    } else {
        let rest = cs.drop_last();
        assert forall|i: int| 0 <= i < rest.len() implies plain_char(#[trigger] rest[i]) by {
            assert(rest[i] == cs[i]);
        }
        lemma_scan_plain(rest);
        let n2 = normalized(rest);
        assert(n.drop_last() =~= n2);
        let x = cs.last();
        assert(plain_char(cs[cs.len() - 1]));
        let c = normalize_blank(x);
        assert(n.last() == c);
        assert(n.len() > 0);
        let p2 = cut(n2, seq![' ']);
        let p = cut(n, seq![' ']);
        let s2 = scan_all(rest);
        assert(scan_all(cs) == scan_step(s2, c));
        if c == ' ' {
            assert(seq![' '].contains(c)) by {
                assert(seq![' '][0] == c);
            }
            assert(p == p2.push(seq![]));
            assert(p.drop_last() =~= p2);
            assert(p2 =~= p2.drop_last().push(p2.last()));
            lemma_nonempty_push(p2.drop_last(), p2.last());
        } else {
            assert(!seq![' '].contains(c)) by {
                if seq![' '].contains(c) {
                    let j = choose|j: int| 0 <= j < 1 && seq![' '][j] == c;
                    assert(seq![' '][j] == ' ');
                }
            }
            assert(p == p2.update(p2.len() - 1, p2.last().push(c)));
            assert(p.drop_last() =~= p2.drop_last());
            assert(plain_push(s2, c) == s2.buffer.push(c));
        }
    }
}

/// Outside literals, escapes and comments, tokens are just the words
/// between blanks.
pub proof fn law_plain_tokens(cs: Seq<char>)
    requires
        forall|i: int| 0 <= i < cs.len() ==> plain_char(#[trigger] cs[i]),
    ensures
        tokenize(cs) == words(cs),
{
    lemma_scan_plain(cs);
    let p = cut(normalized(cs), seq![' ']);
    assert(p =~= p.drop_last().push(p.last()));
    lemma_nonempty_push(p.drop_last(), p.last());
}

/// The characters that separate words: the space, the line feed, the tab,
/// the carriage return and the ideographic space.
pub open spec fn separators() -> Seq<char> {
    seq![' ', '\n', '\t', '\r', '\u{3000}']
}

proof fn lemma_cut_blanks(cs: Seq<char>)
    requires
        forall|i: int| 0 <= i < cs.len() ==> plain_char(#[trigger] cs[i]),
    ensures
        cut(normalized(cs), seq![' ']) == cut(cs, separators()),
    decreases cs.len(),
{
    if cs.len() > 0 {
        let p = cs.drop_last();
        assert forall|i: int| 0 <= i < p.len() implies plain_char(#[trigger] p[i]) by {
            assert(p[i] == cs[i]);
        }
        lemma_cut_blanks(p);
        let x = cs.last();
        assert(normalized(cs).drop_last() =~= normalized(p));
        assert(normalized(cs).last() == normalize_blank(x));
        let seps = separators();
        assert(seps[0] == ' ' && seps[1] == '\n' && seps[2] == '\t' && seps[3] == '\r' && seps[4] == '\u{3000}');
        if x == ' ' || x == '\n' || x == '\t' || x == '\r' || x == '\u{3000}' {
            assert(seps.contains(x));
            assert(seq![' '].contains(normalize_blank(x))) by {
                assert(seq![' '][0] == ' ');
            }
        } else {
            assert(!seps.contains(x));
            assert(normalize_blank(x) == x);
            assert(!seq![' '].contains(x));
        }
    }
}

/// Outside literals, escapes and comments, the tokens of a program are the
/// non-empty pieces between separators: a space, a line feed, a tab, a
/// carriage return or an ideographic space each ends a word.
pub proof fn law_separators(cs: Seq<char>)
    requires
        forall|i: int| 0 <= i < cs.len() ==> plain_char(#[trigger] cs[i]),
    ensures
        tokenize(cs) == cut(cs, seq![' ', '\n', '\t', '\r', '\u{3000}']).filter(|w: Seq<char>| w.len() > 0),
{
    law_plain_tokens(cs);
    lemma_cut_blanks(cs);
    assert(is_word() == (|w: Seq<char>| w.len() > 0));
}

proof fn lemma_lit_rest(p: Seq<char>, y: Seq<char>)
    requires
        lit_all(p).brackets == 0,
        lit_all(p).parens == 0,
        !lit_all(p).hash,
        !lit_all(p).escape,
        forall|i: int| 0 <= i < y.len() ==> plain_char(#[trigger] y[i]),
    ensures
        lit_all(p + y) == (Lit { buffer: lit_all(p).buffer + y, ..lit_all(p) }),
    decreases y.len(),
{
    if y.len() == 0 {
        assert(p + y =~= p);
        assert(lit_all(p).buffer + y =~= lit_all(p).buffer);
    } else {
        let z = y.drop_last();
        assert forall|i: int| 0 <= i < z.len() implies plain_char(#[trigger] z[i]) by {
            assert(z[i] == y[i]);
        }
        lemma_lit_rest(p, z);
        assert((p + y).drop_last() =~= p + z);
        assert((p + y).last() == y.last());
        assert(plain_char(y[y.len() - 1]));
        assert(lit_all(p).buffer + z.push(y.last()) =~= (lit_all(p).buffer + z).push(y.last()));
        assert(z.push(y.last()) =~= y);
    }
}

/// A string literal's body without brackets, comments or backslashes
/// stands for itself; a backslash is dropped before any character but `n`,
/// `t` and `r`, which keep their backslash (`\n` stays two characters).
pub proof fn law_literal_escape(x: Seq<char>, c: char, y: Seq<char>)
    requires
        forall|i: int| 0 <= i < x.len() ==> plain_char(#[trigger] x[i]),
        forall|i: int| 0 <= i < y.len() ==> plain_char(#[trigger] y[i]),
    ensures
        literal_text(x) == x,
        literal_text(x + seq!['\\', c] + y)
            == x + (if c == 'n' || c == 't' || c == 'r' { seq!['\\', c] } else { seq![c] }) + y,
{
    let e = Seq::<char>::empty();
    assert(lit_all(e) == Lit { buffer: seq![], brackets: 0, parens: 0, hash: false, escape: false });
    lemma_lit_rest(e, x);
    assert(e + x =~= x);
    assert(Seq::<char>::empty() + x =~= x);
    let sx = lit_all(x);
    assert(sx.buffer == x && sx.brackets == 0 && sx.parens == 0 && !sx.hash && !sx.escape);
    let xb = x.push('\\');
    assert(xb.drop_last() =~= x);
    assert(xb.last() == '\\');
    assert(lit_all(xb) == lit_step(sx, '\\'));
    let sb = lit_all(xb);
    assert(sb.escape && sb.buffer == x && sb.brackets == 0 && sb.parens == 0 && !sb.hash);
    let xc = xb.push(c);
    assert(xc.drop_last() =~= xb);
    assert(xc.last() == c);
    assert(lit_all(xc) == lit_step(sb, c));
    let d = if c == 'n' || c == 't' || c == 'r' { seq!['\\', c] } else { seq![c] };
    assert(lit_all(xc).buffer =~= x + d);
    lemma_lit_rest(xc, y);
    assert(x + seq!['\\', c] + y =~= xc + y);
}

/// A character of a plain word: no literal, comment or escape starts
/// with it, and it is not a separator.
pub open spec fn word_char(c: char) -> bool {
    plain_char(c) && c != ' ' && c != '\n' && c != '\t' && c != '\r' && c != '\u{3000}'
}

proof fn lemma_scan_rest(p: Seq<char>, y: Seq<char>)
    requires
        at_rest(scan_all(p)),
        forall|i: int| 0 <= i < y.len() ==> word_char(#[trigger] y[i]),
    ensures
        scan_all(p + y) == (Scan { buffer: scan_all(p).buffer + y, ..scan_all(p) }),
    decreases y.len(),
{
    if y.len() == 0 {
        assert(p + y =~= p);
        assert(scan_all(p).buffer + y =~= scan_all(p).buffer);
    } else {
        let z = y.drop_last();
        assert forall|i: int| 0 <= i < z.len() implies word_char(#[trigger] z[i]) by {
            assert(z[i] == y[i]);
        }
        lemma_scan_rest(p, z);
        assert((p + y).drop_last() =~= p + z);
        assert((p + y).last() == y.last());
        assert(word_char(y[y.len() - 1]));
        assert(normalize_blank(y.last()) == y.last());
        assert(scan_all(p).buffer + z.push(y.last()) =~= (scan_all(p).buffer + z).push(y.last()));
        assert(z.push(y.last()) =~= y);
    }
}

/// A word with an escape reads as one token: the backslash is dropped
/// before any character but `n`, `t` and `r`, which keep it.
pub proof fn law_word_escape(x: Seq<char>, c: char, y: Seq<char>)
    requires
        forall|i: int| 0 <= i < x.len() ==> word_char(#[trigger] x[i]),
        forall|i: int| 0 <= i < y.len() ==> word_char(#[trigger] y[i]),
    ensures
        tokenize(x + seq!['\\', c] + y)
            == seq![x + (if c == 'n' || c == 't' || c == 'r' { seq!['\\', c] } else { seq![normalize_blank(c)] }) + y],
{
    let e = Seq::<char>::empty();
    assert(scan_all(e) == scan_start());
    lemma_scan_rest(e, x);
    assert(e + x =~= x);
    let sx = scan_all(x);
    assert(Seq::<char>::empty() + x =~= x);
    assert(sx.buffer == x && sx.tokens.len() == 0 && at_rest(sx));
    let xb = x.push('\\');
    assert(xb.drop_last() =~= x);
    assert(xb.last() == '\\');
    assert(scan_all(xb) == scan_step(sx, '\\'));
    let sb = scan_all(xb);
    let xc = xb.push(c);
    assert(xc.drop_last() =~= xb);
    assert(xc.last() == c);
    assert(scan_all(xc) == scan_step(sb, normalize_blank(c)));
    let d = if c == 'n' || c == 't' || c == 'r' { seq!['\\', c] } else { seq![normalize_blank(c)] };
    assert(scan_all(xc).buffer =~= x + d);
    lemma_scan_rest(xc, y);
    assert(x + seq!['\\', c] + y =~= xc + y);
    assert(x + d + y == scan_all(xc + y).buffer);
    assert((x + d + y).len() > 0);
}

} // verus!
