//! A radix-compressed trie over route paths with literal, named-parameter
//! (`:name`) and trailing-wildcard (`*`) segments.

use vstd::prelude::*;
use vstd::string::StrSliceExecFns;
use vstd::string::StringExecFns;

verus! {

/// The views of a list of tokens.
pub open spec fn tokens_view(v: Seq<String>) -> Seq<Seq<char>> {
    v.map_values(|s: String| s@)
}

/// A parameter token: `:` followed by the parameter's name.
pub open spec fn is_param(t: Seq<char>) -> bool {
    t.len() > 0 && t[0] == ':'
}

/// The wildcard token.
pub open spec fn is_wild(t: Seq<char>) -> bool {
    t == seq!['*']
}

/// A literal segment may not hold the markers `:` or `*`.
pub open spec fn has_marker(p: Seq<char>) -> bool {
    exists|j: int| 0 <= j < p.len() && (p[j] == ':' || p[j] == '*')
}

/// Why a route path was refused.
pub enum PathErrorView {
    InsufficientLength,
    UnexpectedToken(Seq<char>),
}

#[derive(Debug)]
pub enum PathParseError<'a> {
    /// A parameter segment with no name.
    InsufficientLength,
    /// A segment after the wildcard, or a literal segment holding a marker.
    UnexpectedToken(&'a str),
}

impl<'a> View for PathParseError<'a> {
    type V = PathErrorView;

    open spec fn view(&self) -> PathErrorView {
        match self {
            PathParseError::InsufficientLength => PathErrorView::InsufficientLength,
            PathParseError::UnexpectedToken(s) => PathErrorView::UnexpectedToken(s@),
        }
    }
}

/// The token list with the literal run `buf` closed, if it is open.
pub open spec fn flush(xs: Seq<Seq<char>>, buf: Seq<char>) -> Seq<Seq<char>> {
    if buf.len() > 0 {
        xs.push(buf)
    } else {
        xs
    }
}

/// The literal run `buf` extended by segment `p` and its separator; a run
/// that opens the path keeps the path's leading `/`.
pub open spec fn lit_extend(buf: Seq<char>, xs: Seq<Seq<char>>, p: Seq<char>) -> Seq<char> {
    (if buf.len() == 0 && xs.len() == 0 {
        seq!['/']
    } else {
        buf
    }) + p + seq!['/']
}

/// One non-empty segment `p` taken into the parser's state: the open literal
/// run, the tokens so far, and whether the wildcard was seen.
pub open spec fn parse_step(p: Seq<char>, buf: Seq<char>, xs: Seq<Seq<char>>, end: bool) -> Result<
    (Seq<char>, Seq<Seq<char>>, bool),
    PathErrorView,
> {
    if end {
        Err(PathErrorView::UnexpectedToken(p))
    } else if p[0] == ':' {
        if p.len() < 2 {
            Err(PathErrorView::InsufficientLength)
        } else {
            Ok((Seq::empty(), flush(xs, buf).push(p), false))
        }
    } else if p == seq!['*'] {
        Ok((Seq::empty(), flush(xs, buf).push(p), true))
    } else if has_marker(p) {
        Err(PathErrorView::UnexpectedToken(p))
    } else {
        Ok((lit_extend(buf, xs, p), xs, false))
    }
}

/// Parsing `s` from position `i`, inside the segment that began at `st`.
pub open spec fn parse_from(
    s: Seq<char>,
    i: int,
    st: int,
    buf: Seq<char>,
    xs: Seq<Seq<char>>,
    end: bool,
) -> Result<Seq<Seq<char>>, PathErrorView>
    decreases s.len() - i,
{
    if i < s.len() && s[i] != '/' {
        parse_from(s, i + 1, st, buf, xs, end)
    } else {
        let next = if st >= i {
            Ok((buf, xs, end))
        } else {
            parse_step(s.subrange(st, i), buf, xs, end)
        };
        match next {
            Err(e) => Err(e),
            Ok(state) => if i >= s.len() {
                Ok(flush(state.1, state.0))
            } else {
                parse_from(s, i + 1, i + 1, state.0, state.1, state.2)
            },
        }
    }
}

/// The tokens of a route path: segments are split at `/`, empty ones
/// dropped; each run of literal segments becomes one token with a `/` after
/// each segment, `:name` a parameter token and `*` the wildcard, which must
/// come last.
pub open spec fn parse_path(s: Seq<char>) -> Result<Seq<Seq<char>>, PathErrorView> {
    parse_from(s, 0, 0, Seq::empty(), Seq::empty(), false)
}

/// Parsing never yields an empty token.
pub proof fn lemma_parse_tokens_ok(
    s: Seq<char>,
    i: int,
    st: int,
    buf: Seq<char>,
    xs: Seq<Seq<char>>,
    end: bool,
)
    requires
        0 <= st <= i <= s.len(),
        tokens_ok(xs),
        buf.len() == 0 || is_literal(buf),
    ensures
        parse_from(s, i, st, buf, xs, end) matches Ok(ts) ==> tokens_ok(ts),
    decreases s.len() - i,
{
    if i < s.len() && s[i] != '/' {
        lemma_parse_tokens_ok(s, i + 1, st, buf, xs, end);
    } else {
        let next = if st >= i {
            Ok((buf, xs, end))
        } else {
            parse_step(s.subrange(st, i), buf, xs, end)
        };
        match next {
            Err(e) => {},
            Ok(state) => {
                assert(tokens_ok(state.1) && (state.0.len() == 0 || is_literal(state.0))) by {
                    if st < i {
                        let p = s.subrange(st, i);
                        assert(p.len() > 0);
                        assert(tokens_ok(flush(xs, buf)));
                        if !end && p[0] != ':' && p != seq!['*'] && !has_marker(p) {
                            let l = lit_extend(buf, xs, p);
                            let h = if buf.len() == 0 && xs.len() == 0 { seq!['/'] } else { buf };
                            assert(l == h + p + seq!['/']);
                            assert forall|j: int| 0 <= j < l.len() implies l[j] != ':' && l[j] != '*' by {
                                if j < h.len() {
                                    assert(l[j] == h[j]);
                                } else if j < h.len() + p.len() {
                                    assert(l[j] == p[j - h.len()]);
                                } else {
                                    assert(l[j] == '/');
                                }
                            }
                        }
                    }
                }
                if i < s.len() {
                    lemma_parse_tokens_ok(s, i + 1, i + 1, state.0, state.1, state.2);
                } else {
                    assert(tokens_ok(flush(state.1, state.0)));
                }
            },
        }
    }
}

/// No two `/` characters in a row.
pub open spec fn no_double_slash_chars(t: Seq<char>) -> bool {
    forall|i: int| 0 <= i < t.len() - 1 ==> !(#[trigger] t[i] == '/' && t[i + 1] == '/')
}

pub proof fn lemma_no_double_slash_join(a: Seq<Piece>, b: Seq<Piece>)
    requires
        no_double_slash(a),
        no_double_slash(b),
        a.len() == 0 || b.len() == 0 || !(a.last() == Ok::<char, Seq<char>>('/') && b[0] == Ok::<
            char,
            Seq<char>,
        >('/')),
    ensures
        no_double_slash(a + b),
{
    let ab = a + b;
    assert forall|i: int| 0 <= i < ab.len() - 1 implies !(#[trigger] ab[i] == Ok::<char, Seq<char>>('/')
        && ab[i + 1] == Ok::<char, Seq<char>>('/')) by {
        if i + 1 < a.len() {
            assert(ab[i] == a[i] && ab[i + 1] == a[i + 1]);
            assert(!(a[i] == Ok::<char, Seq<char>>('/') && a[i + 1] == Ok::<char, Seq<char>>('/')));
        } else if i >= a.len() {
            assert(ab[i] == b[i - a.len()] && ab[i + 1] == b[i - a.len() + 1]);
            assert(!(b[i - a.len()] == Ok::<char, Seq<char>>('/') && b[i - a.len() + 1] == Ok::<
                char,
                Seq<char>,
            >('/')));
        } else {
            assert(ab[i] == a.last() && ab[i + 1] == b[0]);
        }
    }
}

/// The units of well-formed tokens whose last token is not a literal end
/// with a parameter or wildcard unit.
pub proof fn lemma_flat_last(xs: Seq<Seq<char>>)
    requires
        xs.len() > 0,
        tokens_ok(xs),
        !is_literal(xs.last()),
    ensures
        flat(xs).len() > 0,
        flat(xs).last() is Err,
{
    assert(flat(xs) == flat(xs.drop_last()) + flat_token(xs.last()));
}

pub proof fn lemma_flat_literal_no_double_slash(t: Seq<char>)
    requires
        is_literal(t),
        no_double_slash_chars(t),
    ensures
        no_double_slash(flat_token(t)),
{
    let u = flat_token(t);
    assert forall|i: int| 0 <= i < u.len() - 1 implies !(#[trigger] u[i] == Ok::<char, Seq<char>>('/')
        && u[i + 1] == Ok::<char, Seq<char>>('/')) by {
        assert(u[i] == Ok::<char, Seq<char>>(t[i]));
        assert(u[i + 1] == Ok::<char, Seq<char>>(t[i + 1]));
        assert(!(t[i] == '/' && t[i + 1] == '/'));
    }
}

/// The state of the parser keeps its tokens free of `//`.
pub open spec fn parse_state_ok(buf: Seq<char>, xs: Seq<Seq<char>>) -> bool {
    &&& tokens_ok(xs)
    &&& no_double_slash(flat(xs))
    &&& (xs.len() == 0 || !is_literal(xs.last()))
    &&& (buf.len() == 0 || (is_literal(buf) && buf.last() == '/' && no_double_slash_chars(buf)))
}

pub proof fn lemma_flush_ok(buf: Seq<char>, xs: Seq<Seq<char>>)
    requires
        parse_state_ok(buf, xs),
    ensures
        tokens_ok(flush(xs, buf)),
        no_double_slash(flat(flush(xs, buf))),
{
    if buf.len() > 0 {
        let ys = xs.push(buf);
        assert(ys.drop_last() =~= xs);
        assert(flat(ys) == flat(xs) + flat_token(buf));
        lemma_flat_literal_no_double_slash(buf);
        if xs.len() > 0 {
            lemma_flat_last(xs);
        }
        lemma_no_double_slash_join(flat(xs), flat_token(buf));
        assert(tokens_ok(ys)) by {
            assert forall|k: int| 0 <= k < ys.len() implies token_ok(#[trigger] ys[k]) by {
                if k < xs.len() {
                    assert(ys[k] == xs[k]);
                }
            }
        }
    }
}

pub proof fn lemma_push_mark_ok(buf: Seq<char>, xs: Seq<Seq<char>>, p: Seq<char>)
    requires
        parse_state_ok(buf, xs),
        token_ok(p),
        !is_literal(p),
    ensures
        parse_state_ok(Seq::empty(), flush(xs, buf).push(p)),
{
    lemma_flush_ok(buf, xs);
    let f = flush(xs, buf);
    let ys = f.push(p);
    assert(ys.drop_last() =~= f);
    assert(flat(ys) == flat(f) + flat_token(p));
    assert(flat_token(p) == seq![Err::<char, Seq<char>>(p)]);
    lemma_no_double_slash_join(flat(f), flat_token(p));
    assert forall|k: int| 0 <= k < ys.len() implies token_ok(#[trigger] ys[k]) by {
        if k < f.len() {
            assert(ys[k] == f[k]);
        }
    }
}

/// Parsing yields tokens whose units never hold `//`.
pub proof fn lemma_parse_no_double_slash(
    s: Seq<char>,
    i: int,
    st: int,
    buf: Seq<char>,
    xs: Seq<Seq<char>>,
    end: bool,
)
    requires
        0 <= st <= i <= s.len(),
        forall|j: int| st <= j < i ==> s[j] != '/',
        parse_state_ok(buf, xs),
    ensures
        parse_from(s, i, st, buf, xs, end) matches Ok(ts) ==> no_double_slash(flat(ts)),
    decreases s.len() - i,
{
    if i < s.len() && s[i] != '/' {
        lemma_parse_no_double_slash(s, i + 1, st, buf, xs, end);
    } else {
        let next = if st >= i {
            Ok((buf, xs, end))
        } else {
            parse_step(s.subrange(st, i), buf, xs, end)
        };
        match next {
            Err(e) => {},
            Ok(state) => {
                assert(parse_state_ok(state.0, state.1)) by {
                    if st < i {
                        let p = s.subrange(st, i);
                        if !end {
                            if p[0] == ':' {
                                assert(has_marker(p));
                                lemma_push_mark_ok(buf, xs, p);
                            } else if p == seq!['*'] {
                                assert(has_marker(p));
                                lemma_push_mark_ok(buf, xs, p);
                            } else if !has_marker(p) {
                                let h = if buf.len() == 0 && xs.len() == 0 {
                                    seq!['/']
                                } else {
                                    buf
                                };
                                let l = h + p + seq!['/'];
                                assert(l == lit_extend(buf, xs, p));
                                assert forall|j: int| 0 <= j < l.len() implies l[j] != ':' && l[j]
                                    != '*' by {
                                    if j < h.len() {
                                        assert(l[j] == h[j]);
                                    } else if j < h.len() + p.len() {
                                        assert(l[j] == p[j - h.len()]);
                                    } else {
                                        assert(l[j] == '/');
                                    }
                                }
                                assert forall|j: int| 0 <= j < l.len() - 1 implies !(#[trigger] l[j]
                                    == '/' && l[j + 1] == '/') by {
                                    if j + 1 < h.len() {
                                        assert(l[j] == h[j] && l[j + 1] == h[j + 1]);
                                    } else if j + 1 == h.len() {
                                        assert(l[j + 1] == p[0]);
                                        assert(p[0] == s[st]);
                                    } else if j < h.len() + p.len() {
                                        assert(l[j] == p[j - h.len()]);
                                        assert(p[j - h.len()] == s[st + j - h.len()]);
                                    }
                                }
                                assert(l.last() == '/');
                            }
                        }
                    }
                }
                if i < s.len() {
                    lemma_parse_no_double_slash(s, i + 1, i + 1, state.0, state.1, state.2);
                } else {
                    lemma_flush_ok(state.0, state.1);
                }
            },
        }
    }
}

/// Whether the text holds `:` or `*`.
fn has_marker_exec(p: &str) -> (r: bool)
    ensures
        r == has_marker(p@),
{
    let n = p.unicode_len();
    let mut j: usize = 0;
    while j < n
        invariant
            n == p@.len(),
            j <= n,
            forall|k: int| 0 <= k < j ==> p@[k] != ':' && p@[k] != '*',
        decreases n - j,
    {
        let c = p.get_char(j);
        if c == ':' || c == '*' {
            return true;
        }
        j = j + 1;
    }
    false
}

/// Splits a route path into its tokens.
pub fn parse_key<'a>(key: &'a str) -> (r: Result<Vec<String>, PathParseError<'a>>)
    ensures
        match parse_path(key@) {
            Ok(ts) => r matches Ok(v) && tokens_view(v@) == ts,
            Err(e) => r matches Err(e2) && e2@ == e,
        },
        r matches Ok(v) ==> tokens_ok(tokens_view(v@)),
        r matches Ok(v) ==> no_double_slash(flat(tokens_view(v@))),
{
    proof {
        reveal_strlit("/");
    }
    let n = key.unicode_len();
    let mut xs: Vec<String> = Vec::new();
    let mut buf = String::new();
    let mut end = false;
    let mut st: usize = 0;
    let mut i: usize = 0;
    assert(tokens_view(xs@) =~= Seq::<Seq<char>>::empty());
    loop
        invariant
            n == key@.len(),
            st <= i <= n,
            parse_from(key@, i as int, st as int, buf@, tokens_view(xs@), end) == parse_path(key@),
        decreases n - i,
    {
        if i < n && key.get_char(i) != '/' {
            i = i + 1;
            continue;
        }
        let ghost xs0 = tokens_view(xs@);
        let ghost buf0 = buf@;
        let ghost end0 = end;
        let ghost next = if st >= i {
            Ok((buf0, xs0, end0))
        } else {
            parse_step(key@.subrange(st as int, i as int), buf0, xs0, end0)
        };
        assert(parse_from(key@, i as int, st as int, buf0, xs0, end0) == match next {
            Err(e) => Err(e),
            Ok(state) => if i >= n {
                Ok(flush(state.1, state.0))
            } else {
                parse_from(key@, i + 1, i + 1, state.0, state.1, state.2)
            },
        });
        if st < i {
            let p = key.substring_char(st, i);
            if end {
                return Err(PathParseError::UnexpectedToken(p));
            }
            let c0 = p.get_char(0);
            if c0 == ':' {
                if i - st < 2 {
                    return Err(PathParseError::InsufficientLength);
                }
                if !buf.as_str().is_empty() {
                    xs.push(buf);
                    buf = String::new();
                }
                xs.push(String::from_str(p));
                assert(tokens_view(xs@) =~= flush(xs0, buf0).push(p@));
                assert(buf@ =~= Seq::<char>::empty());
            } else if i - st == 1 && c0 == '*' {
                assert(p@ =~= seq!['*']);
                if !buf.as_str().is_empty() {
                    xs.push(buf);
                    buf = String::new();
                }
                xs.push(String::from_str(p));
                end = true;
                assert(tokens_view(xs@) =~= flush(xs0, buf0).push(p@));
                assert(buf@ =~= Seq::<char>::empty());
            } else {
                assert(p@ != seq!['*']);
                if has_marker_exec(p) {
                    return Err(PathParseError::UnexpectedToken(p));
                }
                if buf.as_str().is_empty() && xs.len() == 0 {
                    buf.append("/");
                }
                let ghost mid = buf@;
                proof {
                    reveal_strlit("/");
                    assert("/"@.len() == 1);
                    assert("/"@[0] == '/');
                }
                assert("/"@ =~= seq!['/']);
                assert(mid =~= if buf0.len() == 0 && xs0.len() == 0 { seq!['/'] } else { buf0 });
                buf.append(p);
                buf.append("/");
                assert(buf@ =~= lit_extend(buf0, xs0, p@));
            }
        }
        if i >= n {
            if !buf.as_str().is_empty() {
                let ghost xs1 = tokens_view(xs@);
                xs.push(buf);
                assert(tokens_view(xs@) =~= xs1.push(buf@));
            }
            assert(parse_path(key@) == Ok::<Seq<Seq<char>>, PathErrorView>(tokens_view(xs@)));
            proof {
                lemma_parsed_tokens(key@, tokens_view(xs@));
            }
            assert(tokens_ok(tokens_view(xs@)));
            return Ok(xs);
        }
        assert(next == Ok::<(Seq<char>, Seq<Seq<char>>, bool), PathErrorView>((buf@, tokens_view(xs@), end)));
        i = i + 1;
        st = i;
    }
}

/// The longest common prefix of `a` and `b`, as a slice of `a`.
pub fn common_str<'a, 'b>(a: &'a str, b: &'b str) -> (r: &'a str)
    ensures
        r@.len() <= a@.len(),
        r@.len() <= b@.len(),
        r@ == a@.subrange(0, r@.len() as int),
        r@ == b@.subrange(0, r@.len() as int),
        r@.len() == a@.len() || r@.len() == b@.len() || a@[r@.len() as int] != b@[r@.len() as int],
{
    let na = a.unicode_len();
    let nb = b.unicode_len();
    let min = if na < nb { na } else { nb };
    let mut i: usize = 0;
    while i < min
        invariant
            na == a@.len(),
            nb == b@.len(),
            min <= na && min <= nb,
            i <= min,
            a@.subrange(0, i as int) == b@.subrange(0, i as int),
        decreases min - i,
    {
        if a.get_char(i) != b.get_char(i) {
            return a.substring_char(0, i);
        }
        assert(a@.subrange(0, i + 1) =~= b@.subrange(0, i + 1)) by {
            assert(a@.subrange(0, i + 1) =~= a@.subrange(0, i as int).push(a@[i as int]));
            assert(b@.subrange(0, i + 1) =~= b@.subrange(0, i as int).push(b@[i as int]));
        }
        i = i + 1;
    }
    a.substring_char(0, min)
}

/// Where the first `c` at or after `i` is, or the end.
pub open spec fn upto(a: Seq<char>, c: char, i: int) -> int
    decreases a.len() - i,
{
    if i < 0 || i >= a.len() || a[i] == c {
        i
    } else {
        upto(a, c, i + 1)
    }
}

/// The part of `a` before the first occurrence of the one-character text
/// `b`; all of `a` when `b` is not one character or does not occur.
pub fn until<'a, 'b>(a: &'a str, b: &'b str) -> (r: &'a str)
    ensures
        b@.len() != 1 ==> r@ == a@,
        b@.len() == 1 ==> r@ == a@.subrange(0, upto(a@, b@[0], 0)),
{
    if b.unicode_len() != 1 {
        return a;
    }
    let stop = b.get_char(0);
    let n = a.unicode_len();
    let mut i: usize = 0;
    while i < n
        invariant
            n == a@.len(),
            b@.len() == 1,
            stop == b@[0],
            i <= n,
            upto(a@, stop, i as int) == upto(a@, stop, 0),
        decreases n - i,
    {
        if a.get_char(i) == stop {
            return a.substring_char(0, i);
        }
        i = i + 1;
    }
    a.substring_char(0, n)
}

/// How many leading tokens of `a` and `b` are equal.
pub fn compare_keys(a: &[String], b: &[String]) -> (r: usize)
    ensures
        r <= a@.len(),
        r <= b@.len(),
        forall|j: int| 0 <= j < r ==> a@[j]@ == b@[j]@,
        r == a@.len() || r == b@.len() || a@[r as int]@ != b@[r as int]@,
{
    let min = if a.len() < b.len() { a.len() } else { b.len() };
    let mut i: usize = 0;
    while i < min
        invariant
            min <= a@.len() && min <= b@.len(),
            i <= min,
            forall|j: int| 0 <= j < i ==> a@[j]@ == b@[j]@,
        decreases min - i,
    {
        if a[i] != b[i] {
            return i;
        }
        i = i + 1;
    }
    min
}

/// A trie node: the tokens it stands for, the value of the route that ends
/// here, if any, and its children.
#[derive(Debug, PartialEq, Eq)]
pub struct Node<T> {
    pub path: Vec<String>,
    pub data: Option<T>,
    pub children: Vec<Node<T>>,
}

/// Captured parameter values: name and matched text, in route order.
pub type Captures = Seq<(Seq<char>, Seq<char>)>;

pub open spec fn captures_view(v: Seq<(String, String)>) -> Captures {
    v.map_values(|p: (String, String)| (p.0@, p.1@))
}

/// Where the path segment that starts at `i` ends: the next `/` or the end.
pub open spec fn seg_end(q: Seq<char>, i: int) -> int
    decreases q.len() - i,
{
    if i < 0 || i >= q.len() || q[i] == '/' {
        i
    } else {
        seg_end(q, i + 1)
    }
}

pub proof fn lemma_seg_end(q: Seq<char>, i: int)
    requires
        0 <= i <= q.len(),
    ensures
        i <= seg_end(q, i) <= q.len(),
        seg_end(q, i) < q.len() ==> q[seg_end(q, i)] == '/',
        forall|j: int| i <= j < seg_end(q, i) ==> q[j] != '/',
    decreases q.len() - i,
{
    if i < q.len() && q[i] != '/' {
        lemma_seg_end(q, i + 1);
    }
}

/// Matching token `t` against the path `q` at position `pos`: where the
/// match ends, and the parameter it captures. A literal must appear as it
/// is, or, at the very end of the path, without its closing `/`. A
/// parameter takes one non-empty segment (after an optional `/`) and the
/// `/` that closes it. The wildcard takes the rest of the path.
pub open spec fn match_token(t: Seq<char>, q: Seq<char>, pos: int) -> Option<
    (int, Option<(Seq<char>, Seq<char>)>),
> {
    if is_wild(t) {
        Some((q.len() as int, None))
    } else if is_param(t) {
        let seg_start = if pos < q.len() && q[pos] == '/' {
            pos + 1
        } else {
            pos
        };
        let e = seg_end(q, seg_start);
        if e == seg_start {
            None
        } else {
            Some(
                (
                    if e < q.len() {
                        e + 1
                    } else {
                        e
                    },
                    Some((t.skip(1), q.subrange(seg_start, e))),
                ),
            )
        }
    } else if pos + t.len() <= q.len() && q.subrange(pos, pos + t.len()) == t {
        Some((pos + t.len(), None))
    } else if t.len() > 0 && t.last() == '/' && pos + t.len() - 1 == q.len() && q.subrange(
        pos,
        q.len() as int,
    ) == t.drop_last() {
        Some((q.len() as int, None))
    } else {
        None
    }
}

pub open spec fn capture_seq(c: Option<(Seq<char>, Seq<char>)>) -> Captures {
    match c {
        Some(x) => seq![x],
        None => Seq::empty(),
    }
}

/// Matching the tokens `ts` from index `k` one after another from `pos`.
pub open spec fn match_tokens(ts: Seq<Seq<char>>, k: int, q: Seq<char>, pos: int) -> Option<(int, Captures)>
    decreases ts.len() - k,
{
    if k < 0 || k >= ts.len() {
        Some((pos, Seq::empty()))
    } else {
        match match_token(ts[k], q, pos) {
            None => None,
            Some((after, cap)) => match match_tokens(ts, k + 1, q, after) {
                None => None,
                Some((end_at, caps)) => Some((end_at, capture_seq(cap) + caps)),
            },
        }
    }
}

/// The first route, in order, among the children of `node` from index `i`
/// on, that matches the path `q` from `pos` to its end: its value and its
/// captures.
pub open spec fn search<T>(node: Node<T>, q: Seq<char>, pos: int, i: int) -> Option<(T, Captures)>
    decreases node, node.children@.len() - i,
{
    if 0 <= i < node.children@.len() {
        let c = node.children@[i];
        let here = match match_tokens(tokens_view(c.path@), 0, q, pos) {
            None => None,
            Some((p, caps)) => if p == q.len() && c.data.is_some() {
                Some((c.data.unwrap(), caps))
            } else {
                match search(c, q, p, 0) {
                    Some((v, more)) => Some((v, caps + more)),
                    None => None,
                }
            },
        };
        if here.is_some() {
            here
        } else {
            search(node, q, pos, i + 1)
        }
    } else {
        None
    }
}

/// The route of the trie rooted at `node` that the path `q` takes.
pub open spec fn lookup<T>(node: Node<T>, q: Seq<char>) -> Option<(T, Captures)> {
    match match_tokens(tokens_view(node.path@), 0, q, 0) {
        None => None,
        Some((p, caps)) => if p == q.len() && node.data.is_some() {
            Some((node.data.unwrap(), caps))
        } else {
            match search(node, q, p, 0) {
                Some((v, more)) => Some((v, caps + more)),
                None => None,
            }
        },
    }
}

/// Whether `t` occurs in `q` at `pos`.
fn occurs_at(t: &str, q: &str, pos: usize) -> (r: bool)
    requires
        pos <= q@.len(),
    ensures
        r == (pos + t@.len() <= q@.len() && q@.subrange(pos as int, pos + t@.len()) == t@),
{
    let tn = t.unicode_len();
    let qn = q.unicode_len();
    if tn > qn - pos {
        return false;
    }
    let mut j: usize = 0;
    while j < tn
        invariant
            tn == t@.len(),
            qn == q@.len(),
            pos + tn <= qn,
            j <= tn,
            forall|k: int| 0 <= k < j ==> q@[pos + k] == t@[k],
        decreases tn - j,
    {
        if q.get_char(pos + j) != t.get_char(j) {
            assert(q@.subrange(pos as int, pos + t@.len())[j as int] != t@[j as int]);
            return false;
        }
        j = j + 1;
    }
    assert(q@.subrange(pos as int, pos + t@.len()) =~= t@);
    true
}

/// Where the segment of `q` that starts at `i` ends.
fn seg_end_exec(q: &str, i: usize) -> (r: usize)
    requires
        i <= q@.len(),
    ensures
        r == seg_end(q@, i as int),
{
    let n = q.unicode_len();
    let mut j = i;
    while j < n && q.get_char(j) != '/'
        invariant
            n == q@.len(),
            i <= j <= n,
            seg_end(q@, j as int) == seg_end(q@, i as int),
        decreases n - j,
    {
        j = j + 1;
    }
    j
}

/// Matches one token; see `match_token`.
fn match_token_exec(t: &str, q: &str, pos: usize) -> (r: Option<(usize, Option<(String, String)>)>)
    requires
        pos <= q@.len(),
    ensures
        match match_token(t@, q@, pos as int) {
            None => r is None,
            Some((p, c)) => r matches Some((rp, rc)) && rp == p && match c {
                None => rc is None,
                Some(x) => rc matches Some(y) && y.0@ == x.0 && y.1@ == x.1,
            },
        },
        r matches Some((rp, _)) ==> rp <= q@.len(),
{
    proof {
        reveal_strlit("*");
    }
    let tn = t.unicode_len();
    let qn = q.unicode_len();
    if tn == 1 && t.get_char(0) == '*' {
        assert(t@ =~= seq!['*']);
        return Some((qn, None));
    }
    assert(!is_wild(t@));
    if tn > 0 && t.get_char(0) == ':' {
        let seg_start = if pos < qn && q.get_char(pos) == '/' { pos + 1 } else { pos };
        proof {
            lemma_seg_end(q@, seg_start as int);
        }
        let e = seg_end_exec(q, seg_start);
        if e == seg_start {
            return None;
        }
        let name = String::from_str(t.substring_char(1, tn));
        let value = String::from_str(q.substring_char(seg_start, e));
        assert(name@ =~= t@.skip(1));
        let next = if e < qn { e + 1 } else { e };
        return Some((next, Some((name, value))));
    }
    if occurs_at(t, q, pos) {
        return Some((pos + tn, None));
    }
    if tn > 0 && t.get_char(tn - 1) == '/' && tn - 1 == qn - pos {
        let head = t.substring_char(0, tn - 1);
        if occurs_at(head, q, pos) {
            assert(head@ =~= t@.drop_last());
            assert(q@.subrange(pos as int, q@.len() as int) =~= t@.drop_last());
            return Some((qn, None));
        }
        assert(head@ =~= t@.drop_last());
    }
    None
}

/// Matches the tokens of a node one after another; see `match_tokens`.
pub fn match_route(keys: &Vec<String>, q: &str, pos: usize) -> (r: Option<(usize, Vec<(String, String)>)>)
    requires
        pos <= q@.len(),
    ensures
        match match_tokens(tokens_view(keys@), 0, q@, pos as int) {
            None => r is None,
            Some((p, caps)) => r matches Some((rp, rc)) && rp == p && captures_view(rc@) == caps,
        },
        r matches Some((rp, _)) ==> rp <= q@.len(),
{
    let ghost ts = tokens_view(keys@);
    let mut caps: Vec<(String, String)> = Vec::new();
    let mut at = pos;
    let mut k: usize = 0;
    assert(captures_view(caps@) =~= Seq::<(Seq<char>, Seq<char>)>::empty());
    while k < keys.len()
        invariant
            ts == tokens_view(keys@),
            k <= keys@.len(),
            at <= q@.len(),
            match_tokens(ts, 0, q@, pos as int) == match match_tokens(ts, k as int, q@, at as int) {
                None => None,
                Some((end_at, c)) => Some((end_at, captures_view(caps@) + c)),
            },
        decreases keys@.len() - k,
    {
        let ghost before = captures_view(caps@);
        match match_token_exec(keys[k].as_str(), q, at) {
            None => {
                return None;
            },
            Some((next, cap)) => {
                let ghost c = match match_token(ts[k as int], q@, at as int) {
                    Some((_, c)) => c,
                    None => None,
                };
                match cap {
                    Some(x) => {
                        caps.push(x);
                    },
                    None => {},
                }
                assert(captures_view(caps@) =~= before + capture_seq(c));
                proof {
                    let rest = match_tokens(ts, k + 1, q@, next as int);
                    match rest {
                        Some((end_at, cc)) => {
                            assert(before + (capture_seq(c) + cc) =~= captures_view(caps@) + cc);
                        },
                        None => {},
                    }
                }
                at = next;
            },
        }
        k = k + 1;
    }
    assert(captures_view(caps@) + Seq::<(Seq<char>, Seq<char>)>::empty() =~= captures_view(caps@));
    Some((at, caps))
}

/// Captured parameters of one lookup.
#[derive(Debug)]
pub struct Params {
    pub pairs: Vec<(String, String)>,
}

/// The value captured for `name` first in route order.
pub open spec fn capture_of(c: Captures, name: Seq<char>) -> Option<Seq<char>>
    decreases c.len(),
{
    if c.len() == 0 {
        None
    } else if c[0].0 == name {
        Some(c[0].1)
    } else {
        capture_of(c.skip(1), name)
    }
}

impl Params {
    pub fn new() -> (r: Params)
        ensures
            r@ == Seq::<(Seq<char>, Seq<char>)>::empty(),
    {
        let r = Params { pairs: Vec::new() };
        assert(r@ =~= Seq::<(Seq<char>, Seq<char>)>::empty());
        r
    }

    pub open spec fn view(&self) -> Captures {
        captures_view(self.pairs@)
    }

    pub fn len(&self) -> (r: usize)
        ensures
            r == self@.len(),
    {
        self.pairs.len()
    }

    /// The value captured for `name`.
    pub fn get(&self, name: &str) -> (r: Option<&str>)
        ensures
            match capture_of(self@, name@) {
                None => r is None,
                Some(v) => r matches Some(s) && s@ == v,
            },
    {
        let mut i: usize = 0;
        assert(self@.skip(0) =~= self@);
        while i < self.pairs.len()
            invariant
                i <= self.pairs@.len(),
                capture_of(self@, name@) == capture_of(self@.skip(i as int), name@),
            decreases self.pairs@.len() - i,
        {
            let ghost rest = self@.skip(i as int);
            assert(rest.skip(1) =~= self@.skip(i + 1));
            if str_eq(self.pairs[i].0.as_str(), name) {
                return Some(self.pairs[i].1.as_str());
            }
            i = i + 1;
        }
        None
    }
}

/// Whether two texts are equal.
pub fn str_eq(a: &str, b: &str) -> (r: bool)
    ensures
        r == (a@ == b@),
{
    let n = a.unicode_len();
    if n != b.unicode_len() {
        return false;
    }
    let mut i: usize = 0;
    while i < n
        invariant
            n == a@.len() && n == b@.len(),
            i <= n,
            forall|j: int| 0 <= j < i ==> a@[j] == b@[j],
        decreases n - i,
    {
        if a.get_char(i) != b.get_char(i) {
            return false;
        }
        i = i + 1;
    }
    assert(a@ =~= b@);
    true
}

impl<T> Node<T> {
    pub fn new(path: Vec<String>) -> (r: Self)
        ensures
            r.path@ == path@,
            r.data is None,
            r.children@.len() == 0,
    {
        Node { path, data: None, children: Vec::new() }
    }

    /// The first route among the children from `pos` on.
    fn search_children<'a>(&'a self, q: &str, pos: usize) -> (r: Option<(&'a T, Vec<(String, String)>)>)
        requires
            pos <= q@.len(),
        ensures
            match search(*self, q@, pos as int, 0) {
                None => r is None,
                Some((v, caps)) => r matches Some((rv, rc)) && *rv == v && captures_view(rc@) == caps,
            },
        decreases self,
    {
        let mut i: usize = 0;
        while i < self.children.len()
            invariant
                i <= self.children@.len(),
                pos <= q@.len(),
                search(*self, q@, pos as int, 0) == search(*self, q@, pos as int, i as int),
            decreases self.children@.len() - i,
        {
            let c = &self.children[i];
            match match_route(&c.path, q, pos) {
                None => {},
                Some((p, caps)) => {
                    if p == q.unicode_len() && c.data.is_some() {
                        return Some((c.data.as_ref().unwrap(), caps));
                    }
                    match c.search_children(q, p) {
                        Some((v, more)) => {
                            let mut all = caps;
                            let mut more = more;
                            let ghost m0 = captures_view(more@);
                            let ghost a0 = captures_view(all@);
                            all.append(&mut more);
                            assert(captures_view(all@) =~= a0 + m0);
                            return Some((v, all));
                        },
                        None => {},
                    }
                },
            }
            i = i + 1;
        }
        None
    }

    /// The value and the captured parameters of the route that `key` takes.
    pub fn get<'a>(&'a self, key: &str) -> (r: Option<(&'a T, Params)>)
        ensures
            match lookup(*self, key@) {
                None => r is None,
                Some((v, caps)) => r matches Some((rv, ps)) && *rv == v && ps@ == caps,
            },
    {
        match match_route(&self.path, key, 0) {
            None => None,
            Some((p, caps)) => {
                if p == key.unicode_len() && self.data.is_some() {
                    return Some((self.data.as_ref().unwrap(), Params { pairs: caps }));
                }
                match self.search_children(key, p) {
                    Some((v, more)) => {
                        let mut all = caps;
                        let mut more = more;
                        let ghost m0 = captures_view(more@);
                        let ghost a0 = captures_view(all@);
                        all.append(&mut more);
                        assert(captures_view(all@) =~= a0 + m0);
                        Some((v, Params { pairs: all }))
                    },
                    None => None,
                }
            },
        }
    }
}

/// A literal token: non-empty, without markers.
pub open spec fn is_literal(t: Seq<char>) -> bool {
    t.len() > 0 && !has_marker(t)
}

/// A token is a literal, a named parameter or the wildcard.
pub open spec fn token_ok(t: Seq<char>) -> bool {
    is_literal(t) || (is_param(t) && t.len() >= 2) || is_wild(t)
}

/// Every token is well formed.
pub open spec fn tokens_ok(ts: Seq<Seq<char>>) -> bool {
    forall|k: int| 0 <= k < ts.len() ==> token_ok(#[trigger] ts[k])
}

/// Every node below `n` stands for at least one token, and no token is empty.
pub open spec fn wf_node<T>(n: Node<T>) -> bool
    decreases n,
{
    &&& siblings_apart(n.children@)
    &&& forall|i: int|
        0 <= i < n.children@.len() ==> {
            &&& (#[trigger] n.children@[i]).path@.len() > 0
            &&& tokens_ok(tokens_view(n.children@[i].path@))
            &&& wf_node(n.children@[i])
        }
}

/// The first unit of a child's tokens.
pub open spec fn first_unit<T>(c: Node<T>) -> Piece {
    flat(tokens_view(c.path@))[0]
}

/// Two first units of siblings: different, and not both parameters, so
/// that siblings share no prefix and at most one of them is a parameter.
pub open spec fn units_apart(u: Piece, v: Piece) -> bool {
    u != v && !(param_unit(u) && param_unit(v))
}

/// No two children begin with the same unit, and at most one begins with a
/// parameter.
pub open spec fn siblings_apart<T>(cs: Seq<Node<T>>) -> bool {
    forall|i: int, j: int|
        0 <= i < cs.len() && 0 <= j < cs.len() && i != j ==> units_apart(
            #[trigger] first_unit(cs[i]),
            #[trigger] first_unit(cs[j]),
        )
}

pub proof fn lemma_apart_replace<T>(before: Seq<Node<T>>, after: Seq<Node<T>>, i: int)
    requires
        siblings_apart(before),
        before.len() == after.len(),
        0 <= i < before.len(),
        forall|x: int| 0 <= x < before.len() && x != i ==> after[x] == before[x],
        first_unit(after[i]) == first_unit(before[i]) || (param_unit(first_unit(before[i]))
            && param_unit(first_unit(after[i]))),
    ensures
        siblings_apart(after),
{
    assert forall|a: int, b: int|
        0 <= a < after.len() && 0 <= b < after.len() && a != b implies units_apart(
        #[trigger] first_unit(after[a]),
        #[trigger] first_unit(after[b]),
    ) by {
        assert(units_apart(first_unit(before[a]), first_unit(before[b])));
        if a == i {
            assert(after[b] == before[b]);
        } else if b == i {
            assert(after[a] == before[a]);
        } else {
            assert(after[a] == before[a] && after[b] == before[b]);
        }
    }
}

pub proof fn lemma_apart_front<T>(before: Seq<Node<T>>, after: Seq<Node<T>>)
    requires
        siblings_apart(before),
        after.len() == before.len() + 1,
        forall|x: int| 0 <= x < before.len() ==> after[x + 1] == before[x],
        forall|x: int| 0 <= x < before.len() ==> units_apart(first_unit(before[x]), first_unit(after[0])),
    ensures
        siblings_apart(after),
{
    assert forall|a: int, b: int|
        0 <= a < after.len() && 0 <= b < after.len() && a != b implies units_apart(
        #[trigger] first_unit(after[a]),
        #[trigger] first_unit(after[b]),
    ) by {
        if a == 0 {
            assert(after[b] == before[b - 1]);
            assert(units_apart(first_unit(before[b - 1]), first_unit(after[0])));
        } else if b == 0 {
            assert(after[a] == before[a - 1]);
            assert(units_apart(first_unit(before[a - 1]), first_unit(after[0])));
        } else {
            assert(after[a] == before[a - 1] && after[b] == before[b - 1]);
            assert(units_apart(first_unit(before[a - 1]), first_unit(before[b - 1])));
        }
    }
}

/// Cutting a node keeps its first unit.
pub proof fn lemma_first_unit_split<T>(c: Node<T>, s: Node<T>)
    requires
        split_of(c, s),
        flat(tokens_view(s.path@)).len() > 0,
    ensures
        first_unit(s) == first_unit(c),
{
}

/// The first unit of a route's tokens.
pub proof fn lemma_first_units(t: Seq<char>, u: Seq<char>)
    requires
        token_ok(t),
        token_ok(u),
        t[0] != u[0],
        !(is_param(t) && is_param(u)),
    ensures
        units_apart(flat_token(t)[0], flat_token(u)[0]),
{
    if is_literal(t) {
        assert(flat_token(t)[0] == Ok::<char, Seq<char>>(t[0]));
    }
    if is_literal(u) {
        assert(flat_token(u)[0] == Ok::<char, Seq<char>>(u[0]));
    }
    if !is_literal(t) && !is_literal(u) {
        assert(flat_token(t)[0] == Err::<char, Seq<char>>(t));
        assert(flat_token(u)[0] == Err::<char, Seq<char>>(u));
        assert(t != u);
    }
    if !is_literal(t) && is_literal(u) {
        assert(flat_token(t)[0] == Err::<char, Seq<char>>(t));
    }
    if is_literal(t) && !is_literal(u) {
        assert(flat_token(u)[0] == Err::<char, Seq<char>>(u));
    }
}

pub proof fn lemma_tokens_view_subrange(v: Seq<String>, a: int, b: int)
    requires
        0 <= a <= b <= v.len(),
    ensures
        tokens_view(v.subrange(a, b)) == tokens_view(v).subrange(a, b),
{
    assert(tokens_view(v.subrange(a, b)) =~= tokens_view(v).subrange(a, b));
}

pub proof fn lemma_tokens_view_push(v: Seq<String>, x: String)
    ensures
        tokens_view(v.push(x)) == tokens_view(v).push(x@),
{
    assert(tokens_view(v.push(x)) =~= tokens_view(v).push(x@));
}

pub proof fn lemma_tokens_view_insert(v: Seq<String>, x: String)
    ensures
        tokens_view(v.insert(0, x)) == seq![x@] + tokens_view(v),
{
    assert(tokens_view(v.insert(0, x)) =~= seq![x@] + tokens_view(v));
}

/// Whether the token is a parameter token.
fn is_param_exec(t: &str) -> (r: bool)
    ensures
        r == is_param(t@),
{
    t.unicode_len() > 0 && t.get_char(0) == ':'
}

pub proof fn lemma_literal_subrange(t: Seq<char>, a: int, b: int)
    requires
        is_literal(t),
        0 <= a < b <= t.len(),
    ensures
        is_literal(t.subrange(a, b)),
{
    let u = t.subrange(a, b);
    assert forall|j: int| 0 <= j < u.len() implies u[j] != ':' && u[j] != '*' by {
        assert(u[j] == t[a + j]);
    }
}


/// Some node below `n` has the token `t` among its tokens.
pub open spec fn has_token<T>(n: Node<T>, t: Seq<char>) -> bool
    decreases n,
{
    exists|i: int|
        #![trigger n.children@[i]]
        0 <= i < n.children@.len() && (tokens_view(n.children@[i].path@).contains(t) || has_token(
            n.children@[i],
            t,
        ))
}

/// `t` is in child `i` of `n` or below it.
pub open spec fn token_via<T>(n: Node<T>, i: int, t: Seq<char>) -> bool {
    0 <= i < n.children@.len() && (tokens_view(n.children@[i].path@).contains(t) || has_token(
        n.children@[i],
        t,
    ))
}

pub proof fn lemma_token_cases<T>(n: Node<T>, t: Seq<char>)
    requires
        has_token(n, t),
    ensures
        exists|i: int| #[trigger] token_via(n, i, t),
{
    let i = choose|i: int|
        #![trigger n.children@[i]]
        0 <= i < n.children@.len() && (tokens_view(n.children@[i].path@).contains(t) || has_token(
            n.children@[i],
            t,
        ));
    assert(token_via(n, i, t));
}

pub proof fn lemma_token_from_via<T>(n: Node<T>, i: int, t: Seq<char>)
    requires
        token_via(n, i, t),
    ensures
        has_token(n, t),
{
    assert(0 <= i < n.children@.len());
}

pub proof fn lemma_token_same_below<T>(a: Node<T>, b: Node<T>, t: Seq<char>)
    requires
        a.children == b.children,
    ensures
        has_token(a, t) == has_token(b, t),
{
    assert(a.children@ == b.children@);
}

/// Every parameter or wildcard token of `s`, its own or below it, is one of
/// `c`'s.
pub open spec fn marks_from<T>(c: Node<T>, s: Node<T>) -> bool {
    forall|t: Seq<char>| !is_literal(t) && #[trigger] marked(s, t) ==> marked(c, t)
}

/// `t` is one of the node's own tokens or is below it.
pub open spec fn marked<T>(n: Node<T>, t: Seq<char>) -> bool {
    tokens_view(n.path@).contains(t) || has_token(n, t)
}

/// A leaf holding the route's remaining tokens and its value.
fn leaf<T>(path: Vec<String>, value: T) -> (r: Node<T>)
    requires
        path@.len() > 0,
        tokens_ok(tokens_view(path@)),
    ensures
        r.path@ == path@,
        r.data == Some(value),
        r.children@.len() == 0,
        wf_node(r),
{
    Node { path, data: Some(value), children: Vec::new() }
}

/// `node` cut after its first `j` tokens: the rest moves, with the value
/// and the children, into the single child of a new node.
fn split_at_token<T>(node: Node<T>, j: usize) -> (r: Node<T>)
    requires
        0 < j < node.path@.len(),
        tokens_ok(tokens_view(node.path@)),
        wf_node(node),
    ensures
        r.path@ == node.path@.subrange(0, j as int),
        r.data is None,
        r.children@.len() == 1,
        r.children@[0].path@ == node.path@.subrange(j as int, node.path@.len() as int),
        r.children@[0].data == node.data,
        r.children@[0].children == node.children,
        tokens_ok(tokens_view(r.path@)),
        wf_node(r),
        split_of(node, r),
        marks_from(node, r),
{
    let Node { mut path, data, children } = node;
    let ghost whole = path@;
    let rest = path.split_off(j);
    proof {
        lemma_tokens_view_subrange(whole, 0, j as int);
        lemma_tokens_view_subrange(whole, j as int, whole.len() as int);
    }
    let lower = Node { path: rest, data, children };
    assert(tokens_ok(tokens_view(lower.path@)));
    assert(wf_node(lower));
    let mut cs: Vec<Node<T>> = Vec::new();
    cs.push(lower);
    let r = Node { path, data: None, children: cs };
    assert(r.children@[0] == lower);
    proof {
        assert(tokens_view(whole) =~= tokens_view(r.path@) + tokens_view(lower.path@));
        lemma_flat_concat(tokens_view(r.path@), tokens_view(lower.path@));
        lemma_flat_nonempty(tokens_view(lower.path@));
        assert forall|t: Seq<char>|
            !is_literal(t) && #[trigger] marked(r, t) implies marked(node, t) by {
            if tokens_view(r.path@).contains(t) {
                let x = choose|x: int| 0 <= x < tokens_view(r.path@).len() && tokens_view(r.path@)[x] == t;
                assert(tokens_view(whole)[x] == t);
            } else {
                lemma_token_cases(r, t);
                let x = choose|x: int| #[trigger] token_via(r, x, t);
                assert(x == 0);
                if tokens_view(lower.path@).contains(t) {
                    let y = choose|y: int| 0 <= y < tokens_view(lower.path@).len() && tokens_view(lower.path@)[y] == t;
                    assert(tokens_view(whole)[j + y] == t);
                } else {
                    lemma_token_same_below(lower, node, t);
                }
            }
        }
    }
    r
}

/// `node` with its first token cut after `k` characters: the first part
/// stays, the rest of the node moves into the single child of a new node.
fn split_first_token<T>(node: Node<T>, k: usize) -> (r: Node<T>)
    requires
        node.path@.len() > 0,
        0 < k < node.path@[0]@.len(),
        is_literal(node.path@[0]@),
        tokens_ok(tokens_view(node.path@)),
        wf_node(node),
    ensures
        r.path@.len() == 1,
        r.path@[0]@ == node.path@[0]@.subrange(0, k as int),
        r.data is None,
        r.children@.len() == 1,
        tokens_view(r.children@[0].path@) == seq![
            node.path@[0]@.subrange(k as int, node.path@[0]@.len() as int),
        ] + tokens_view(node.path@).skip(1),
        r.children@[0].data == node.data,
        r.children@[0].children == node.children,
        tokens_ok(tokens_view(r.path@)),
        wf_node(r),
        split_of(node, r),
        marks_from(node, r),
{
    let Node { mut path, data, children } = node;
    let ghost old_path = tokens_view(path@);
    let first = path.remove(0);
    let n = first.as_str().unicode_len();
    let head = String::from_str(first.as_str().substring_char(0, k));
    let tail = String::from_str(first.as_str().substring_char(k, n));
    proof {
        lemma_literal_subrange(first@, 0, k as int);
        lemma_literal_subrange(first@, k as int, n as int);
        assert(token_ok(old_path[0]));
    }
    let ghost after_remove = path@;
    path.insert(0, tail);
    proof {
        lemma_tokens_view_insert(after_remove, tail);
        assert(tokens_view(after_remove) =~= old_path.skip(1));
    }
    assert(tokens_view(path@) =~= seq![tail@] + old_path.skip(1));
    assert(tokens_ok(tokens_view(path@)));
    let lower = Node { path, data, children };
    assert(wf_node(lower));
    let mut cs: Vec<Node<T>> = Vec::new();
    cs.push(lower);
    let mut top: Vec<String> = Vec::new();
    top.push(head);
    let r = Node { path: top, data: None, children: cs };
    assert(r.children@[0] == lower);
    assert(tokens_view(r.path@) =~= seq![head@]);
    proof {
        let t = old_path[0];
        let rest = old_path.skip(1);
        assert(old_path =~= seq![t] + rest);
        lemma_flat_concat(seq![t], rest);
        lemma_flat_one(t);
        lemma_flat_literal_cut(t, k as int);
        assert(head@ == t.subrange(0, k as int));
        assert(tail@ == t.subrange(k as int, t.len() as int));
        lemma_flat_concat(seq![tail@], rest);
        lemma_flat_one(tail@);
        lemma_flat_one(head@);
        assert(flat(old_path) =~= flat(seq![head@]) + flat(seq![tail@] + rest));
        lemma_flat_nonempty(tokens_view(lower.path@));
        assert forall|t: Seq<char>|
            !is_literal(t) && #[trigger] marked(r, t) implies marked(node, t) by {
            if tokens_view(r.path@).contains(t) {
                assert(tokens_view(r.path@)[0] == head@);
            } else {
                lemma_token_cases(r, t);
                let x = choose|x: int| #[trigger] token_via(r, x, t);
                assert(x == 0);
                let lp = tokens_view(lower.path@);
                if lp.contains(t) {
                    let y = choose|y: int| 0 <= y < lp.len() && lp[y] == t;
                    assert(y != 0);
                    assert(old_path[y] == t);
                } else {
                    lemma_token_same_below(lower, node, t);
                }
            }
        }
    }
    r
}

/// One unit of a route: `Ok(c)` for a literal character, `Err(t)` for a
/// whole parameter or wildcard token.
pub type Piece = Result<char, Seq<char>>;

/// A token as units: a literal splits into its characters.
pub open spec fn flat_token(t: Seq<char>) -> Seq<Piece> {
    if is_literal(t) {
        Seq::new(t.len(), |i: int| Ok::<char, Seq<char>>(t[i]))
    } else {
        seq![Err::<char, Seq<char>>(t)]
    }
}

/// Tokens as units; this does not change when literals are cut into pieces.
pub open spec fn flat(ts: Seq<Seq<char>>) -> Seq<Piece>
    decreases ts.len(),
{
    if ts.len() == 0 {
        Seq::empty()
    } else {
        flat(ts.drop_last()) + flat_token(ts.last())
    }
}

pub proof fn lemma_flat_concat(a: Seq<Seq<char>>, b: Seq<Seq<char>>)
    ensures
        flat(a + b) == flat(a) + flat(b),
    decreases b.len(),
{
    if b.len() == 0 {
        assert(a + b =~= a);
        assert(flat(a) + flat(b) =~= flat(a));
    } else {
        assert((a + b).drop_last() =~= a + b.drop_last());
        assert((a + b).last() == b.last());
        lemma_flat_concat(a, b.drop_last());
        assert(flat(a + b) =~= flat(a) + flat(b));
    }
}

pub proof fn lemma_flat_one(t: Seq<char>)
    ensures
        flat(seq![t]) == flat_token(t),
{
    let one = seq![t];
    assert(one.drop_last() =~= Seq::<Seq<char>>::empty());
    assert(flat(one.drop_last()) == Seq::<Piece>::empty());
    assert(one.last() == t);
    assert(flat(one) == flat(one.drop_last()) + flat_token(one.last()));
    assert(flat(one) =~= flat_token(t));
}

pub proof fn lemma_flat_nonempty(ts: Seq<Seq<char>>)
    requires
        ts.len() > 0,
        tokens_ok(ts),
    ensures
        flat(ts).len() > 0,
{
    let t = ts[ts.len() - 1];
    assert(token_ok(t));
    assert(ts.last() == t);
    if is_literal(t) {
        assert(flat_token(t).len() == t.len());
    } else {
        assert(flat_token(t).len() == 1);
    }
    assert(flat(ts) == flat(ts.drop_last()) + flat_token(ts.last()));
}

/// Cutting a literal token in two keeps its units.
pub proof fn lemma_flat_literal_cut(t: Seq<char>, k: int)
    requires
        is_literal(t),
        0 < k < t.len(),
    ensures
        flat_token(t) == flat_token(t.subrange(0, k)) + flat_token(t.subrange(k, t.len() as int)),
{
    lemma_literal_subrange(t, 0, k);
    lemma_literal_subrange(t, k, t.len() as int);
    let a = t.subrange(0, k);
    let b = t.subrange(k, t.len() as int);
    let whole = Seq::new(t.len(), |i: int| Ok::<char, Seq<char>>(t[i]));
    let left = Seq::new(a.len(), |i: int| Ok::<char, Seq<char>>(a[i]));
    let right = Seq::new(b.len(), |i: int| Ok::<char, Seq<char>>(b[i]));
    assert(flat_token(t) == whole);
    assert(flat_token(a) == left);
    assert(flat_token(b) == right);
    assert forall|x: int| 0 <= x < whole.len() implies whole[x] == (left + right)[x] by {
        if x < k {
            assert(left[x] == Ok::<char, Seq<char>>(a[x]));
        } else {
            assert(right[x - k] == Ok::<char, Seq<char>>(b[x - k]));
        }
    }
    assert(whole =~= left + right);
}

/// The route `r`, read from the end of `node`'s own tokens, leads to a node
/// that holds `v`.
pub open spec fn reach<T>(node: Node<T>, r: Seq<Piece>, v: T) -> bool
    decreases node,
{
    (r.len() == 0 && node.data == Some(v)) || exists|i: int|
        #![trigger node.children@[i]]
        0 <= i < node.children@.len() && {
            let c = node.children@[i];
            let p = flat(tokens_view(c.path@));
            &&& 0 < p.len() <= r.len()
            &&& r.subrange(0, p.len() as int) == p
            &&& reach(c, r.skip(p.len() as int), v)
        }
}

/// A child whose tokens are `pre` and that holds `tail` below it makes
/// `pre` followed by `tail` reachable from its parent.
pub proof fn lemma_reach_child<T>(node: Node<T>, i: int, pre: Seq<Seq<char>>, tail: Seq<Seq<char>>, v: T)
    requires
        0 <= i < node.children@.len(),
        tokens_view(node.children@[i].path@) == pre,
        pre.len() > 0,
        tokens_ok(pre),
        reach(node.children@[i], flat(tail), v),
    ensures
        reach(node, flat(pre + tail), v),
{
    lemma_flat_concat(pre, tail);
    lemma_flat_nonempty(pre);
    let p = flat(pre);
    let r = flat(pre + tail);
    assert(r.subrange(0, p.len() as int) =~= p);
    assert(r.skip(p.len() as int) =~= flat(tail));
    let c = node.children@[i];
    assert(0 < p.len() <= r.len() && r.subrange(0, p.len() as int) == p && reach(
        c,
        r.skip(p.len() as int),
        v,
    ));
}

/// The route `r` leads through child `i` of `node` to a node holding `v`.
pub open spec fn reach_via<T>(node: Node<T>, i: int, r: Seq<Piece>, v: T) -> bool {
    0 <= i < node.children@.len() && {
        let c = node.children@[i];
        let p = flat(tokens_view(c.path@));
        &&& 0 < p.len() <= r.len()
        &&& r.subrange(0, p.len() as int) == p
        &&& reach(c, r.skip(p.len() as int), v)
    }
}

pub proof fn lemma_reach_cases<T>(node: Node<T>, r: Seq<Piece>, v: T)
    requires
        reach(node, r, v),
    ensures
        (r.len() == 0 && node.data == Some(v)) || exists|i: int| #[trigger] reach_via(node, i, r, v),
{
    if !(r.len() == 0 && node.data == Some(v)) {
        let i = choose|i: int|
            #![trigger node.children@[i]]
            0 <= i < node.children@.len() && {
                let c = node.children@[i];
                let p = flat(tokens_view(c.path@));
                &&& 0 < p.len() <= r.len()
                &&& r.subrange(0, p.len() as int) == p
                &&& reach(c, r.skip(p.len() as int), v)
            };
        assert(reach_via(node, i, r, v));
    }
}

pub proof fn lemma_reach_from_via<T>(node: Node<T>, i: int, r: Seq<Piece>, v: T)
    requires
        reach_via(node, i, r, v),
    ensures
        reach(node, r, v),
{
    let c = node.children@[i];
    assert(0 <= i < node.children@.len());
}

/// Only a node's value and children decide what is reachable from it.
pub proof fn lemma_reach_same_below<T>(a: Node<T>, b: Node<T>, r: Seq<Piece>, v: T)
    requires
        a.data == b.data,
        a.children == b.children,
    ensures
        reach(a, r, v) == reach(b, r, v),
{
    assert(a.children@ == b.children@);
}

/// Routes through children other than `i` survive when only child `i`
/// changes.
pub proof fn lemma_reach_keep_others<T>(before: Node<T>, after: Node<T>, i: int, r: Seq<Piece>, v: T)
    requires
        before.data == after.data,
        before.children@.len() == after.children@.len(),
        0 <= i < before.children@.len(),
        forall|x: int| 0 <= x < before.children@.len() && x != i ==> after.children@[x] == before.children@[x],
        reach(before, r, v),
        !reach_via(before, i, r, v),
    ensures
        reach(after, r, v),
{
    lemma_reach_cases(before, r, v);
    if !(r.len() == 0 && before.data == Some(v)) {
        let x = choose|x: int| #[trigger] reach_via(before, x, r, v);
        assert(after.children@[x] == before.children@[x]);
        assert(reach_via(after, x, r, v));
        lemma_reach_from_via(after, x, r, v);
    }
}

/// Routes survive a new child put in front of the others.
pub proof fn lemma_reach_shift<T>(before: Node<T>, after: Node<T>, r: Seq<Piece>, v: T)
    requires
        before.data == after.data,
        after.children@.len() == before.children@.len() + 1,
        forall|x: int| 0 <= x < before.children@.len() ==> after.children@[x + 1] == before.children@[x],
        reach(before, r, v),
    ensures
        reach(after, r, v),
{
    lemma_reach_cases(before, r, v);
    if !(r.len() == 0 && before.data == Some(v)) {
        let x = choose|x: int| #[trigger] reach_via(before, x, r, v);
        assert(after.children@[x + 1] == before.children@[x]);
        assert(reach_via(after, x + 1, r, v));
        lemma_reach_from_via(after, x + 1, r, v);
    }
}

/// A node cut in two: `s` holds the first units of `c`'s tokens and, as its
/// only child, a node with the rest of them and `c`'s value and children.
pub open spec fn split_of<T>(c: Node<T>, s: Node<T>) -> bool {
    &&& s.children@.len() == 1
    &&& s.data is None
    &&& s.children@[0].data == c.data
    &&& s.children@[0].children == c.children
    &&& flat(tokens_view(c.path@)) == flat(tokens_view(s.path@)) + flat(
        tokens_view(s.children@[0].path@),
    )
    &&& flat(tokens_view(s.children@[0].path@)).len() > 0
}

pub proof fn lemma_reach_through_split<T>(c: Node<T>, s: Node<T>, r: Seq<Piece>, v: T)
    requires
        split_of(c, s),
        reach(c, r, v),
    ensures
        reach(s, flat(tokens_view(s.children@[0].path@)) + r, v),
{
    let lower = s.children@[0];
    let pl = flat(tokens_view(lower.path@));
    lemma_reach_same_below(c, lower, r, v);
    let rr = pl + r;
    assert(rr.subrange(0, pl.len() as int) =~= pl);
    assert(rr.skip(pl.len() as int) =~= r);
    assert(reach_via(s, 0, rr, v));
    lemma_reach_from_via(s, 0, rr, v);
}

/// A unit that is a parameter token.
pub open spec fn param_unit(u: Piece) -> bool {
    u is Err && is_param(u->Err_0)
}

/// The units `p` and `r` agree up to `m`, where both have parameters that
/// differ.
pub open spec fn clash_at(p: Seq<Piece>, r: Seq<Piece>, m: int) -> bool {
    &&& 0 <= m < p.len()
    &&& m < r.len()
    &&& p.subrange(0, m) == r.subrange(0, m)
    &&& p[m] != r[m]
    &&& param_unit(p[m])
    &&& param_unit(r[m])
}

/// Inserting the route `r` below `node` meets a differently named parameter
/// where the route has one, which replaces that part of the trie.
pub open spec fn param_clash<T>(node: Node<T>, r: Seq<Piece>) -> bool
    decreases node,
{
    exists|i: int|
        #![trigger node.children@[i]]
        0 <= i < node.children@.len() && {
            let c = node.children@[i];
            let p = flat(tokens_view(c.path@));
            ||| exists|m: int| #[trigger] clash_at(p, r, m)
            ||| (0 < p.len() <= r.len() && r.subrange(0, p.len() as int) == p && param_clash(
                c,
                r.skip(p.len() as int),
            ))
        }
}

pub proof fn lemma_clash_same_below<T>(a: Node<T>, b: Node<T>, r: Seq<Piece>)
    requires
        a.children == b.children,
    ensures
        param_clash(a, r) == param_clash(b, r),
{
    assert(a.children@ == b.children@);
}

/// No clash below a parent means none below a child whose units the route
/// runs through.
pub proof fn lemma_clash_descend<T>(node: Node<T>, i: int, r: Seq<Piece>)
    requires
        0 <= i < node.children@.len(),
        ({
            let p = flat(tokens_view(node.children@[i].path@));
            0 < p.len() <= r.len() && r.subrange(0, p.len() as int) == p
        }),
        !param_clash(node, r),
    ensures
        !param_clash(
            node.children@[i],
            r.skip(flat(tokens_view(node.children@[i].path@)).len() as int),
        ),
{
    let c = node.children@[i];
    let p = flat(tokens_view(c.path@));
    if param_clash(c, r.skip(p.len() as int)) {
        assert(param_clash(node, r));
    }
}

/// No clash below a parent means none below the cut form of a child.
pub proof fn lemma_clash_split<T>(node: Node<T>, i: int, s: Node<T>, ps: Seq<Piece>, rt: Seq<Piece>)
    requires
        0 <= i < node.children@.len(),
        split_of(node.children@[i], s),
        flat(tokens_view(s.path@)) == ps,
        !param_clash(node, ps + rt),
    ensures
        !param_clash(s, rt),
{
    let c = node.children@[i];
    let lower = s.children@[0];
    let pl = flat(tokens_view(lower.path@));
    let p = flat(tokens_view(c.path@));
    let r = ps + rt;
    assert(p == ps + pl);
    if param_clash(s, rt) {
        let x = choose|x: int|
            #![trigger s.children@[x]]
            0 <= x < s.children@.len() && {
                let cc = s.children@[x];
                let pp = flat(tokens_view(cc.path@));
                ||| exists|m: int| #[trigger] clash_at(pp, rt, m)
                ||| (0 < pp.len() <= rt.len() && rt.subrange(0, pp.len() as int) == pp
                    && param_clash(cc, rt.skip(pp.len() as int)))
            };
        assert(x == 0);
        if exists|m: int| #[trigger] clash_at(pl, rt, m) {
            let m = choose|m: int| #[trigger] clash_at(pl, rt, m);
            let mm = ps.len() + m;
            assert(p.subrange(0, mm) =~= ps + pl.subrange(0, m));
            assert(r.subrange(0, mm) =~= ps + rt.subrange(0, m));
            assert(p[mm] == pl[m]);
            assert(r[mm] == rt[m]);
            assert(clash_at(p, r, mm));
            assert(param_clash(node, r));
        } else {
            lemma_clash_same_below(lower, c, rt.skip(pl.len() as int));
            assert(r.subrange(0, p.len() as int) =~= p) by {
                assert(rt.subrange(0, pl.len() as int) == pl);
                assert(r.subrange(0, p.len() as int) =~= ps + rt.subrange(0, pl.len() as int));
            }
            assert(r.skip(p.len() as int) =~= rt.skip(pl.len() as int));
            assert(param_clash(node, r));
        }
    }
}

/// The first unit of well-formed tokens is the first unit of the first token.
pub proof fn lemma_flat_first(ts: Seq<Seq<char>>)
    requires
        ts.len() > 0,
        tokens_ok(ts),
    ensures
        flat(ts).len() > 0,
        flat(ts)[0] == flat_token(ts[0])[0],
{
    let rest = ts.skip(1);
    assert(ts =~= seq![ts[0]] + rest);
    lemma_flat_concat(seq![ts[0]], rest);
    lemma_flat_one(ts[0]);
    assert(token_ok(ts[0]));
    if is_literal(ts[0]) {
        assert(flat_token(ts[0]).len() == ts[0].len());
    }
}

/// Two different parameters at the front of a child and of the route make
/// a clash.
pub proof fn lemma_param_clash_here<T>(node: Node<T>, i: int, rem: Seq<Seq<char>>)
    requires
        0 <= i < node.children@.len(),
        wf_node(node),
        rem.len() > 0,
        tokens_ok(rem),
        is_param(tokens_view(node.children@[i].path@)[0]),
        is_param(rem[0]),
        tokens_view(node.children@[i].path@)[0] != rem[0],
    ensures
        param_clash(node, flat(rem)),
{
    let c = node.children@[i];
    let pt = tokens_view(c.path@);
    lemma_flat_first(pt);
    lemma_flat_first(rem);
    assert(has_marker(pt[0]));
    assert(has_marker(rem[0]));
    let p = flat(pt);
    let r = flat(rem);
    assert(p[0] == Err::<char, Seq<char>>(pt[0]));
    assert(r[0] == Err::<char, Seq<char>>(rem[0]));
    assert(p.subrange(0, 0) =~= r.subrange(0, 0));
    assert(clash_at(p, r, 0));
}

/// After the route was inserted below child `i` (cut first when `cut`),
/// every other route still leads where it led, unless it clashed.
pub proof fn lemma_keep_after_descend<T>(
    before: Node<T>,
    after: Node<T>,
    i: int,
    orig: Node<T>,
    c_before: Node<T>,
    pre: Seq<Seq<char>>,
    tail: Seq<Seq<char>>,
    whole: bool,
)
    requires
        0 <= i < before.children@.len(),
        before.children@[i] == orig,
        after.data == before.data,
        after.children@.len() == before.children@.len(),
        forall|x: int| 0 <= x < before.children@.len() && x != i ==> after.children@[x] == before.children@[x],
        tokens_view(c_before.path@) == pre,
        pre.len() > 0,
        tokens_ok(pre),
        after.children@[i].path == c_before.path,
        whole ==> c_before == orig,
        !whole ==> split_of(orig, c_before),
        !param_clash(c_before, flat(tail)) ==> forall|r: Seq<Piece>, w: T|
            #[trigger] reach(c_before, r, w) && r != flat(tail) ==> reach(after.children@[i], r, w),
    ensures
        !param_clash(before, flat(pre + tail)) ==> forall|r: Seq<Piece>, w: T|
            #[trigger] reach(before, r, w) && r != flat(pre + tail) ==> reach(after, r, w),
{
    let ps = flat(pre);
    let ft = flat(tail);
    let full = flat(pre + tail);
    lemma_flat_concat(pre, tail);
    lemma_flat_nonempty(pre);
    assert(full == ps + ft);
    if !param_clash(before, full) {
        if whole {
            assert(full.subrange(0, ps.len() as int) =~= ps);
            assert(full.skip(ps.len() as int) =~= ft);
            lemma_clash_descend(before, i, full);
        } else {
            lemma_clash_split(before, i, c_before, ps, ft);
        }
        assert forall|r: Seq<Piece>, w: T|
            #[trigger] reach(before, r, w) && r != full implies reach(after, r, w) by {
            if reach_via(before, i, r, w) {
                let p = flat(tokens_view(orig.path@));
                let r2 = r.skip(p.len() as int);
                assert(r =~= p + r2);
                if whole {
                    if r2 == ft {
                        assert(r =~= full);
                    }
                    assert(reach(c_before, r2, w));
                    assert(reach(after.children@[i], r2, w));
                    assert(reach_via(after, i, r, w));
                } else {
                    lemma_reach_through_split(orig, c_before, r2, w);
                    let pl = flat(tokens_view(c_before.children@[0].path@));
                    let r3 = pl + r2;
                    assert(p == ps + pl);
                    assert(r =~= ps + r3);
                    if r3 == ft {
                        assert(r =~= full);
                    }
                    assert(reach(after.children@[i], r3, w));
                    assert(r.subrange(0, ps.len() as int) =~= ps);
                    assert(r.skip(ps.len() as int) =~= r3);
                    assert(reach_via(after, i, r, w));
                }
                lemma_reach_from_via(after, i, r, w);
            } else {
                lemma_reach_keep_others(before, after, i, r, w);
            }
        }
    }
}

/// What is reachable from the cut form of a node was reachable from the
/// node, after the units of the cut-off part.
pub proof fn lemma_reach_unsplit<T>(c: Node<T>, s: Node<T>, x: Seq<Piece>, w: T)
    requires
        split_of(c, s),
        reach(s, x, w),
    ensures
        ({
            let pl = flat(tokens_view(s.children@[0].path@));
            &&& pl.len() <= x.len()
            &&& x.subrange(0, pl.len() as int) == pl
            &&& reach(c, x.skip(pl.len() as int), w)
        }),
{
    lemma_reach_cases(s, x, w);
    let i = choose|i: int| #[trigger] reach_via(s, i, x, w);
    assert(i == 0);
    let lower = s.children@[0];
    let pl = flat(tokens_view(lower.path@));
    lemma_reach_same_below(c, lower, x.skip(pl.len() as int), w);
}

/// A leaf reaches only its own value, with nothing left of the route.
pub proof fn lemma_reach_leaf<T>(l: Node<T>, x: Seq<Piece>, w: T)
    requires
        l.children@.len() == 0,
        reach(l, x, w),
    ensures
        x.len() == 0 && l.data == Some(w),
{
    lemma_reach_cases(l, x, w);
}

/// After the route was inserted below child `i` (cut first unless
/// `whole`), whatever is reachable was reachable before, or is the route
/// with its value.
pub proof fn lemma_back_after_descend<T>(
    before: Node<T>,
    after: Node<T>,
    i: int,
    orig: Node<T>,
    c_before: Node<T>,
    pre: Seq<Seq<char>>,
    tail: Seq<Seq<char>>,
    whole: bool,
    value: T,
)
    requires
        0 <= i < before.children@.len(),
        before.children@[i] == orig,
        after.data == before.data,
        after.children@.len() == before.children@.len(),
        forall|x: int| 0 <= x < before.children@.len() && x != i ==> after.children@[x] == before.children@[x],
        tokens_view(c_before.path@) == pre,
        pre.len() > 0,
        tokens_ok(pre),
        after.children@[i].path == c_before.path,
        whole ==> c_before == orig,
        !whole ==> split_of(orig, c_before),
        forall|r: Seq<Piece>, w: T|
            #[trigger] reach(after.children@[i], r, w) ==> reach(c_before, r, w) || (r == flat(tail)
                && w == value),
    ensures
        forall|r: Seq<Piece>, w: T|
            #[trigger] reach(after, r, w) ==> reach(before, r, w) || (r == flat(pre + tail) && w
                == value),
{
    let ps = flat(pre);
    let ft = flat(tail);
    lemma_flat_concat(pre, tail);
    assert forall|r: Seq<Piece>, w: T| #[trigger] reach(after, r, w) implies reach(before, r, w) || (r
        == flat(pre + tail) && w == value) by {
        if reach_via(after, i, r, w) {
            let cf = after.children@[i];
            let r3 = r.skip(ps.len() as int);
            assert(r =~= ps + r3);
            assert(reach(cf, r3, w));
            if reach(c_before, r3, w) {
                if whole {
                    assert(reach_via(before, i, r, w));
                    lemma_reach_from_via(before, i, r, w);
                } else {
                    lemma_reach_unsplit(orig, c_before, r3, w);
                    let pl = flat(tokens_view(c_before.children@[0].path@));
                    let r2 = r3.skip(pl.len() as int);
                    let p = flat(tokens_view(orig.path@));
                    assert(p == ps + pl);
                    assert(r3 =~= pl + r2);
                    assert(r =~= p + r2);
                    assert(r.subrange(0, p.len() as int) =~= p);
                    assert(r.skip(p.len() as int) =~= r2);
                    lemma_flat_nonempty(pre);
                    assert(reach_via(before, i, r, w));
                    lemma_reach_from_via(before, i, r, w);
                }
            } else {
                assert(r3 == ft && w == value);
                assert(r =~= flat(pre + tail));
            }
        } else {
            lemma_reach_keep_others(after, before, i, r, w);
        }
    }
}

/// After child `i` was replaced by a leaf for the route `full`, whatever
/// is reachable was reachable before, or is that route with its value.
pub proof fn lemma_back_after_leaf<T>(before: Node<T>, after: Node<T>, i: int, full: Seq<Seq<char>>, value: T)
    requires
        0 <= i < before.children@.len(),
        after.data == before.data,
        after.children@.len() == before.children@.len(),
        forall|x: int| 0 <= x < before.children@.len() && x != i ==> after.children@[x] == before.children@[x],
        tokens_view(after.children@[i].path@) == full,
        after.children@[i].children@.len() == 0,
        after.children@[i].data == Some(value),
    ensures
        forall|r: Seq<Piece>, w: T|
            #[trigger] reach(after, r, w) ==> reach(before, r, w) || (r == flat(full) && w == value),
{
    assert forall|r: Seq<Piece>, w: T| #[trigger] reach(after, r, w) implies reach(before, r, w) || (r
        == flat(full) && w == value) by {
        if reach_via(after, i, r, w) {
            let p = flat(full);
            lemma_reach_leaf(after.children@[i], r.skip(p.len() as int), w);
            assert(r =~= p);
        } else {
            lemma_reach_keep_others(after, before, i, r, w);
        }
    }
}

/// After a leaf for the route `full` was put in front of the children,
/// whatever is reachable was reachable before, or is that route with its
/// value.
pub proof fn lemma_back_after_front<T>(before: Node<T>, after: Node<T>, full: Seq<Seq<char>>, value: T)
    requires
        after.data == before.data,
        after.children@.len() == before.children@.len() + 1,
        forall|x: int| 0 <= x < before.children@.len() ==> after.children@[x + 1] == before.children@[x],
        tokens_view(after.children@[0].path@) == full,
        after.children@[0].children@.len() == 0,
        after.children@[0].data == Some(value),
    ensures
        forall|r: Seq<Piece>, w: T|
            #[trigger] reach(after, r, w) ==> reach(before, r, w) || (r == flat(full) && w == value),
{
    assert forall|r: Seq<Piece>, w: T| #[trigger] reach(after, r, w) implies reach(before, r, w) || (r
        == flat(full) && w == value) by {
        lemma_reach_cases(after, r, w);
        if !(r.len() == 0 && after.data == Some(w)) {
            let x = choose|x: int| #[trigger] reach_via(after, x, r, w);
            if x == 0 {
                let p = flat(full);
                lemma_reach_leaf(after.children@[0], r.skip(p.len() as int), w);
                assert(r =~= p);
            } else {
                assert(after.children@[x] == before.children@[x - 1]);
                assert(reach_via(before, x - 1, r, w));
                lemma_reach_from_via(before, x - 1, r, w);
            }
        }
    }
}

/// No two `/` characters in a row.
pub open spec fn no_double_slash(u: Seq<Piece>) -> bool {
    forall|i: int|
        0 <= i < u.len() - 1 ==> !(#[trigger] u[i] == Ok::<char, Seq<char>>('/') && u[i + 1] == Ok::<
            char,
            Seq<char>,
        >('/'))
}


/// In a well-formed trie a route leads to at most one value.
pub proof fn lemma_reach_unique<T>(n: Node<T>, r: Seq<Piece>, a: T, b: T)
    requires
        wf_node(n),
        reach(n, r, a),
        reach(n, r, b),
    ensures
        a == b,
    decreases n,
{
    lemma_reach_cases(n, r, a);
    lemma_reach_cases(n, r, b);
    if r.len() == 0 {
        if !(n.data == Some(a)) {
            let x = choose|x: int| #[trigger] reach_via(n, x, r, a);
            assert(flat(tokens_view(n.children@[x].path@)).len() > 0);
        }
        if !(n.data == Some(b)) {
            let x = choose|x: int| #[trigger] reach_via(n, x, r, b);
            assert(flat(tokens_view(n.children@[x].path@)).len() > 0);
        }
    } else {
        let x = choose|x: int| #[trigger] reach_via(n, x, r, a);
        let y = choose|y: int| #[trigger] reach_via(n, y, r, b);
        let px = flat(tokens_view(n.children@[x].path@));
        let py = flat(tokens_view(n.children@[y].path@));
        assert(px[0] == r.subrange(0, px.len() as int)[0]);
        assert(py[0] == r.subrange(0, py.len() as int)[0]);
        assert(first_unit(n.children@[x]) == first_unit(n.children@[y]));
        if x != y {
            assert(units_apart(first_unit(n.children@[x]), first_unit(n.children@[y])));
        }
        lemma_reach_unique(n.children@[x], r.skip(px.len() as int), a, b);
    }
}


/// `p` is a prefix of `r`.
pub open spec fn prefix_of(p: Seq<Piece>, r: Seq<Piece>) -> bool {
    p.len() <= r.len() && r.subrange(0, p.len() as int) == p
}

/// Every child of `a` begins with a unit apart from the first unit of `r`:
/// the route shares no prefix with any child.
pub open spec fn shares_nothing<T>(a: Node<T>, r: Seq<Piece>) -> bool {
    forall|x: int|
        0 <= x < a.children@.len() ==> units_apart(#[trigger] first_unit(a.children@[x]), r[0])
}

/// Only child `i` changed, and it now stands either for a non-empty common
/// prefix of the old child's units and the route's units (the shared prefix
/// hoisted into it, the rest of the old child and of the route below it),
/// or, where two differently named parameters met, for a leaf holding the
/// route and its value.
pub open spec fn one_child_changed<T>(
    a: Node<T>,
    b: Node<T>,
    i: int,
    r: Seq<Piece>,
    leaf_path: Seq<String>,
    v: T,
) -> bool {
    &&& 0 <= i < a.children@.len()
    &&& b.children@.len() == a.children@.len()
    &&& forall|x: int| 0 <= x < a.children@.len() && x != i ==> b.children@[x] == a.children@[x]
    &&& {
        let p = flat(tokens_view(b.children@[i].path@));
        ||| (0 < p.len() && prefix_of(p, flat(tokens_view(a.children@[i].path@))) && prefix_of(p, r))
        ||| (b.children@[i].path@ == leaf_path && b.children@[i].data == Some(v)
            && b.children@[i].children@.len() == 0)
    }
}

/// The shape that descending into child `i` leaves.
pub proof fn lemma_shape_descend<T>(
    before: Node<T>,
    after: Node<T>,
    i: int,
    orig: Node<T>,
    c_before: Node<T>,
    pre: Seq<Seq<char>>,
    tail: Seq<Seq<char>>,
    whole: bool,
    leaf_path: Seq<String>,
    v: T,
)
    requires
        0 <= i < before.children@.len(),
        before.children@[i] == orig,
        after.children@.len() == before.children@.len(),
        forall|x: int| 0 <= x < before.children@.len() && x != i ==> after.children@[x] == before.children@[x],
        tokens_view(c_before.path@) == pre,
        pre.len() > 0,
        tokens_ok(pre),
        after.children@[i].path == c_before.path,
        whole ==> c_before == orig,
        !whole ==> split_of(orig, c_before),
    ensures
        one_child_changed(before, after, i, flat(pre + tail), leaf_path, v),
{
    lemma_flat_concat(pre, tail);
    lemma_flat_nonempty(pre);
    let ps = flat(pre);
    let po = flat(tokens_view(orig.path@));
    assert((ps + flat(tail)).subrange(0, ps.len() as int) =~= ps);
    if whole {
        assert(po.subrange(0, ps.len() as int) =~= ps);
    } else {
        let pl = flat(tokens_view(c_before.children@[0].path@));
        assert(po == ps + pl);
        assert(po.subrange(0, ps.len() as int) =~= ps);
    }
    assert(prefix_of(ps, po));
    assert(prefix_of(ps, flat(pre + tail)));
}


pub proof fn lemma_marks_self<T>(c: Node<T>)
    ensures
        marks_from(c, c),
{
}

/// After the route was inserted below child `i`, every parameter or
/// wildcard token below the node was there before or is one of the route's.
pub proof fn lemma_marks_after_descend<T>(
    before: Node<T>,
    after: Node<T>,
    i: int,
    orig: Node<T>,
    c_before: Node<T>,
    tail: Seq<Seq<char>>,
    full: Seq<Seq<char>>,
)
    requires
        0 <= i < before.children@.len(),
        before.children@[i] == orig,
        after.children@.len() == before.children@.len(),
        forall|x: int| 0 <= x < before.children@.len() && x != i ==> after.children@[x] == before.children@[x],
        after.children@[i].path == c_before.path,
        marks_from(orig, c_before),
        forall|t: Seq<char>|
            #[trigger] has_token(after.children@[i], t) && !is_literal(t) ==> has_token(c_before, t)
                || tail.contains(t),
        forall|t: Seq<char>| !is_literal(t) && #[trigger] tail.contains(t) ==> full.contains(t),
    ensures
        forall|t: Seq<char>|
            #[trigger] has_token(after, t) && !is_literal(t) ==> has_token(before, t) || full.contains(t),
{
    assert forall|t: Seq<char>| #[trigger] has_token(after, t) && !is_literal(t) implies has_token(before, t)
        || full.contains(t) by {
        lemma_token_cases(after, t);
        let x = choose|x: int| #[trigger] token_via(after, x, t);
        if x != i {
            assert(after.children@[x] == before.children@[x]);
            assert(token_via(before, x, t));
            lemma_token_from_via(before, x, t);
        } else {
            let cf = after.children@[i];
            if tokens_view(cf.path@).contains(t) || has_token(c_before, t) {
                assert(marked(c_before, t));
                assert(marked(orig, t));
                assert(token_via(before, i, t));
                lemma_token_from_via(before, i, t);
            } else {
                assert(has_token(cf, t));
                assert(tail.contains(t));
            }
        }
    }
}

/// After child `i` became a leaf for the route, or a leaf for it was put
/// first, every parameter or wildcard token below the node was there before
/// or is one of the route's.
pub proof fn lemma_marks_after_leaf<T>(before: Node<T>, after: Node<T>, i: int, full: Seq<Seq<char>>, front: bool)
    requires
        front ==> i == 0 && after.children@.len() == before.children@.len() + 1 && forall|x: int|
            0 <= x < before.children@.len() ==> after.children@[x + 1] == before.children@[x],
        !front ==> 0 <= i < before.children@.len() && after.children@.len() == before.children@.len()
            && forall|x: int|
            0 <= x < before.children@.len() && x != i ==> after.children@[x] == before.children@[x],
        0 <= i < after.children@.len(),
        tokens_view(after.children@[i].path@) == full,
        after.children@[i].children@.len() == 0,
    ensures
        forall|t: Seq<char>|
            #[trigger] has_token(after, t) && !is_literal(t) ==> has_token(before, t) || full.contains(t),
{
    assert forall|t: Seq<char>| #[trigger] has_token(after, t) && !is_literal(t) implies has_token(before, t)
        || full.contains(t) by {
        lemma_token_cases(after, t);
        let x = choose|x: int| #[trigger] token_via(after, x, t);
        if x == i {
            if !full.contains(t) {
                let l = after.children@[i];
                assert(has_token(l, t));
                lemma_token_cases(l, t);
            }
        } else if front {
            assert(after.children@[x] == before.children@[x - 1]);
            assert(token_via(before, x - 1, t));
            lemma_token_from_via(before, x - 1, t);
        } else {
            assert(after.children@[x] == before.children@[x]);
            assert(token_via(before, x, t));
            lemma_token_from_via(before, x, t);
        }
    }
}

/// What `insert` guarantees about the trie `b` made from `a` by inserting
/// the route with units `r` and value `v`: `b` is well formed with the same
/// own tokens; the route leads to `v` and to nothing else, so a route
/// registered again takes the new value; nothing leads anywhere that it did
/// not lead before, but the route; and, unless the route met a differently
/// named parameter, every other route still leads where it led.
pub open spec fn inserted<T>(a: Node<T>, b: Node<T>, r: Seq<Piece>, v: T) -> bool {
    &&& wf_node(b)
    &&& b.path == a.path
    &&& forall|r2: Seq<Piece>, w: T| #[trigger] reach(b, r2, w) ==> reach(a, r2, w) || (r2 == r && w == v)
    &&& reach(b, r, v)
    &&& forall|w: T| #[trigger] reach(b, r, w) ==> w == v
    &&& !param_clash(a, r) ==> forall|r2: Seq<Piece>, w: T|
        #[trigger] reach(a, r2, w) && r2 != r ==> reach(b, r2, w)
}

/// The tokens of a parsed route path are well formed and never hold `//`.
pub proof fn lemma_parsed_tokens(path: Seq<char>, ts: Seq<Seq<char>>)
    requires
        parse_path(path) == Ok::<Seq<Seq<char>>, PathErrorView>(ts),
    ensures
        tokens_ok(ts),
        no_double_slash(flat(ts)),
{
    lemma_parse_tokens_ok(path, 0, 0, Seq::<char>::empty(), Seq::<Seq<char>>::empty(), false);
    assert(flat(Seq::<Seq<char>>::empty()).len() == 0);
    lemma_parse_no_double_slash(path, 0, 0, Seq::<char>::empty(), Seq::<Seq<char>>::empty(), false);
}

/// What a trie holding one route answers for the path `q`: the route's
/// value and captures when its tokens match all of `q`, else nothing.
pub open spec fn single_route<T>(keys: Seq<Seq<char>>, value: T, q: Seq<char>) -> Option<(T, Captures)> {
    match match_tokens(keys, 0, q, 0) {
        Some((p, caps)) => if p == q.len() {
            Some((value, caps))
        } else {
            None
        },
        None => None,
    }
}

pub proof fn lemma_single_route_all<T>(root: Node<T>, keys: Seq<Seq<char>>, value: T)
    requires
        root.path@.len() == 0,
        root.data is None,
        root.children@.len() == 1,
        tokens_view(root.children@[0].path@) == keys,
        root.children@[0].data == Some(value),
        root.children@[0].children@.len() == 0,
    ensures
        forall|q: Seq<char>| #[trigger] lookup(root, q) == single_route(keys, value, q),
{
    assert forall|q: Seq<char>| #[trigger] lookup(root, q) == single_route(keys, value, q) by {
        lemma_single_route(root, keys, value, q);
    }
}

/// A root with no tokens and no value whose only child is a leaf for one
/// route answers every lookup as that route alone does.
pub proof fn lemma_single_route<T>(root: Node<T>, keys: Seq<Seq<char>>, value: T, q: Seq<char>)
    requires
        root.path@.len() == 0,
        root.data is None,
        root.children@.len() == 1,
        tokens_view(root.children@[0].path@) == keys,
        root.children@[0].data == Some(value),
        root.children@[0].children@.len() == 0,
    ensures
        lookup(root, q) == single_route(keys, value, q),
{
    let c = root.children@[0];
    assert(tokens_view(root.path@).len() == 0);
    assert(match_tokens(tokens_view(root.path@), 0, q, 0) == Some((0int, Seq::<(Seq<char>, Seq<char>)>::empty())));
    assert(search(root, q, 0, 1).is_none());
    match match_tokens(keys, 0, q, 0) {
        Some((p, caps)) => {
            assert(search(c, q, p, 0).is_none());
            assert(Seq::<(Seq<char>, Seq<char>)>::empty() + caps =~= caps);
        },
        None => {},
    }
}

impl<T> Node<T> {
    /// Inserts the route whose tokens below this node are `rem`.
    fn insert_rem(&mut self, rem: Vec<String>, value: T)
        requires
            wf_node(*old(self)),
            tokens_ok(tokens_view(rem@)),
        ensures
            wf_node(*final(self)),
            final(self).path == old(self).path,
            reach(*final(self), flat(tokens_view(rem@)), value),
            !param_clash(*old(self), flat(tokens_view(rem@))) ==> forall|r: Seq<Piece>, w: T|
                #[trigger] reach(*old(self), r, w) && r != flat(tokens_view(rem@)) ==> reach(
                    *final(self),
                    r,
                    w,
                ),
            forall|r: Seq<Piece>, w: T|
                #[trigger] reach(*final(self), r, w) ==> reach(*old(self), r, w) || (r == flat(
                    tokens_view(rem@),
                ) && w == value),
            forall|t: Seq<char>|
                #[trigger] has_token(*final(self), t) && !is_literal(t) ==> has_token(*old(self), t)
                    || tokens_view(rem@).contains(t),
            rem@.len() == 0 ==> final(self).children == old(self).children && final(self).data == Some(
                value,
            ),
            rem@.len() > 0 ==> final(self).data == old(self).data,
            rem@.len() > 0 && shares_nothing(*old(self), flat(tokens_view(rem@))) ==> {
                &&& final(self).children@.len() == old(self).children@.len() + 1
                &&& final(self).children@[0].path@ == rem@
                &&& final(self).children@[0].data == Some(value)
                &&& final(self).children@[0].children@.len() == 0
                &&& forall|x: int|
                    0 <= x < old(self).children@.len() ==> final(self).children@[x + 1]
                        == old(self).children@[x]
            },
            rem@.len() > 0 && !shares_nothing(*old(self), flat(tokens_view(rem@))) ==> exists|i: int|
                one_child_changed(*old(self), *final(self), i, flat(tokens_view(rem@)), rem@, value),
            old(self).children@.len() == 0 && rem@.len() > 0 ==> {
                &&& final(self).data == old(self).data
                &&& final(self).children@.len() == 1
                &&& final(self).children@[0].path@ == rem@
                &&& final(self).children@[0].data == Some(value)
                &&& final(self).children@[0].children@.len() == 0
            },
        decreases rem@.len(), if rem@.len() > 0 {
            rem@[0]@.len()
        } else {
            0
        },
    {
        let ghost full = tokens_view(rem@);
        if rem.len() == 0 {
            let ghost before = *self;
            self.data = Some(value);
            assert(flat(full).len() == 0);
            proof {
                assert forall|t: Seq<char>| #[trigger] has_token(*self, t) && !is_literal(t) implies has_token(
                    before,
                    t,
                ) || full.contains(t) by {
                    lemma_token_same_below(*self, before, t);
                }
                assert forall|r: Seq<Piece>, w: T|
                    #[trigger] reach(before, r, w) && r != flat(full) implies reach(*self, r, w) by {
                    lemma_reach_cases(before, r, w);
                    if r.len() > 0 {
                        let x = choose|x: int| #[trigger] reach_via(before, x, r, w);
                        assert(reach_via(*self, x, r, w));
                        lemma_reach_from_via(*self, x, r, w);
                    } else {
                        assert(r =~= flat(full));
                    }
                }
                assert forall|r: Seq<Piece>, w: T| #[trigger] reach(*self, r, w) implies reach(before, r, w)
                    || (r == flat(full) && w == value) by {
                    lemma_reach_cases(*self, r, w);
                    if r.len() > 0 || self.data != Some(w) {
                        let x = choose|x: int| #[trigger] reach_via(*self, x, r, w);
                        assert(reach_via(before, x, r, w));
                        lemma_reach_from_via(before, x, r, w);
                    } else {
                        assert(r =~= flat(full));
                    }
                }
            }
            return;
        }
        let n = self.children.len();
        let mut i: usize = 0;
        while i < n
            invariant
                n == self.children@.len(),
                wf_node(*self),
                *self == *old(self),
                rem@.len() > 0,
                full == tokens_view(rem@),
                tokens_ok(full),
                i <= n,
                forall|x: int| 0 <= x < i ==> units_apart(#[trigger] first_unit(self.children@[x]), flat(full)[0]),
            decreases n - i,
        {
            let j = compare_keys(self.children[i].path.as_slice(), rem.as_slice());
            let plen = self.children[i].path.len();
            if j == plen || j > 0 {
                let ghost before = *self;
                let child = self.children.remove(i);
                assert(child == before.children@[i as int]);
                let ghost orig = child;
                let mut c = if j == plen { child } else { split_at_token(child, j) };
                let ghost c_before = c;
                let ghost pre = tokens_view(c.path@);
                let mut rem = rem;
                let ghost whole = rem@;
                let tail = rem.split_off(j);
                proof {
                    lemma_tokens_view_subrange(whole, j as int, whole.len() as int);
                    lemma_tokens_view_subrange(whole, 0, j as int);
                    lemma_tokens_view_subrange(before.children@[i as int].path@, 0, j as int);
                    assert(pre =~= full.subrange(0, j as int));
                    assert(full =~= pre + tokens_view(tail@));
                }
                c.insert_rem(tail, value);
                self.children.insert(i, c);
                proof {
                    assert forall|x: int| 0 <= x < self.children@.len() implies {
                        &&& (#[trigger] self.children@[x]).path@.len() > 0
                        &&& tokens_ok(tokens_view(self.children@[x].path@))
                        &&& wf_node(self.children@[x])
                    } by {
                        if x != i {
                            assert(self.children@[x] == before.children@[x]);
                        }
                    }
                    lemma_reach_child(*self, i as int, pre, tokens_view(tail@), value);
                    assert forall|x: int| 0 <= x < before.children@.len() && x != i implies self.children@[x]
                        == before.children@[x] by {}
                    lemma_flat_nonempty(pre);
                    if j != plen {
                        lemma_first_unit_split(orig, c_before);
                    }
                    assert(first_unit(self.children@[i as int]) == first_unit(c_before));
                    lemma_apart_replace(before.children@, self.children@, i as int);
                    if j == plen {
                        lemma_marks_self(orig);
                    }
                    assert forall|t: Seq<char>| !is_literal(t) && #[trigger] tokens_view(tail@).contains(t)
                        implies full.contains(t) by {
                        let y = choose|y: int| 0 <= y < tokens_view(tail@).len() && tokens_view(tail@)[y] == t;
                        assert(full[j + y] == t);
                    }
                    lemma_marks_after_descend(before, *self, i as int, orig, c_before, tokens_view(tail@), full);
                    lemma_shape_descend(
                        before,
                        *self,
                        i as int,
                        orig,
                        c_before,
                        pre,
                        tokens_view(tail@),
                        j == plen,
                        whole,
                        value,
                    );
                    lemma_flat_first(full);
                    lemma_flat_first(tokens_view(orig.path@));
                    assert(tokens_view(orig.path@)[0] == full[0]);
                    assert(!units_apart(first_unit(before.children@[i as int]), flat(full)[0]));
                    lemma_keep_after_descend(
                        before,
                        *self,
                        i as int,
                        orig,
                        c_before,
                        pre,
                        tokens_view(tail@),
                        j == plen,
                    );
                    lemma_back_after_descend(
                        before,
                        *self,
                        i as int,
                        orig,
                        c_before,
                        pre,
                        tokens_view(tail@),
                        j == plen,
                        value,
                    );
                }
                return;
            }
            let p0 = self.children[i].path[0].as_str();
            let r0 = rem[0].as_str();
            proof {
                assert(token_ok(tokens_view(self.children@[i as int].path@)[0]));
                assert(token_ok(full[0]));
            }
            if is_param_exec(p0) && is_param_exec(r0) {
                let ghost before = *self;
                proof {
                    lemma_param_clash_here(before, i as int, full);
                }
                let _old = self.children.remove(i);
                self.children.insert(i, leaf(rem, value));
                proof {
                    assert forall|x: int| 0 <= x < self.children@.len() implies {
                        &&& (#[trigger] self.children@[x]).path@.len() > 0
                        &&& tokens_ok(tokens_view(self.children@[x].path@))
                        &&& wf_node(self.children@[x])
                    } by {
                        if x != i {
                            assert(self.children@[x] == before.children@[x]);
                        }
                    }
                    assert(full + Seq::<Seq<char>>::empty() =~= full);
                    assert(flat(Seq::<Seq<char>>::empty()).len() == 0);
                    lemma_reach_child(*self, i as int, full, Seq::empty(), value);
                    lemma_back_after_leaf(before, *self, i as int, full, value);
                    assert forall|x: int| 0 <= x < before.children@.len() && x != i implies self.children@[x]
                        == before.children@[x] by {}
                    let pt = tokens_view(before.children@[i as int].path@);
                    lemma_flat_first(pt);
                    lemma_flat_first(full);
                    assert(has_marker(pt[0]));
                    assert(has_marker(full[0]));
                    assert(flat_token(pt[0])[0] == Err::<char, Seq<char>>(pt[0]));
                    assert(flat_token(full[0])[0] == Err::<char, Seq<char>>(full[0]));
                    assert(tokens_view(self.children@[i as int].path@) == full);
                    lemma_apart_replace(before.children@, self.children@, i as int);
                    assert(one_child_changed(before, *self, i as int, flat(full), rem@, value));
                    lemma_marks_after_leaf(before, *self, i as int, full, false);
                    assert(!units_apart(first_unit(before.children@[i as int]), flat(full)[0]));
                }
                return;
            }
            let cs = common_str(p0, r0);
            let k = cs.unicode_len();
            if k > 0 {
                let p0n = p0.unicode_len();
                let r0n = r0.unicode_len();
                let ghost pt = p0@;
                let ghost rt = r0@;
                proof {
                    assert(cs@[0] == pt.subrange(0, k as int)[0]);
                    assert(cs@[0] == rt.subrange(0, k as int)[0]);
                    assert(pt[0] == rt[0]);
                    assert(pt != rt);
                    if !is_literal(pt) {
                        if is_param(pt) {
                            assert(has_marker(rt));
                        } else {
                            assert(is_wild(pt));
                            assert(has_marker(rt));
                            assert(rt.len() == 1) by {
                                if rt.len() != 1 {
                                    assert(!is_wild(rt));
                                }
                            }
                            assert(rt =~= pt);
                        }
                    }
                    assert(is_literal(pt));
                    if !is_literal(rt) {
                        assert(has_marker(pt));
                    }
                    assert(is_literal(rt));
                }
                let ghost before = *self;
                let child = self.children.remove(i);
                assert(child == before.children@[i as int]);
                let ghost orig = child;
                let ghost whole_split = k < p0n || plen > 1;
                let mut c = if k < p0n {
                    split_first_token(child, k)
                } else if plen > 1 {
                    split_at_token(child, 1)
                } else {
                    child
                };
                let ghost c_before = c;
                let ghost piece = rt.subrange(0, k as int);
                proof {
                    assert(piece == pt.subrange(0, k as int));
                    if k == p0n {
                        assert(pt.subrange(0, k as int) =~= pt);
                    }
                    assert(tokens_view(c.path@) =~= seq![piece]);
                    lemma_literal_subrange(rt, 0, k as int);
                }
                let mut rem = rem;
                let ghost whole = rem@;
                let mut tail = rem.split_off(1);
                proof {
                    lemma_tokens_view_subrange(whole, 1, whole.len() as int);
                    assert(full =~= seq![rt] + tokens_view(tail@));
                    lemma_flat_concat(seq![rt], tokens_view(tail@));
                    lemma_flat_one(rt);
                }
                if k < r0n {
                    let rest = String::from_str(rem[0].as_str().substring_char(k, r0n));
                    let ghost t0 = tail@;
                    tail.insert(0, rest);
                    proof {
                        lemma_tokens_view_insert(t0, rest);
                        lemma_literal_subrange(rt, k as int, r0n as int);
                        lemma_flat_literal_cut(rt, k as int);
                        lemma_flat_concat(seq![rest@], tokens_view(t0));
                        lemma_flat_one(rest@);
                        lemma_flat_one(piece);
                        lemma_flat_concat(seq![piece], tokens_view(tail@));
                        assert(flat(full) == flat(seq![piece] + tokens_view(tail@)));
                    }
                } else {
                    proof {
                        assert(rt =~= piece);
                        lemma_flat_concat(seq![piece], tokens_view(tail@));
                        assert(flat(full) == flat(seq![piece] + tokens_view(tail@)));
                    }
                }
                proof {
                    assert(tokens_ok(tokens_view(tail@)));
                }
                c.insert_rem(tail, value);
                self.children.insert(i, c);
                proof {
                    assert forall|x: int| 0 <= x < self.children@.len() implies {
                        &&& (#[trigger] self.children@[x]).path@.len() > 0
                        &&& tokens_ok(tokens_view(self.children@[x].path@))
                        &&& wf_node(self.children@[x])
                    } by {
                        if x != i {
                            assert(self.children@[x] == before.children@[x]);
                        }
                    }
                    lemma_reach_child(*self, i as int, seq![piece], tokens_view(tail@), value);
                    assert forall|x: int| 0 <= x < before.children@.len() && x != i implies self.children@[x]
                        == before.children@[x] by {}
                    lemma_flat_nonempty(seq![piece]);
                    if whole_split {
                        lemma_first_unit_split(orig, c_before);
                    }
                    assert(first_unit(self.children@[i as int]) == first_unit(c_before));
                    lemma_apart_replace(before.children@, self.children@, i as int);
                    if !whole_split {
                        lemma_marks_self(orig);
                    }
                    assert forall|t: Seq<char>| !is_literal(t) && #[trigger] tokens_view(tail@).contains(t)
                        implies full.contains(t) by {
                        let tv = tokens_view(tail@);
                        let y = choose|y: int| 0 <= y < tv.len() && tv[y] == t;
                        if k < r0n {
                            if y == 0 {
                                assert(is_literal(t));
                            } else {
                                assert(full[y] == t);
                            }
                        } else {
                            assert(full[y + 1] == t);
                        }
                    }
                    lemma_marks_after_descend(before, *self, i as int, orig, c_before, tokens_view(tail@), full);
                    lemma_shape_descend(
                        before,
                        *self,
                        i as int,
                        orig,
                        c_before,
                        seq![piece],
                        tokens_view(tail@),
                        !whole_split,
                        whole,
                        value,
                    );
                    lemma_flat_first(full);
                    lemma_flat_first(tokens_view(orig.path@));
                    assert(flat_token(pt)[0] == Ok::<char, Seq<char>>(pt[0]));
                    assert(flat_token(rt)[0] == Ok::<char, Seq<char>>(rt[0]));
                    assert(!units_apart(first_unit(before.children@[i as int]), flat(full)[0]));
                    lemma_keep_after_descend(
                        before,
                        *self,
                        i as int,
                        orig,
                        c_before,
                        seq![piece],
                        tokens_view(tail@),
                        !whole_split,
                    );
                    lemma_back_after_descend(
                        before,
                        *self,
                        i as int,
                        orig,
                        c_before,
                        seq![piece],
                        tokens_view(tail@),
                        !whole_split,
                        value,
                    );
                }
                return;
            }
            proof {
                let pt = tokens_view(self.children@[i as int].path@);
                lemma_flat_first(pt);
                lemma_flat_first(full);
                assert(pt[0] == p0@);
                assert(full[0] == r0@);
                lemma_first_units(pt[0], full[0]);
            }
            i = i + 1;
        }
        let ghost before = *self;
        self.children.insert(0, leaf(rem, value));
        proof {
            assert forall|x: int| 0 <= x < self.children@.len() implies {
                &&& (#[trigger] self.children@[x]).path@.len() > 0
                &&& tokens_ok(tokens_view(self.children@[x].path@))
                &&& wf_node(self.children@[x])
            } by {
                if x > 0 {
                    assert(self.children@[x] == before.children@[x - 1]);
                }
            }
            assert(full + Seq::<Seq<char>>::empty() =~= full);
            assert(flat(Seq::<Seq<char>>::empty()).len() == 0);
            lemma_reach_child(*self, 0, full, Seq::empty(), value);
            assert forall|r: Seq<Piece>, w: T|
                #[trigger] reach(before, r, w) && r != flat(full) implies reach(*self, r, w) by {
                lemma_reach_shift(before, *self, r, w);
            }
            lemma_back_after_front(before, *self, full, value);
            assert(tokens_view(self.children@[0].path@) == full);
            lemma_apart_front(before.children@, self.children@);
            lemma_marks_after_leaf(before, *self, 0, full, true);
        }
    }

    /// Adds the route with tokens `keys` and its value. A shared literal
    /// prefix with an existing child is factored into a common node; a
    /// parameter at the place of a differently named one replaces that
    /// child's subtree; a route with no prefix in common with any child
    /// becomes the first child. Afterwards the route's units lead from this
    /// node to `value` and nothing else; unless the route met a differently
    /// named parameter, every other route still leads where it led; no route
    /// leads anywhere new but this one; the tree stays well formed (siblings
    /// share no prefix); every parameter or wildcard token in the tree is a
    /// whole token that was there before or is one of `keys`; and on this node either the route's tokens became a
    /// new first child in front of the untouched old children, or exactly one
    /// child changed, to the prefix it shares with the route.
    pub fn insert(&mut self, keys: &[String], value: T)
        requires
            wf_node(*old(self)),
            tokens_ok(tokens_view(keys@)),
        ensures
            inserted(*old(self), *final(self), flat(tokens_view(keys@)), value),
            forall|t: Seq<char>|
                #[trigger] has_token(*final(self), t) && !is_literal(t) ==> has_token(*old(self), t)
                    || tokens_view(keys@).contains(t),
            keys@.len() == 0 ==> final(self).children == old(self).children && final(self).data == Some(
                value,
            ),
            keys@.len() > 0 ==> final(self).data == old(self).data,
            keys@.len() > 0 && shares_nothing(*old(self), flat(tokens_view(keys@))) ==> {
                &&& final(self).children@.len() == old(self).children@.len() + 1
                &&& final(self).children@[0].path@ == keys@
                &&& final(self).children@[0].data == Some(value)
                &&& final(self).children@[0].children@.len() == 0
                &&& forall|x: int|
                    0 <= x < old(self).children@.len() ==> final(self).children@[x + 1]
                        == old(self).children@[x]
            },
            keys@.len() > 0 && !shares_nothing(*old(self), flat(tokens_view(keys@))) ==> exists|i: int|
                one_child_changed(*old(self), *final(self), i, flat(tokens_view(keys@)), keys@, value),
            ({
                let empty = old(self).path@.len() == 0 && old(self).data is None
                    && old(self).children@.len() == 0;
                empty && keys@.len() > 0 ==> forall|q: Seq<char>|
                    #![trigger lookup(*final(self), q)]
                    lookup(*final(self), q) == single_route(tokens_view(keys@), value, q)
            }),
    {
        let mut rem: Vec<String> = Vec::new();
        let mut i: usize = 0;
        while i < keys.len()
            invariant
                i <= keys@.len(),
                rem@ == keys@.subrange(0, i as int),
                tokens_view(rem@) == tokens_view(keys@).subrange(0, i as int),
            decreases keys@.len() - i,
        {
            let ghost r0 = rem@;
            let x = keys[i].clone();
            rem.push(x);
            proof {
                lemma_tokens_view_push(r0, x);
            }
            assert(tokens_view(rem@) =~= tokens_view(keys@).subrange(0, i + 1));
            assert(rem@ =~= keys@.subrange(0, i + 1));
            i = i + 1;
        }
        assert(tokens_view(rem@) =~= tokens_view(keys@));
        assert(rem@ =~= keys@);
        let ghost before = *self;
        self.insert_rem(rem, value);
        proof {
            assert forall|w: T| #[trigger] reach(*self, flat(tokens_view(keys@)), w) implies w == value by {
                lemma_reach_unique(*self, flat(tokens_view(keys@)), w, value);
            }
            if before.path@.len() == 0 && before.data is None && before.children@.len() == 0
                && keys@.len() > 0 {
                lemma_single_route_all(*self, tokens_view(keys@), value);
            }
        }
    }
}

} // verus!
