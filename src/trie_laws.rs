//! Laws of the path trie: what a lookup answers, and that registered
//! routes are found again.

use crate::path_trie::{
    Captures, Node, PathErrorView, Piece, capture_seq, flat, flat_token, inserted, is_literal,
    is_param, is_wild, lemma_flat_concat, lemma_flat_nonempty, lemma_flat_one,
    lemma_parsed_tokens, lemma_reach_cases, lemma_reach_from_via, lemma_seg_end, lookup,
    match_token, match_tokens, no_double_slash, param_clash, parse_path, reach, reach_via,
    search, token_ok, tokens_ok, tokens_view, wf_node,
};
use vstd::prelude::*;

verus! {

/// The children of `node` store `v` for the route whose tokens, after those
/// of `node`, are `t`: a child's tokens begin `t`, and either the child
/// holds `v` and nothing of `t` is left, or the rest is stored below it.
pub open spec fn stores_below<T>(node: Node<T>, t: Seq<Seq<char>>, v: T) -> bool
    decreases node,
{
    exists|i: int|
        #![trigger node.children@[i]]
        0 <= i < node.children@.len() && {
            let c = node.children@[i];
            let p = tokens_view(c.path@);
            &&& p.len() <= t.len()
            &&& t.subrange(0, p.len() as int) == p
            &&& ((t.len() == p.len() && c.data == Some(v)) || stores_below(
                c,
                t.skip(p.len() as int),
                v,
            ))
        }
}

pub proof fn lemma_match_skip(ts: Seq<Seq<char>>, k: int, q: Seq<char>, pos: int)
    requires
        0 <= k <= ts.len(),
    ensures
        match_tokens(ts, k, q, pos) == match_tokens(ts.skip(k), 0, q, pos),
    decreases ts.len() - k,
{
    let rest = ts.skip(k);
    if k < ts.len() {
        assert(rest[0] == ts[k]);
        match match_token(ts[k], q, pos) {
            None => {},
            Some((after, cap)) => {
                lemma_match_skip(ts, k + 1, q, after);
                lemma_match_skip(rest, 1, q, after);
                assert(rest.skip(1) =~= ts.skip(k + 1));
            },
        }
    }
}

/// Matching two token lists one after the other is matching their
/// concatenation.
pub proof fn lemma_match_concat(a: Seq<Seq<char>>, b: Seq<Seq<char>>, q: Seq<char>, pos: int)
    ensures
        match_tokens(a + b, 0, q, pos) == match match_tokens(a, 0, q, pos) {
            None => None,
            Some((p, c1)) => match match_tokens(b, 0, q, p) {
                None => None,
                Some((after, c2)) => Some((after, c1 + c2)),
            },
        },
    decreases a.len(),
{
    if a.len() == 0 {
        assert(a + b =~= b);
        match match_tokens(b, 0, q, pos) {
            None => {},
            Some((after, c2)) => {
                assert(Seq::<(Seq<char>, Seq<char>)>::empty() + c2 =~= c2);
            },
        }
    } else {
        let ab = a + b;
        assert(ab[0] == a[0]);
        match match_token(a[0], q, pos) {
            None => {},
            Some((seg_start, cap)) => {
                lemma_match_skip(ab, 1, q, seg_start);
                lemma_match_skip(a, 1, q, seg_start);
                assert(ab.skip(1) =~= a.skip(1) + b);
                lemma_match_concat(a.skip(1), b, q, seg_start);
                match match_tokens(a.skip(1), 0, q, seg_start) {
                    None => {},
                    Some((p, c1)) => {
                        match match_tokens(b, 0, q, p) {
                            None => {},
                            Some((after, c2)) => {
                                assert(capture_seq(cap) + (c1 + c2) =~= (capture_seq(cap) + c1) + c2);
                            },
                        }
                    },
                }
            },
        }
    }
}

/// Some route stored below `node` matches `q` from `pos` to its end with the
/// value and captures of `r`.
pub open spec fn found_below<T>(node: Node<T>, q: Seq<char>, pos: int, r: (T, Captures)) -> bool {
    exists|t: Seq<Seq<char>>|
        #![trigger stores_below(node, t, r.0)]
        stores_below(node, t, r.0) && match_tokens(t, 0, q, pos) == Some((q.len() as int, r.1))
}

pub proof fn lemma_search_sound<T>(node: Node<T>, q: Seq<char>, pos: int, i: int)
    ensures
        search(node, q, pos, i) is Some ==> found_below(node, q, pos, search(node, q, pos, i)->Some_0),
    decreases node, node.children@.len() - i,
{
    if 0 <= i < node.children@.len() {
        let c = node.children@[i];
        let pt = tokens_view(c.path@);
        match match_tokens(pt, 0, q, pos) {
            None => {
                assert(search(node, q, pos, i) == search(node, q, pos, i + 1));
                lemma_search_sound(node, q, pos, i + 1);
            },
            Some((p, caps1)) => {
                if p == q.len() && c.data.is_some() {
                    let v = c.data.unwrap();
                    assert(search(node, q, pos, i) == Some((v, caps1)));
                    assert(pt.subrange(0, pt.len() as int) =~= pt);
                    assert(stores_below(node, pt, v));
                    assert(match_tokens(pt, 0, q, pos) == Some((q.len() as int, caps1)));
                    let r = (v, caps1);
                    assert(stores_below(node, pt, r.0) && match_tokens(pt, 0, q, pos) == Some(
                        (q.len() as int, r.1),
                    ));
                    assert(found_below(node, q, pos, r));
                } else {
                    lemma_search_sound(c, q, p, 0);
                    match search(c, q, p, 0) {
                        Some((v, more)) => {
                            assert(found_below(c, q, p, (v, more)));
                            let t2 = choose|t: Seq<Seq<char>>|
                                stores_below(c, t, v) && match_tokens(t, 0, q, p) == Some(
                                    (q.len() as int, more),
                                );
                            let t = pt + t2;
                            assert(t.subrange(0, pt.len() as int) =~= pt);
                            assert(t.skip(pt.len() as int) =~= t2);
                            assert(stores_below(node, t, v));
                            lemma_match_concat(pt, t2, q, pos);
                            assert(search(node, q, pos, i) == Some((v, caps1 + more)));
                            assert(match_tokens(t, 0, q, pos) == Some((q.len() as int, caps1 + more)));
                            let r = (v, caps1 + more);
                            assert(stores_below(node, t, r.0) && match_tokens(t, 0, q, pos)
                                == Some((q.len() as int, r.1)));
                            assert(found_below(node, q, pos, r));
                        },
                        None => {
                            assert(search(node, q, pos, i) == search(node, q, pos, i + 1));
                            lemma_search_sound(node, q, pos, i + 1);
                        },
                    }
                }
            },
        }
    }
}

/// A lookup never answers with a value that the trie does not hold for a
/// route matching the whole path: what `lookup` returns is the value held
/// by the root, or stored below it, for a route whose tokens, after the
/// root's own, match all of `q` with exactly the captures returned.
pub proof fn lemma_lookup_sound<T>(root: Node<T>, q: Seq<char>)
    ensures
        lookup(root, q) matches Some((v, caps)) ==> {
            let own = tokens_view(root.path@);
            ||| (root.data == Some(v) && match_tokens(own, 0, q, 0) == Some((q.len() as int, caps)))
            ||| exists|t: Seq<Seq<char>>|
                #![trigger stores_below(root, t, v)]
                stores_below(root, t, v) && match_tokens(own + t, 0, q, 0) == Some(
                    (q.len() as int, caps),
                )
        },
{
    let own = tokens_view(root.path@);
    match match_tokens(own, 0, q, 0) {
        None => {},
        Some((p, caps1)) => {
            if !(p == q.len() && root.data.is_some()) {
                lemma_search_sound(root, q, p, 0);
                match search(root, q, p, 0) {
                    Some((v, more)) => {
                        assert(found_below(root, q, p, (v, more)));
                        let t = choose|t: Seq<Seq<char>>|
                            stores_below(root, t, v) && match_tokens(t, 0, q, p) == Some(
                                (q.len() as int, more),
                            );
                        lemma_match_concat(own, t, q, 0);
                        assert(stores_below(root, t, v));
                    },
                    None => {},
                }
            }
        },
    }
}

proof fn lemma_search_from<T>(node: Node<T>, q: Seq<char>, pos: int, i: int, j: int)
    requires
        0 <= i <= j < node.children@.len(),
        ({
            let c = node.children@[j];
            match_tokens(tokens_view(c.path@), 0, q, pos) matches Some((p, _)) && ((p == q.len()
                && c.data is Some) || search(c, q, p, 0) is Some)
        }),
    ensures
        search(node, q, pos, i) is Some,
    decreases j - i,
{
    if i < j {
        let c = node.children@[i];
        match match_tokens(tokens_view(c.path@), 0, q, pos) {
            None => {
                lemma_search_from(node, q, pos, i + 1, j);
            },
            Some((p, caps)) => {
                if !(p == q.len() && c.data.is_some()) && search(c, q, p, 0).is_none() {
                    lemma_search_from(node, q, pos, i + 1, j);
                }
            },
        }
    }
}

pub proof fn lemma_search_complete<T>(node: Node<T>, q: Seq<char>, pos: int, t: Seq<Seq<char>>, v: T, caps: Captures)
    requires
        stores_below(node, t, v),
        match_tokens(t, 0, q, pos) == Some((q.len() as int, caps)),
    ensures
        search(node, q, pos, 0) is Some,
    decreases node,
{
    let j = choose|j: int|
        #![trigger node.children@[j]]
        0 <= j < node.children@.len() && {
            let c = node.children@[j];
            let p = tokens_view(c.path@);
            &&& p.len() <= t.len()
            &&& t.subrange(0, p.len() as int) == p
            &&& ((t.len() == p.len() && c.data == Some(v)) || stores_below(
                c,
                t.skip(p.len() as int),
                v,
            ))
        };
    let c = node.children@[j];
    let pt = tokens_view(c.path@);
    let rest = t.skip(pt.len() as int);
    assert(t =~= pt + rest);
    lemma_match_concat(pt, rest, q, pos);
    let p = match_tokens(pt, 0, q, pos)->Some_0.0;
    if t.len() == pt.len() && c.data == Some(v) {
        assert(rest.len() == 0);
    } else {
        let caps2 = match_tokens(rest, 0, q, p)->Some_0.1;
        lemma_search_complete(c, q, p, rest, v, caps2);
    }
    lemma_search_from(node, q, pos, 0, j);
}

/// A lookup finds an answer whenever the root holds a value for the whole
/// path or a route stored below it matches the whole path.
pub proof fn lemma_lookup_complete<T>(root: Node<T>, q: Seq<char>, t: Seq<Seq<char>>, v: T, caps: Captures)
    requires
        stores_below(root, t, v),
        match_tokens(tokens_view(root.path@) + t, 0, q, 0) == Some((q.len() as int, caps)),
    ensures
        lookup(root, q) is Some,
{
    let own = tokens_view(root.path@);
    lemma_match_concat(own, t, q, 0);
    let p = match_tokens(own, 0, q, 0)->Some_0.0;
    let c2 = match_tokens(t, 0, q, p)->Some_0.1;
    lemma_search_complete(root, q, p, t, v, c2);
}

/// A stored route is reachable along its units, and its tokens are well
/// formed.
pub proof fn lemma_stores_reach<T>(node: Node<T>, t: Seq<Seq<char>>, v: T)
    requires
        wf_node(node),
        stores_below(node, t, v),
    ensures
        reach(node, flat(t), v),
        tokens_ok(t),
    decreases node,
{
    let i = choose|i: int|
        #![trigger node.children@[i]]
        0 <= i < node.children@.len() && {
            let c = node.children@[i];
            let p = tokens_view(c.path@);
            &&& p.len() <= t.len()
            &&& t.subrange(0, p.len() as int) == p
            &&& ((t.len() == p.len() && c.data == Some(v)) || stores_below(
                c,
                t.skip(p.len() as int),
                v,
            ))
        };
    let c = node.children@[i];
    let p = tokens_view(c.path@);
    let rest = t.skip(p.len() as int);
    assert(t =~= p + rest);
    lemma_flat_concat(p, rest);
    lemma_flat_nonempty(p);
    let fp = flat(p);
    let ft = flat(t);
    assert(ft.subrange(0, fp.len() as int) =~= fp);
    assert(ft.skip(fp.len() as int) =~= flat(rest));
    if t.len() == p.len() && c.data == Some(v) {
        assert(rest.len() == 0);
        assert(flat(rest).len() == 0);
        assert(tokens_ok(rest));
    } else {
        lemma_stores_reach(c, rest, v);
    }
    assert(reach_via(node, i, ft, v));
    lemma_reach_from_via(node, i, ft, v);
    assert forall|x: int| 0 <= x < t.len() implies token_ok(#[trigger] t[x]) by {
        if x < p.len() {
            assert(t[x] == p[x]);
        } else {
            assert(t[x] == rest[x - p.len()]);
        }
    }
}

/// A route reachable from below a node is stored there with tokens whose
/// units are the route.
pub proof fn lemma_reach_stores<T>(node: Node<T>, r: Seq<Piece>, v: T)
    requires
        wf_node(node),
        reach(node, r, v),
        !(r.len() == 0 && node.data == Some(v)),
    ensures
        exists|t: Seq<Seq<char>>| #[trigger] stores_below(node, t, v) && flat(t) == r,
    decreases node,
{
    lemma_reach_cases(node, r, v);
    let i = choose|i: int| #[trigger] reach_via(node, i, r, v);
    let c = node.children@[i];
    let p = tokens_view(c.path@);
    let fp = flat(p);
    let r2 = r.skip(fp.len() as int);
    assert(r =~= fp + r2);
    if r2.len() == 0 && c.data == Some(v) {
        assert(p.subrange(0, p.len() as int) =~= p);
        assert(stores_below(node, p, v));
        assert(flat(p) =~= r);
    } else {
        lemma_reach_stores(c, r2, v);
        let t2 = choose|t: Seq<Seq<char>>| #[trigger] stores_below(c, t, v) && flat(t) == r2;
        let t = p + t2;
        assert(t.subrange(0, p.len() as int) =~= p);
        assert(t.skip(p.len() as int) =~= t2);
        lemma_flat_concat(p, t2);
        assert(stores_below(node, t, v));
    }
}

/// Matching one unit at `pos`: a literal character must be there, except
/// that a `/` may be missing at the very end of the path; a parameter or
/// wildcard unit matches as its token does.
pub open spec fn unit_step(u: Piece, q: Seq<char>, pos: int) -> Option<(int, Option<(Seq<char>, Seq<char>)>)> {
    match u {
        Ok(c) => if 0 <= pos < q.len() && q[pos] == c {
            Some((pos + 1, None))
        } else if c == '/' && pos == q.len() {
            Some((pos, None))
        } else {
            None
        },
        Err(t) => match_token(t, q, pos),
    }
}

/// Matching units one after another from `pos`.
pub open spec fn match_units(u: Seq<Piece>, q: Seq<char>, pos: int) -> Option<(int, Captures)>
    decreases u.len(),
{
    if u.len() == 0 {
        Some((pos, Seq::empty()))
    } else {
        match unit_step(u[0], q, pos) {
            None => None,
            Some((after, cap)) => match match_units(u.skip(1), q, after) {
                None => None,
                Some((end_at, caps)) => Some((end_at, capture_seq(cap) + caps)),
            },
        }
    }
}

pub proof fn lemma_match_units_concat(a: Seq<Piece>, b: Seq<Piece>, q: Seq<char>, pos: int)
    ensures
        match_units(a + b, q, pos) == match match_units(a, q, pos) {
            None => None,
            Some((p, c1)) => match match_units(b, q, p) {
                None => None,
                Some((p2, c2)) => Some((p2, c1 + c2)),
            },
        },
    decreases a.len(),
{
    if a.len() == 0 {
        assert(a + b =~= b);
        match match_units(b, q, pos) {
            None => {},
            Some((p2, c2)) => {
                assert(Seq::<(Seq<char>, Seq<char>)>::empty() + c2 =~= c2);
            },
        }
    } else {
        let ab = a + b;
        assert(ab[0] == a[0]);
        assert(ab.skip(1) =~= a.skip(1) + b);
        match unit_step(a[0], q, pos) {
            None => {},
            Some((p1, cap)) => {
                lemma_match_units_concat(a.skip(1), b, q, p1);
                match match_units(a.skip(1), q, p1) {
                    None => {},
                    Some((p, c1)) => {
                        match match_units(b, q, p) {
                            None => {},
                            Some((p2, c2)) => {
                                assert(capture_seq(cap) + (c1 + c2) =~= (capture_seq(cap) + c1) + c2);
                            },
                        }
                    },
                }
            },
        }
    }
}

/// The literal `t` seen exactly at `pos` up to its `i`th character.
pub open spec fn lit_prefix(t: Seq<char>, q: Seq<char>, pos: int, i: int) -> bool {
    0 <= pos && pos + i <= q.len() && q.subrange(pos, pos + i) == t.subrange(0, i)
}

/// What matching the literal `t` at `pos` gives.
pub open spec fn lit_result(t: Seq<char>, q: Seq<char>, pos: int) -> Option<(int, Captures)> {
    if lit_prefix(t, q, pos, t.len() as int) {
        Some((pos + t.len(), Seq::empty()))
    } else if t.len() > 0 && t.last() == '/' && pos + t.len() - 1 == q.len() && lit_prefix(
        t,
        q,
        pos,
        t.len() - 1,
    ) {
        Some((q.len() as int, Seq::empty()))
    } else {
        None
    }
}

proof fn lemma_lit_units_from(t: Seq<char>, q: Seq<char>, pos: int, i: int)
    requires
        is_literal(t),
        no_double_slash(flat_token(t)),
        0 <= i <= t.len(),
        lit_prefix(t, q, pos, i),
    ensures
        match_units(flat_token(t).skip(i), q, pos + i) == lit_result(t, q, pos),
    decreases t.len() - i,
{
    let u = flat_token(t);
    let n = t.len() as int;
    let none: Captures = Seq::empty();
    assert(u.len() == n);
    assert(capture_seq(None) + none =~= none);
    if i == n {
        assert(u.skip(i).len() == 0);
        assert(t.subrange(0, n) =~= t);
        assert(lit_result(t, q, pos) == Some((pos + n, none)));
        assert(match_units(u.skip(i), q, pos + i) == Some((pos + n, none)));
    } else {
        let v = u.skip(i);
        assert(v[0] == Ok::<char, Seq<char>>(t[i]));
        assert(v.skip(1) =~= u.skip(i + 1));
        let at = pos + i;
        if 0 <= at < q.len() && q[at] == t[i] {
            assert(q.subrange(pos, at + 1) =~= q.subrange(pos, at).push(q[at]));
            assert(t.subrange(0, i + 1) =~= t.subrange(0, i).push(t[i]));
            lemma_lit_units_from(t, q, pos, i + 1);
            assert(unit_step(v[0], q, at) == Some((at + 1, None::<(Seq<char>, Seq<char>)>)));
            let rest = match_units(u.skip(i + 1), q, at + 1);
            match rest {
                None => {},
                Some((e, c)) => {
                    assert(c == none);
                    assert(capture_seq(None) + c =~= c);
                },
            }
            assert(match_units(v, q, at) == rest);
        } else if t[i] == '/' && at == q.len() {
            assert(unit_step(v[0], q, at) == Some((at, None::<(Seq<char>, Seq<char>)>)));
            if i + 1 < n {
                assert(u[i] == Ok::<char, Seq<char>>('/'));
                assert(t[i + 1] != '/') by {
                    assert(!(u[i] == Ok::<char, Seq<char>>('/') && u[i + 1] == Ok::<char, Seq<char>>('/')));
                }
                let w = u.skip(i + 1);
                assert(w[0] == Ok::<char, Seq<char>>(t[i + 1]));
                assert(unit_step(w[0], q, at) is None);
                assert(match_units(w, q, at) is None);
                assert(!lit_prefix(t, q, pos, n));
                assert(lit_result(t, q, pos) is None);
                assert(match_units(v, q, at) is None);
            } else {
                assert(u.skip(i + 1).len() == 0);
                assert(!lit_prefix(t, q, pos, n));
                assert(t.last() == '/');
                assert(lit_result(t, q, pos) == Some((q.len() as int, none)));
                assert(match_units(v.skip(1), q, at) == Some((at, none)));
                assert(match_units(v, q, at) == Some((at, capture_seq(None) + none)));
                assert(match_units(v, q, at) == lit_result(t, q, pos));
            }
        } else {
            assert(unit_step(v[0], q, at) is None);
            if lit_prefix(t, q, pos, n) {
                assert(q.subrange(pos, pos + n)[i] == t.subrange(0, n)[i]);
            }
            if t.last() == '/' && pos + n - 1 == q.len() && lit_prefix(t, q, pos, n - 1) {
                if i < n - 1 {
                    assert(q.subrange(pos, pos + n - 1)[i] == t.subrange(0, n - 1)[i]);
                }
            }
            assert(lit_result(t, q, pos) is None);
            assert(match_units(v, q, at) is None);
        }
    }
}

/// A literal token matches as its characters do, one unit at a time.
pub proof fn lemma_lit_units(t: Seq<char>, q: Seq<char>, pos: int)
    requires
        is_literal(t),
        no_double_slash(flat_token(t)),
        0 <= pos <= q.len(),
    ensures
        match_units(flat_token(t), q, pos) == match match_token(t, q, pos) {
            None => None,
            Some((p, c)) => Some((p, capture_seq(c))),
        },
{
    assert(q.subrange(pos, pos) =~= t.subrange(0, 0));
    lemma_lit_units_from(t, q, pos, 0);
    assert(flat_token(t).skip(0) =~= flat_token(t));
    assert(!is_wild(t)) by {
        if is_wild(t) {
            assert(t[0] == '*');
        }
    }
    assert(!is_param(t));
    let n = t.len() as int;
    if pos + n <= q.len() && q.subrange(pos, pos + n) == t {
        assert(t.subrange(0, n) =~= t);
    }
    if lit_prefix(t, q, pos, n) {
        assert(t.subrange(0, n) =~= t);
    }
    if t.len() > 0 && t.last() == '/' && pos + n - 1 == q.len() {
        assert(t.drop_last() =~= t.subrange(0, n - 1));
        assert(q.subrange(pos, q.len() as int) =~= q.subrange(pos, pos + n - 1));
    }
    assert(capture_seq(None) =~= Seq::<(Seq<char>, Seq<char>)>::empty());
}

pub proof fn lemma_match_token_pos(t: Seq<char>, q: Seq<char>, pos: int)
    requires
        0 <= pos <= q.len(),
    ensures
        match_token(t, q, pos) matches Some((p, _)) ==> pos <= p <= q.len(),
{
    if !is_wild(t) && is_param(t) {
        let start = if pos < q.len() && q[pos] == '/' {
            pos + 1
        } else {
            pos
        };
        lemma_seg_end(q, start);
    }
}

pub proof fn lemma_no_double_slash_parts(a: Seq<Piece>, b: Seq<Piece>)
    requires
        no_double_slash(a + b),
    ensures
        no_double_slash(a),
        no_double_slash(b),
{
    let ab = a + b;
    assert forall|i: int| 0 <= i < a.len() - 1 implies !(#[trigger] a[i] == Ok::<char, Seq<char>>('/')
        && a[i + 1] == Ok::<char, Seq<char>>('/')) by {
        assert(ab[i] == a[i] && ab[i + 1] == a[i + 1]);
        assert(!(ab[i] == Ok::<char, Seq<char>>('/') && ab[i + 1] == Ok::<char, Seq<char>>('/')));
    }
    assert forall|i: int| 0 <= i < b.len() - 1 implies !(#[trigger] b[i] == Ok::<char, Seq<char>>('/')
        && b[i + 1] == Ok::<char, Seq<char>>('/')) by {
        let j = a.len() + i;
        assert(ab[j] == b[i] && ab[j + 1] == b[i + 1]);
        assert(!(ab[j] == Ok::<char, Seq<char>>('/') && ab[j + 1] == Ok::<char, Seq<char>>('/')));
    }
}

/// Matching tokens is matching their units: how literals are cut into
/// pieces does not change what a route matches.
pub proof fn lemma_match_tokens_units(ts: Seq<Seq<char>>, q: Seq<char>, pos: int)
    requires
        tokens_ok(ts),
        no_double_slash(flat(ts)),
        0 <= pos <= q.len(),
    ensures
        match_tokens(ts, 0, q, pos) == match_units(flat(ts), q, pos),
    decreases ts.len(),
{
    if ts.len() > 0 {
        let t = ts[0];
        let rest = ts.skip(1);
        assert(ts =~= seq![t] + rest);
        lemma_flat_concat(seq![t], rest);
        lemma_flat_one(t);
        lemma_no_double_slash_parts(flat_token(t), flat(rest));
        lemma_match_units_concat(flat_token(t), flat(rest), q, pos);
        lemma_match_skip(ts, 1, q, pos);
        assert(token_ok(t));
        assert(tokens_ok(rest));
        lemma_match_token_pos(t, q, pos);
        if is_literal(t) {
            lemma_lit_units(t, q, pos);
        } else {
            let one = flat_token(t);
            assert(one == seq![Err::<char, Seq<char>>(t)]);
            assert(one.skip(1).len() == 0);
            match match_token(t, q, pos) {
                None => {},
                Some((p, c)) => {
                    assert(match_units(one.skip(1), q, p) == Some(
                        (p, Seq::<(Seq<char>, Seq<char>)>::empty()),
                    ));
                    assert(capture_seq(c) + Seq::<(Seq<char>, Seq<char>)>::empty() =~= capture_seq(c));
                    assert(match_units(one, q, pos) == Some((p, capture_seq(c))));
                },
            }
        }
        let head = match_units(flat_token(t), q, pos);
        assert(head == match match_token(t, q, pos) {
            None => None,
            Some((p, c)) => Some((p, capture_seq(c))),
        });
        assert(flat(ts) == flat_token(t) + flat(rest));
        match match_token(t, q, pos) {
            None => {
                assert(match_units(flat(ts), q, pos) is None);
            },
            Some((p2, cap)) => {
                lemma_match_skip(ts, 1, q, p2);
                lemma_match_tokens_units(rest, q, p2);
                assert(match_tokens(ts, 1, q, p2) == match_units(flat(rest), q, p2));
            },
        }
    }
}

/// Registering distinct routes one after another keeps every one of them:
/// when each trie of `tries` is the one before it with `routes[k]`
/// inserted, and no insertion met a differently named parameter, each
/// route leads in the last trie to its own value.
pub proof fn lemma_routes_kept<T>(tries: Seq<Node<T>>, routes: Seq<Seq<Piece>>, values: Seq<T>)
    requires
        tries.len() == routes.len() + 1,
        values.len() == routes.len(),
        forall|k: int, m: int| 0 <= k < m < routes.len() ==> routes[k] != routes[m],
        forall|k: int| 0 <= k < routes.len() ==> !param_clash(tries[k], routes[k]),
        forall|k: int|
            0 <= k < routes.len() ==> inserted(tries[k], #[trigger] tries[k + 1], routes[k], values[k]),
    ensures
        forall|k: int| 0 <= k < routes.len() ==> reach(tries.last(), #[trigger] routes[k], values[k]),
    decreases routes.len(),
{
    let n = routes.len() as int;
    if n > 0 {
        let t2 = tries.drop_last();
        let r2 = routes.drop_last();
        let v2 = values.drop_last();
        assert forall|k: int| 0 <= k < r2.len() implies inserted(t2[k], #[trigger] t2[k + 1], r2[k], v2[k]) by {
            assert(inserted(tries[k], tries[k + 1], routes[k], values[k]));
        }
        lemma_routes_kept(t2, r2, v2);
        let before = tries[n - 1];
        let after = tries[n];
        assert(t2.last() == before);
        assert(inserted(before, after, routes[n - 1], values[n - 1]));
        assert forall|k: int| 0 <= k < n implies reach(tries.last(), #[trigger] routes[k], values[k]) by {
            if k < n - 1 {
                assert(r2[k] == routes[k]);
                assert(reach(before, routes[k], values[k]));
                assert(routes[k] != routes[n - 1]);
            }
        }
    }
}

/// After routes were inserted one after another into a trie with no
/// routes, every route that leads somewhere is one of them, with its value.
pub proof fn lemma_routes_only<T>(tries: Seq<Node<T>>, routes: Seq<Seq<Piece>>, values: Seq<T>)
    requires
        tries.len() == routes.len() + 1,
        values.len() == routes.len(),
        tries[0].data is None,
        tries[0].children@.len() == 0,
        forall|k: int|
            0 <= k < routes.len() ==> inserted(tries[k], #[trigger] tries[k + 1], routes[k], values[k]),
    ensures
        tries.last().path == tries[0].path,
        forall|r: Seq<Piece>, w: T|
            #[trigger] reach(tries.last(), r, w) ==> exists|j: int|
                0 <= j < routes.len() && routes[j] == r && values[j] == w,
    decreases routes.len(),
{
    let n = routes.len() as int;
    if n == 0 {
        assert forall|r: Seq<Piece>, w: T| #[trigger] reach(tries.last(), r, w) implies exists|j: int|
            0 <= j < routes.len() && routes[j] == r && values[j] == w by {
            lemma_reach_cases(tries[0], r, w);
        }
    } else {
        let t2 = tries.drop_last();
        let r2 = routes.drop_last();
        let v2 = values.drop_last();
        assert forall|k: int| 0 <= k < r2.len() implies inserted(t2[k], #[trigger] t2[k + 1], r2[k], v2[k]) by {
            assert(inserted(tries[k], tries[k + 1], routes[k], values[k]));
        }
        lemma_routes_only(t2, r2, v2);
        assert(inserted(tries[n - 1], tries[n], routes[n - 1], values[n - 1]));
        assert(t2.last() == tries[n - 1]);
        assert forall|r: Seq<Piece>, w: T| #[trigger] reach(tries.last(), r, w) implies exists|j: int|
            0 <= j < routes.len() && routes[j] == r && values[j] == w by {
            if reach(tries[n - 1], r, w) {
                let j = choose|j: int| 0 <= j < r2.len() && r2[j] == r && v2[j] == w;
                assert(routes[j] == r && values[j] == w);
            } else {
                assert(routes[n - 1] == r && values[n - 1] == w);
            }
        }
    }
}

/// Whether the route with tokens `ts` matches all of the path `q`.
pub open spec fn matches_all(ts: Seq<Seq<char>>, q: Seq<char>) -> bool {
    match_tokens(ts, 0, q, 0) matches Some((p, _)) && p == q.len()
}


/// A lookup never answers with a wrong value: in a trie built by
/// inserting the parsed route paths `paths` one after another into a trie
/// with no routes, whatever a path looks up to is the value registered for
/// a route that matches the whole path, with that route's captures; and a
/// path that matches no registered route finds nothing.
pub proof fn lemma_trie_answers<T>(
    tries: Seq<Node<T>>,
    paths: Seq<Seq<char>>,
    keys: Seq<Seq<Seq<char>>>,
    values: Seq<T>,
    q: Seq<char>,
)
    requires
        tries.len() == keys.len() + 1,
        paths.len() == keys.len(),
        values.len() == keys.len(),
        tries[0].path@.len() == 0,
        tries[0].data is None,
        tries[0].children@.len() == 0,
        forall|j: int|
            0 <= j < keys.len() ==> parse_path(#[trigger] paths[j]) == Ok::<
                Seq<Seq<char>>,
                PathErrorView,
            >(keys[j]),
        forall|j: int|
            0 <= j < keys.len() ==> inserted(tries[j], #[trigger] tries[j + 1], flat(keys[j]), values[j]),
    ensures
        lookup(tries.last(), q) matches Some((v, c)) ==> exists|j: int|
            0 <= j < keys.len() && values[j] == v && #[trigger] match_tokens(keys[j], 0, q, 0) == Some(
                (q.len() as int, c),
            ),
        (forall|j: int| 0 <= j < keys.len() ==> !matches_all(#[trigger] keys[j], q)) ==> lookup(
            tries.last(),
            q,
        ) is None,
{
    let n = keys.len() as int;
    let last = tries.last();
    if n == 0 {
        assert(last == tries[0]);
        assert(tokens_view(last.path@).len() == 0);
        assert(search(last, q, 0, 0) is None);
        return;
    }
    let routes = Seq::new(keys.len(), |j: int| flat(keys[j]));
    assert forall|j: int| 0 <= j < routes.len() implies inserted(
        tries[j],
        #[trigger] tries[j + 1],
        routes[j],
        values[j],
    ) by {
        assert(routes[j] == flat(keys[j]));
        assert(inserted(tries[j], tries[j + 1], flat(keys[j]), values[j]));
    }
    lemma_routes_only(tries, routes, values);
    let m = n - 1;
    assert(inserted(tries[m], tries[m + 1], flat(keys[m]), values[m]));
    assert(tries[m + 1] == last);
    assert(wf_node(last));
    let own = tokens_view(last.path@);
    assert(own.len() == 0);
    assert(match_tokens(own, 0, q, 0) == Some((0int, Seq::<(Seq<char>, Seq<char>)>::empty())));
    lemma_lookup_sound(last, q);
    if lookup(last, q) is Some {
        let found = lookup(last, q)->Some_0;
        let v2 = found.0;
        let c2 = found.1;
        let j: int;
        if last.data == Some(v2) && match_tokens(own, 0, q, 0) == Some((q.len() as int, c2)) {
            assert(reach(last, Seq::<Piece>::empty(), v2));
            j = choose|j: int| 0 <= j < routes.len() && routes[j] == Seq::<Piece>::empty() && values[j] == v2;
            assert(routes[j] == flat(keys[j]));
            assert(parse_path(paths[j]) == Ok::<Seq<Seq<char>>, PathErrorView>(keys[j]));
            lemma_parsed_tokens(paths[j], keys[j]);
            if keys[j].len() > 0 {
                lemma_flat_nonempty(keys[j]);
            }
            assert(keys[j].len() == 0);
            assert(q.len() == 0);
            assert(c2 == Seq::<(Seq<char>, Seq<char>)>::empty());
        } else {
            let t = choose|t: Seq<Seq<char>>|
                #![trigger stores_below(last, t, v2)]
                stores_below(last, t, v2) && match_tokens(own + t, 0, q, 0) == Some((q.len() as int, c2));
            assert(own + t =~= t);
            lemma_stores_reach(last, t, v2);
            j = choose|j: int| 0 <= j < routes.len() && routes[j] == flat(t) && values[j] == v2;
            assert(routes[j] == flat(keys[j]));
            assert(parse_path(paths[j]) == Ok::<Seq<Seq<char>>, PathErrorView>(keys[j]));
            lemma_parsed_tokens(paths[j], keys[j]);
            lemma_match_tokens_units(t, q, 0);
            lemma_match_tokens_units(keys[j], q, 0);
        }
        assert(0 <= j < keys.len() && values[j] == v2 && match_tokens(keys[j], 0, q, 0) == Some(
            (q.len() as int, c2),
        ));
        assert(matches_all(keys[j], q));
    }
}

/// Registered routes are found again: when the route paths `paths`, parsed
/// into `keys`, were inserted one after another into a trie with no routes,
/// with distinct tokens and none of them meeting a differently named
/// parameter, a path that route `k` matches and no other registered route
/// matches looks up to route `k`'s value, with the parameters that route
/// `k` captures from it.
pub proof fn lemma_trie_round_trip<T>(
    tries: Seq<Node<T>>,
    paths: Seq<Seq<char>>,
    keys: Seq<Seq<Seq<char>>>,
    values: Seq<T>,
    k: int,
    q: Seq<char>,
)
    requires
        tries.len() == keys.len() + 1,
        paths.len() == keys.len(),
        values.len() == keys.len(),
        tries[0].path@.len() == 0,
        tries[0].data is None,
        tries[0].children@.len() == 0,
        forall|j: int|
            0 <= j < keys.len() ==> parse_path(#[trigger] paths[j]) == Ok::<
                Seq<Seq<char>>,
                PathErrorView,
            >(keys[j]),
        forall|a: int, b: int| 0 <= a < b < keys.len() ==> flat(keys[a]) != flat(keys[b]),
        forall|j: int| 0 <= j < keys.len() ==> !param_clash(tries[j], flat(#[trigger] keys[j])),
        forall|j: int|
            0 <= j < keys.len() ==> inserted(tries[j], #[trigger] tries[j + 1], flat(keys[j]), values[j]),
        0 <= k < keys.len(),
        matches_all(keys[k], q),
        forall|j: int| 0 <= j < keys.len() && j != k ==> !matches_all(#[trigger] keys[j], q),
    ensures
        lookup(tries.last(), q) == Some((values[k], match_tokens(keys[k], 0, q, 0)->Some_0.1)),
{
    let n = keys.len() as int;
    let routes = Seq::new(keys.len(), |j: int| flat(keys[j]));
    let last = tries.last();
    let v = values[k];
    let caps = match_tokens(keys[k], 0, q, 0)->Some_0.1;
    assert forall|j: int| 0 <= j < routes.len() implies inserted(
        tries[j],
        #[trigger] tries[j + 1],
        routes[j],
        values[j],
    ) by {
        assert(routes[j] == flat(keys[j]));
        assert(inserted(tries[j], tries[j + 1], flat(keys[j]), values[j]));
    }
    assert forall|a: int, b: int| 0 <= a < b < routes.len() implies routes[a] != routes[b] by {
        assert(routes[a] == flat(keys[a]) && routes[b] == flat(keys[b]));
    }
    assert forall|j: int| 0 <= j < routes.len() implies !param_clash(tries[j], routes[j]) by {
        assert(routes[j] == flat(keys[j]));
        assert(!param_clash(tries[j], flat(keys[j])));
    }
    lemma_routes_kept(tries, routes, values);
    lemma_routes_only(tries, routes, values);
    let m = n - 1;
    assert(inserted(tries[m], tries[m + 1], flat(keys[m]), values[m]));
    assert(tries[m + 1] == last);
    assert(wf_node(last));
    assert(routes[k] == flat(keys[k]));
    assert(reach(last, flat(keys[k]), v));
    assert(tokens_view(last.path@).len() == 0);
    let own = tokens_view(last.path@);
    assert(match_tokens(own, 0, q, 0) == Some((0int, Seq::<(Seq<char>, Seq<char>)>::empty())));
    assert(parse_path(paths[k]) == Ok::<Seq<Seq<char>>, PathErrorView>(keys[k]));
    lemma_parsed_tokens(paths[k], keys[k]);
    // The lookup finds something.
    if flat(keys[k]).len() == 0 && last.data == Some(v) {
        if keys[k].len() > 0 {
            lemma_flat_nonempty(keys[k]);
        }
        assert(keys[k].len() == 0);
        assert(q.len() == 0);
    } else {
        lemma_reach_stores(last, flat(keys[k]), v);
        let t = choose|t: Seq<Seq<char>>| #[trigger] stores_below(last, t, v) && flat(t) == flat(keys[k]);
        lemma_stores_reach(last, t, v);
        lemma_match_tokens_units(t, q, 0);
        lemma_match_tokens_units(keys[k], q, 0);
        assert(own + t =~= t);
        lemma_lookup_complete(last, q, t, v, caps);
    }
    // What it finds is route `k`.
    lemma_lookup_sound(last, q);
    let found = lookup(last, q)->Some_0;
    let v2 = found.0;
    let c2 = found.1;
    if last.data == Some(v2) && match_tokens(own, 0, q, 0) == Some((q.len() as int, c2)) {
        assert(reach(last, Seq::<Piece>::empty(), v2));
        let j = choose|j: int| 0 <= j < routes.len() && routes[j] == Seq::<Piece>::empty() && values[j] == v2;
        assert(routes[j] == flat(keys[j]));
        assert(parse_path(paths[j]) == Ok::<Seq<Seq<char>>, PathErrorView>(keys[j]));
        lemma_parsed_tokens(paths[j], keys[j]);
        if keys[j].len() > 0 {
            lemma_flat_nonempty(keys[j]);
        }
        assert(keys[j].len() == 0);
        assert(q.len() == 0);
        assert(matches_all(keys[j], q));
        assert(j == k);
    } else {
        let t = choose|t: Seq<Seq<char>>|
            #![trigger stores_below(last, t, v2)]
            stores_below(last, t, v2) && match_tokens(own + t, 0, q, 0) == Some((q.len() as int, c2));
        assert(own + t =~= t);
        lemma_stores_reach(last, t, v2);
        let j = choose|j: int| 0 <= j < routes.len() && routes[j] == flat(t) && values[j] == v2;
        assert(routes[j] == flat(keys[j]));
        assert(parse_path(paths[j]) == Ok::<Seq<Seq<char>>, PathErrorView>(keys[j]));
        lemma_parsed_tokens(paths[j], keys[j]);
        lemma_match_tokens_units(t, q, 0);
        lemma_match_tokens_units(keys[j], q, 0);
        assert(matches_all(keys[j], q));
        assert(j == k);
    }
}

} // verus!
