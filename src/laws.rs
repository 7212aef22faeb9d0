//! Properties of routing and parsing that hold for all inputs.

use vstd::prelude::*;
use crate::common::{append_value, key_index, lemma_key_index, lemma_put_unique, lookup, put};
use crate::connection::{ConnError, status_spec};
use crate::pattern::regex_finds;
use crate::request::{scheme_fold, scheme_key, scheme_of, scheme_value, cookie_fold, cookie_key, cookie_value, cookies_of, split_path_spec};
use crate::router::{REST, RequestPath, Route, RouteMap, methods_unique, table_index, fresh, first_wildcard, method_key, all_key, path_segments, plain_path, strip_slashes};
use crate::route_path::{SplitState, parse_route, scan, segment_field};
use crate::text::{lower_of, split, first_index, is_ws, last_index, lemma_last_index_at, trim, trim_end, trim_start};
use crate::trie::{HandlerId, FieldView, Node, accepts, find, find_params, fits, param_bindings, RouteError};

verus! {

/// A literal path resolves to the handler that the latest registration of
/// that path bound, whatever the other tiers hold.
pub proof fn law_explicit_last_binding(pre: RouteMap, post: RouteMap, p: &'static str, h: HandlerId, r: Result<(), RouteError>)
    requires
        pre.wf(),
        RouteMap::inserted(pre, post, RequestPath::Explicit(p), h, r),
        r is Ok,
    ensures
        post.seek(p@) == Some((h, Seq::<(Seq<char>, Seq<char>)>::empty())),
{
    lemma_put_unique(pre.explicit_view(), p@, h, true);
}

/// Binding another literal path leaves the resolution of `p` as it was.
pub proof fn law_explicit_other_path_kept(pre: RouteMap, post: RouteMap, q: &'static str, h: HandlerId, r: Result<(), RouteError>, p: Seq<char>)
    requires
        pre.wf(),
        RouteMap::inserted(pre, post, RequestPath::Explicit(q), h, r),
        q@ != p,
    ensures
        post.seek(p) == pre.seek(p),
{
    lemma_put_other(pre.explicit_view(), q@, h, true, p);
}

/// Storing under one key leaves the lookup of another key unchanged.
pub proof fn lemma_put_other<V>(v: Seq<(Seq<char>, V)>, k: Seq<char>, val: V, replace: bool, other: Seq<char>)
    requires
        k != other,
    ensures
        lookup(put(v, k, val, replace), other) == lookup(v, other),
{
    lemma_key_index(v, k);
    let w = put(v, k, val, replace);
    lemma_key_index_unchanged(v, w, other);
}

proof fn lemma_key_index_unchanged<V>(v: Seq<(Seq<char>, V)>, w: Seq<(Seq<char>, V)>, k: Seq<char>)
    requires
        w.len() >= v.len(),
        forall|i: int| 0 <= i < v.len() ==> (#[trigger] w[i]).0 == v[i].0,
        forall|i: int| 0 <= i < v.len() && v[i].0 == k ==> (#[trigger] w[i]).1 == v[i].1,
        forall|i: int| v.len() <= i < w.len() ==> (#[trigger] w[i]).0 != k,
    ensures
        lookup(w, k) == lookup(v, k),
{
    lemma_key_index_same(v, w, k);
    lemma_key_index(v, k);
}

proof fn lemma_key_index_same<V>(v: Seq<(Seq<char>, V)>, w: Seq<(Seq<char>, V)>, k: Seq<char>)
    requires
        w.len() >= v.len(),
        forall|i: int| 0 <= i < v.len() ==> (#[trigger] w[i]).0 == v[i].0,
        forall|i: int| v.len() <= i < w.len() ==> (#[trigger] w[i]).0 != k,
    ensures
        key_index(w, k) == key_index(v, k),
    decreases w.len(),
{
    if w.len() > v.len() {
        assert(w.last().0 != k);
        lemma_key_index_same(v, w.drop_last(), k);
    } else if v.len() > 0 {
        assert(w.last().0 == v.last().0);
        if v.last().0 != k {
            lemma_key_index_same(v.drop_last(), w.drop_last(), k);
        }
    }
}

/// Where a literal path is bound, it wins over parameterized and wildcard routes.
pub proof fn law_explicit_first(m: RouteMap, uri: Seq<char>, h: HandlerId)
    requires
        lookup(m.explicit_view(), uri) == Some(h),
    ensures
        m.seek(uri) == Some((h, Seq::<(Seq<char>, Seq<char>)>::empty())),
{
}

/// Wildcards are tried in registration order: the first whose pattern
/// matches wins, whatever later ones would match.
pub proof fn law_wildcard_first_match(ws: Seq<(Seq<char>, HandlerId)>, uri: Seq<char>, i: int)
    requires
        0 <= i < ws.len(),
        regex_finds(ws[i].0, uri),
        forall|j: int| 0 <= j < i ==> !regex_finds(#[trigger] ws[j].0, uri),
    ensures
        first_wildcard(ws, uri) == Some(ws[i].1),
    decreases i,
{
    if i > 0 {
        assert(!regex_finds(ws[0].0, uri));
        let t = ws.drop_first();
        assert forall|j: int| 0 <= j < i - 1 implies !regex_finds(#[trigger] t[j].0, uri) by {
            assert(t[j] == ws[j + 1]);
        }
        law_wildcard_first_match(t, uri, i - 1);
    }
}

/// A method without a table of its own falls back to the GET table only
/// for a header-only request; otherwise, without a table for every method,
/// nothing is found.
pub proof fn law_method_fallback(route: Route, method: REST, uri: Seq<char>, header_only: bool)
    requires
        route.table(method_key(method)).is_none(),
        route.table(all_key()).is_none(),
    ensures
        route.resolve(method, uri, header_only) == if header_only {
            match route.table(method_key(REST::GET)) {
                Some(m) => m.seek(uri),
                None => None,
            }
        } else {
            None
        },
        status_spec(ConnError::ServiceUnavailable) == Some(404u16),
        status_spec(ConnError::EmptyRequest) == Some(400u16),
{
}

proof fn lemma_trim_start_fixed(s: Seq<char>)
    ensures
        trim_start(s).len() <= s.len(),
        trim_start(s).len() == s.len() ==> trim_start(s) == s,
        s.len() > 0 && trim_start(s) == s ==> !is_ws(s[0]),
    decreases s.len(),
{
    if s.len() > 0 && is_ws(s[0]) {
        lemma_trim_start_fixed(s.drop_first());
    }
}

proof fn lemma_trim_end_fixed(s: Seq<char>)
    ensures
        trim_end(s).len() <= s.len(),
        trim_end(s).len() == s.len() ==> trim_end(s) == s,
        s.len() > 0 && trim_end(s) == s ==> !is_ws(s.last()),
    decreases s.len(),
{
    if s.len() > 0 && is_ws(s.last()) {
        lemma_trim_end_fixed(s.drop_last());
    }
}

/// A target that is a trimmed path without `?` or `#`, followed by `/`,
/// normalizes to that path, with no query string and no fragment: `P/` is
/// resolved as `P`.
pub proof fn law_trailing_slash(p: Seq<char>)
    requires
        p.len() >= 1,
        trim(p) == p,
        forall|j: int| 0 <= j < p.len() ==> #[trigger] p[j] != '#' && p[j] != '?',
    ensures
        split_path_spec(p + seq!['/']) == (p, Seq::<char>::empty(), Seq::<char>::empty()),
{
    lemma_trim_start_fixed(p);
    lemma_trim_end_fixed(trim_start(p));
    assert(trim_start(p) == p);
    lemma_trim_end_fixed(p);
    let u = p + seq!['/'];
    assert(u[0] == p[0]);
    assert(!is_ws(p[0]));
    assert(trim_start(u) == u);
    assert(u.last() == '/');
    assert(trim_end(u) == u);
    assert(trim(u) == u);
    assert forall|j: int| -1 < j < u.len() implies u[j] != '#' by {
        if j < p.len() {
            assert(u[j] == p[j]);
        }
    }
    lemma_last_index_at(u, '#', -1);
    assert forall|j: int| 0 <= j < u.len() implies u[j] != '?' by {
        if j < p.len() {
            assert(u[j] == p[j]);
        }
    }
    crate::text::lemma_first_index_at(u, '?', u.len() as int);
    assert(u.drop_last() =~= p);
}

/// Adding to a map without replacing keeps the value of a key already there.
proof fn lemma_put_keep(m: Seq<(Seq<char>, Seq<char>)>, k: Seq<char>, v: Seq<char>, key: Seq<char>)
    requires
        lookup(m, key).is_some(),
    ensures
        lookup(put(m, k, v, false), key) == lookup(m, key),
{
    if k != key {
        lemma_put_other(m, k, v, false, key);
    } else {
        lemma_key_index(m, k);
    }
}

proof fn lemma_cookie_fold_keep(m: Seq<(Seq<char>, Seq<char>)>, pieces: Seq<Seq<char>>, key: Seq<char>)
    requires
        lookup(m, key).is_some(),
    ensures
        lookup(cookie_fold(m, pieces), key) == lookup(m, key),
    decreases pieces.len(),
{
    if pieces.len() > 0 {
        lemma_cookie_fold_keep(m, pieces.drop_last(), key);
        let prev = cookie_fold(m, pieces.drop_last());
        let k = cookie_key(pieces.last());
        if k.len() > 0 {
            lemma_put_keep(prev, crate::text::lower_of(k), cookie_value(pieces.last()), key);
        }
    }
}

proof fn lemma_cookie_fold_append(m: Seq<(Seq<char>, Seq<char>)>, a: Seq<Seq<char>>, b: Seq<Seq<char>>)
    ensures
        cookie_fold(m, a + b) == cookie_fold(cookie_fold(m, a), b),
    decreases b.len(),
{
    if b.len() == 0 {
        assert(a + b =~= a);
    } else {
        assert((a + b).drop_last() =~= a + b.drop_last());
        assert((a + b).last() == b.last());
        lemma_cookie_fold_append(m, a, b.drop_last());
    }
}

proof fn lemma_cookie_fold_absent(m: Seq<(Seq<char>, Seq<char>)>, pieces: Seq<Seq<char>>, key: Seq<char>)
    requires
        lookup(m, key).is_none(),
        forall|j: int| 0 <= j < pieces.len() ==> cookie_key(#[trigger] pieces[j]).len() == 0
            || crate::text::lower_of(cookie_key(pieces[j])) != key,
    ensures
        lookup(cookie_fold(m, pieces), key).is_none(),
    decreases pieces.len(),
{
    if pieces.len() > 0 {
        let init = pieces.drop_last();
        assert forall|j: int| 0 <= j < init.len() implies cookie_key(#[trigger] init[j]).len() == 0
            || crate::text::lower_of(cookie_key(init[j])) != key by {
            assert(init[j] == pieces[j]);
        }
        lemma_cookie_fold_absent(m, init, key);
        let prev = cookie_fold(m, init);
        let last = pieces[pieces.len() - 1];
        let k = cookie_key(last);
        if k.len() > 0 {
            lemma_put_other(prev, crate::text::lower_of(k), cookie_value(last), false, key);
        }
    }
}

/// The first pair of a cookie header with a given key sets that key (stored
/// lowercased) to its value, where no earlier pair and no cookie already
/// known has that key; later pairs with the key change nothing.
pub proof fn law_cookie_first_occurrence(m: Seq<(Seq<char>, Seq<char>)>, body: Seq<char>, i: int)
    requires
        body.len() > 0,
        0 <= i < split(trim(body), ';').len(),
        cookie_key(split(trim(body), ';')[i]).len() > 0,
        lookup(m, lower_of(cookie_key(split(trim(body), ';')[i]))).is_none(),
        forall|j: int| 0 <= j < i ==> cookie_key(#[trigger] split(trim(body), ';')[j]).len() == 0
            || lower_of(cookie_key(split(trim(body), ';')[j])) != lower_of(cookie_key(split(trim(body), ';')[i])),
    ensures
        lookup(cookies_of(m, body), lower_of(cookie_key(split(trim(body), ';')[i])))
            == Some(cookie_value(split(trim(body), ';')[i])),
{
    let ps = split(trim(body), ';');
    let piece = ps[i];
    let key = lower_of(cookie_key(piece));
    let before = ps.subrange(0, i);
    let after = ps.subrange(i + 1, ps.len() as int);
    assert(ps =~= before.push(piece) + after);
    lemma_cookie_fold_append(m, before.push(piece), after);
    assert forall|j: int| 0 <= j < before.len() implies cookie_key(#[trigger] before[j]).len() == 0
        || lower_of(cookie_key(before[j])) != key by {
        assert(before[j] == ps[j]);
    }
    lemma_cookie_fold_absent(m, before, key);
    let prev = cookie_fold(m, before);
    assert(before.push(piece).drop_last() =~= before);
    let mid = cookie_fold(m, before.push(piece));
    assert(mid == put(prev, key, cookie_value(piece), false));
    lemma_key_index(prev, key);
    assert(key_index(prev, key) == -1);
    assert(mid == prev.push((key, cookie_value(piece))));
    assert(lookup(mid, key) == Some(cookie_value(piece)));
    lemma_cookie_fold_keep(mid, after, key);
}

/// Cookies already known keep their first value, whatever later pairs say.
pub proof fn law_cookie_first_value_kept(m: Seq<(Seq<char>, Seq<char>)>, body: Seq<char>, key: Seq<char>)
    requires
        lookup(m, key).is_some(),
    ensures
        lookup(cookies_of(m, body), key) == lookup(m, key),
{
    if body.len() > 0 {
        lemma_cookie_fold_keep(m, crate::text::split(trim(body), ';'), key);
    }
}

/// The bindings `b` of a resolution of `segs` through `nodes`: binding `i`
/// holds the segment at position `pos[i]`, positions strictly increase (one
/// binding per segment at most), and it was made by node `ps[i]`, a node
/// named like the binding whose validator accepts the value.
pub open spec fn bindings_sound(nodes: Seq<Node>, segs: Seq<Seq<char>>, b: Seq<(Seq<char>, Seq<char>)>, pos: Seq<int>, ps: Seq<int>) -> bool {
    &&& pos.len() == b.len() && ps.len() == b.len()
    &&& b.len() <= segs.len()
    &&& forall|i: int| 0 <= i < b.len() ==> 0 <= #[trigger] pos[i] < segs.len() && b[i].1 == segs[pos[i]]
    &&& forall|i: int, j: int| 0 <= i < j < b.len() ==> #[trigger] pos[i] < #[trigger] pos[j]
    &&& forall|i: int| 0 <= i < b.len() ==> {
        let p = #[trigger] ps[i];
        &&& 0 <= p < nodes.len()
        &&& nodes[p].field@.0 == b[i].0
        &&& accepts(nodes[p].field@, b[i].1)
    }
}

/// Positions one further on.
pub open spec fn shifted(pos: Seq<int>) -> Seq<int> {
    pos.map_values(|x: int| x + 1)
}

proof fn lemma_prepend(nodes: Seq<Node>, segs: Seq<Seq<char>>, p: int, b: Seq<(Seq<char>, Seq<char>)>, pos: Seq<int>, ps: Seq<int>)
    requires
        segs.len() >= 1,
        0 <= p < nodes.len(),
        accepts(nodes[p].field@, segs[0]),
        bindings_sound(nodes, segs.drop_first(), b, pos, ps),
    ensures
        bindings_sound(nodes, segs, seq![(nodes[p].field@.0, segs[0])] + b, seq![0int] + shifted(pos), seq![p] + ps),
{
    let b2 = seq![(nodes[p].field@.0, segs[0])] + b;
    let pos2 = seq![0int] + shifted(pos);
    let ps2 = seq![p] + ps;
    assert forall|i: int| 0 <= i < b2.len() implies 0 <= #[trigger] pos2[i] < segs.len() && b2[i].1 == segs[pos2[i]] by {
        if i > 0 {
            assert(pos2[i] == pos[i - 1] + 1);
            assert(b2[i] == b[i - 1]);
        }
    }
    assert forall|i: int, j: int| 0 <= i < j < b2.len() implies #[trigger] pos2[i] < #[trigger] pos2[j] by {
        assert(pos2[j] == pos[j - 1] + 1);
        if i > 0 {
            assert(pos2[i] == pos[i - 1] + 1);
            assert(pos[i - 1] < pos[j - 1]);
        } else {
            assert(0 <= pos[j - 1]);
        }
    }
    assert forall|i: int| 0 <= i < b2.len() implies {
        let q = #[trigger] ps2[i];
        &&& 0 <= q < nodes.len()
        &&& nodes[q].field@.0 == b2[i].0
        &&& accepts(nodes[q].field@, b2[i].1)
    } by {
        if i > 0 {
            assert(ps2[i] == ps[i - 1]);
            assert(b2[i] == b[i - 1]);
        }
    }
}

proof fn lemma_find_sound(nodes: Seq<Node>, n: int, segs: Seq<Seq<char>>) -> (w: (Seq<int>, Seq<int>))
    ensures
        find(nodes, n, segs) matches Some((h, b)) ==> bindings_sound(nodes, segs, b, w.0, w.1),
    decreases segs.len(), 1nat, 0nat,
{
    if segs.len() == 0 || !(0 <= n < nodes.len()) {
        (Seq::empty(), Seq::empty())
    } else {
        let c = crate::trie::named_pos(nodes, nodes[n].named@, segs[0]);
        if 0 <= c < nodes.len() {
            if segs.len() == 1 {
                (Seq::empty(), Seq::empty())
            } else {
                let (pos, ps) = lemma_find_sound(nodes, c, segs.drop_first());
                let r = (shifted(pos), ps);
                if let Some((h, b)) = find(nodes, n, segs) {
                    assert forall|i: int| 0 <= i < b.len() implies 0 <= #[trigger] r.0[i] < segs.len() && b[i].1 == segs[r.0[i]] by {
                        assert(r.0[i] == pos[i] + 1);
                    }
                    assert forall|i: int, j: int| 0 <= i < j < b.len() implies #[trigger] r.0[i] < #[trigger] r.0[j] by {
                        assert(r.0[i] == pos[i] + 1);
                        assert(r.0[j] == pos[j] + 1);
                    }
                }
                r
            }
        } else {
            lemma_find_params_sound(nodes, n, segs, 0)
        }
    }
}

proof fn lemma_find_params_sound(nodes: Seq<Node>, n: int, segs: Seq<Seq<char>>, k: int) -> (w: (Seq<int>, Seq<int>))
    ensures
        find_params(nodes, n, segs, k) matches Some((h, b)) ==> bindings_sound(nodes, segs, b, w.0, w.1),
    decreases segs.len(), 0nat, (if 0 <= n < nodes.len() && 0 <= k < nodes[n].params@.len() { nodes[n].params@.len() - k } else { 0 }) as nat,
{
    if segs.len() == 0 || !(0 <= n < nodes.len()) || !(0 <= k < nodes[n].params@.len()) {
        (Seq::empty(), Seq::empty())
    } else {
        let p = nodes[n].params@[k] as int;
        if !(0 <= p < nodes.len()) || !accepts(nodes[p].field@, segs[0]) {
            lemma_find_params_sound(nodes, n, segs, k + 1)
        } else if segs.len() == 1 {
            if nodes[p].handler.is_none() {
                lemma_find_params_sound(nodes, n, segs, k + 1)
            } else {
                let r = (seq![0int], seq![p]);
                if let Some((h, b)) = find_params(nodes, n, segs, k) {
                    assert(b == seq![(nodes[p].field@.0, segs[0])]);
                    assert(r.1[0] == p);
                }
                r
            }
        } else {
            match find(nodes, p, segs.drop_first()) {
                Some((h, b)) => {
                    let (pos, ps) = lemma_find_sound(nodes, p, segs.drop_first());
                    lemma_prepend(nodes, segs, p, b, pos, ps);
                    (seq![0int] + shifted(pos), seq![p] + ps)
                },
                None => lemma_find_params_sound(nodes, n, segs, k + 1),
            }
        }
    }
}

/// The parameter bindings of a successful trie resolution are exactly
/// segment values: each binding holds the segment at its own position, in
/// increasing order, so a branch that was tried and given up leaves no
/// binding behind; and each was made by a parameter node of that name whose
/// validator, if any, matches the value.
pub proof fn law_bindings_are_segments(nodes: Seq<Node>, segs: Seq<Seq<char>>) -> (w: (Seq<int>, Seq<int>))
    ensures
        find(nodes, 0, segs) matches Some((h, b)) ==> bindings_sound(nodes, segs, b, w.0, w.1),
{
    lemma_find_sound(nodes, 0, segs)
}

/// No two parameter fields share a name.
pub open spec fn params_distinct(fs: Seq<FieldView>) -> bool {
    forall|i: int, j: int| 0 <= i < j < fs.len() && fs[i].1 && fs[j].1 ==> #[trigger] fs[i].0 != #[trigger] fs[j].0
}

/// Every parameter name in `acc` is recorded in `names`.
pub open spec fn names_cover(acc: Seq<FieldView>, names: Seq<Seq<char>>) -> bool {
    forall|i: int| 0 <= i < acc.len() && (#[trigger] acc[i]).1 ==> names.contains(acc[i].0)
}

proof fn lemma_segment_keeps(acc: Seq<FieldView>, names: Seq<Seq<char>>, seg: Seq<char>)
    requires
        params_distinct(acc),
        names_cover(acc, names),
    ensures
        segment_field(seg, names) matches Ok(Some((f, n2))) ==> params_distinct(acc.push(f)) && names_cover(acc.push(f), n2),
{
    if let Ok(Some((f, n2))) = segment_field(seg, names) {
        let a2 = acc.push(f);
        if f.1 {
            assert(!names.contains(f.0));
            assert(n2 == names.push(f.0));
            assert forall|i: int, j: int| 0 <= i < j < a2.len() && a2[i].1 && a2[j].1 implies #[trigger] a2[i].0 != #[trigger] a2[j].0 by {
                if j == acc.len() {
                    assert(names.contains(acc[i].0));
                }
            }
            assert forall|i: int| 0 <= i < a2.len() && (#[trigger] a2[i]).1 implies n2.contains(a2[i].0) by {
                if i < acc.len() {
                    let w = choose|w: int| 0 <= w < names.len() && names[w] == acc[i].0;
                    assert(n2[w] == acc[i].0);
                } else {
                    assert(n2[names.len() as int] == f.0);
                }
            }
        } else {
            assert(n2 == names);
            assert forall|i: int, j: int| 0 <= i < j < a2.len() && a2[i].1 && a2[j].1 implies #[trigger] a2[i].0 != #[trigger] a2[j].0 by {
                assert(j < acc.len());
            }
        }
    }
}

proof fn lemma_scan_distinct(s: Seq<char>, i: int, st: SplitState, start: int, acc: Seq<FieldView>, names: Seq<Seq<char>>)
    requires
        params_distinct(acc),
        names_cover(acc, names),
    ensures
        scan(s, i, st, start, acc, names) matches Ok(fs) ==> params_distinct(fs),
    decreases s.len() - i,
{
    if i >= s.len() {
        lemma_segment_keeps(acc, names, s.subrange(start, s.len() as int));
    } else {
        match crate::route_path::step(st, s[i]) {
            Err(e) => {},
            Ok((st2, is_split)) => if !is_split {
                lemma_scan_distinct(s, i + 1, st2, start, acc, names);
            } else {
                lemma_segment_keeps(acc, names, s.subrange(start, i));
                match segment_field(s.subrange(start, i), names) {
                    Err(e) => {},
                    Ok(None) => lemma_scan_distinct(s, i + 1, st2, i + 1, acc, names),
                    Ok(Some((f, names2))) => lemma_scan_distinct(s, i + 1, st2, i + 1, acc.push(f), names2),
                }
            },
        }
    }
}

/// A route path that parses has parameters with pairwise different names:
/// a path naming one parameter twice is always rejected.
pub proof fn law_param_names_unique(s: Seq<char>)
    ensures
        parse_route(s) matches Ok(fs) ==> params_distinct(fs),
{
    lemma_scan_distinct(s, 0, SplitState::Normal, 0, Seq::empty(), Seq::empty());
}

/// A trie whose root has no children resolves nothing.
proof fn lemma_empty_trie_resolves_nothing(nodes: Seq<Node>, segs: Seq<Seq<char>>)
    requires
        nodes.len() >= 1,
        nodes[0].named@.len() == 0,
        nodes[0].params@.len() == 0,
    ensures
        find(nodes, 0, segs).is_none(),
{
    if segs.len() > 0 {
        assert(find_params(nodes, 0, segs, 0).is_none());
    }
}

/// A parameterized route registered in a table without parameterized routes
/// resolves every path whose segments fit it, binding each parameter to
/// exactly the segment at its position, unless a literal path takes the URI.
pub proof fn law_param_route_binds_segments(pre: RouteMap, post: RouteMap, p: &'static str, h: HandlerId, r: Result<(), RouteError>, uri: Seq<char>)
    requires
        pre.wf(),
        pre.trie().is_empty_spec(),
        lookup(pre.explicit_view(), uri).is_none(),
        RouteMap::inserted(pre, post, RequestPath::ExplicitWithParams(p), h, r),
        r is Ok,
        !plain_path(p@),
        parse_route(p@) matches Ok(fs) && fits(fs, path_segments(uri)),
    ensures
        post.seek(uri) == Some((h, param_bindings(parse_route(p@).unwrap(), path_segments(uri)))),
{
    let fs = parse_route(p@).unwrap();
    let segs = path_segments(uri);
    crate::request::lemma_split_nonempty(strip_slashes(uri), '/');
    assert(fs.len() >= 1);
    assert(post.trie().resolve(segs) == Some((h, param_bindings(fs, segs))));
    if post.trie().is_empty_spec() {
        lemma_empty_trie_resolves_nothing(post.trie().nodes(), segs);
    }
}

/// In a store with one table per method, the table of key `k` is the one at
/// the position holding `k`.
proof fn lemma_table_index_at(s: Seq<(REST, RouteMap)>, k: (int, Seq<char>), i: int)
    requires
        methods_unique(s),
        0 <= i < s.len(),
        method_key(s[i].0) == k,
    ensures
        table_index(s, k) == i,
{
    assert(exists|x: int| 0 <= x < s.len() && #[trigger] method_key(s[x].0) == k);
    let j = table_index(s, k);
    if j != i {
        if j < i {
            assert(method_key(s[j].0) != method_key(s[i].0));
        } else {
            assert(method_key(s[i].0) != method_key(s[j].0));
        }
    }
}

/// Once a literal path is registered for a method, resolving that path for
/// that method gives the handler of this latest registration, whether the
/// method had a table before or not.
pub proof fn law_route_explicit_binding(pre: Route, post: Route, method: REST, p: &'static str, h: HandlerId, r: Result<(), RouteError>, header_only: bool)
    requires
        pre.wf(),
        post.wf(),
        Route::registered(pre, post, method_key(method), RequestPath::Explicit(p), h, r),
        r is Ok,
    ensures
        post.resolve(method, p@, header_only) == Some((h, Seq::<(Seq<char>, Seq<char>)>::empty())),
{
    let k = method_key(method);
    let i = table_index(pre.tables(), k);
    if 0 <= i < pre.tables().len() {
        lemma_table_index_at(post.tables(), k, i);
        assert(pre.tables()[i].1.wf());
        law_explicit_last_binding(pre.tables()[i].1, post.tables()[i].1, p, h, r);
    } else {
        let (e, m) = choose|e: RouteMap, m: RouteMap| fresh(e) && #[trigger] RouteMap::inserted(e, m, RequestPath::Explicit(p), h, r)
            && (r is Ok ==> post.tables().last().1 == m);
        lemma_table_index_at(post.tables(), k, post.tables().len() - 1);
        law_explicit_last_binding(e, m, p, h, r);
    }
}

/// The values of the pieces whose key is `k`, in order.
pub open spec fn values_for(pieces: Seq<Seq<char>>, k: Seq<char>) -> Seq<Seq<char>>
    decreases pieces.len(),
{
    if pieces.len() == 0 {
        Seq::empty()
    } else if scheme_key(pieces.last()) == k {
        values_for(pieces.drop_last(), k).push(scheme_value(pieces.last()))
    } else {
        values_for(pieces.drop_last(), k)
    }
}

proof fn lemma_append_value_lookup(m: Seq<(Seq<char>, Seq<Seq<char>>)>, k2: Seq<char>, v: Seq<char>, k: Seq<char>)
    ensures
        lookup(append_value(m, k2, v), k) == if k2 == k {
            Some(match lookup(m, k) { Some(vals) => vals.push(v), None => seq![v] })
        } else {
            lookup(m, k)
        },
{
    lemma_key_index(m, k2);
    lemma_key_index(m, k);
    let w = append_value(m, k2, v);
    let i = key_index(m, k2);
    if 0 <= i < m.len() {
        lemma_key_index_same(m, w, k);
    } else if k2 == k {
        assert(w.last().0 == k);
        assert(key_index(w, k) == m.len());
    } else {
        lemma_key_index_same(m, w, k);
    }
}

proof fn lemma_scheme_fold_values(pieces: Seq<Seq<char>>, k: Seq<char>)
    ensures
        lookup(scheme_fold(Seq::empty(), pieces), k) == if values_for(pieces, k).len() > 0 {
            Some(values_for(pieces, k))
        } else {
            None
        },
    decreases pieces.len(),
{
    if pieces.len() > 0 {
        lemma_scheme_fold_values(pieces.drop_last(), k);
        lemma_append_value_lookup(scheme_fold(Seq::empty(), pieces.drop_last()), scheme_key(pieces.last()), scheme_value(pieces.last()), k);
        if values_for(pieces.drop_last(), k).len() == 0 && scheme_key(pieces.last()) == k {
            assert(values_for(pieces.drop_last(), k).push(scheme_value(pieces.last())) =~= seq![scheme_value(pieces.last())]);
        }
    } else {
        assert(key_index(Seq::<(Seq<char>, Seq<Seq<char>>)>::empty(), k) == -1);
    }
}

/// The query map of a query string holds, under each key, the values of the
/// `&`-separated pairs with that key, in the order they come; a key that no
/// pair has is absent.
pub proof fn law_query_values_in_order(scheme: Seq<char>, k: Seq<char>)
    ensures
        lookup(scheme_of(scheme), k) == if values_for(split(trim(scheme), '&'), k).len() > 0 {
            Some(values_for(split(trim(scheme), '&'), k))
        } else {
            None
        },
{
    lemma_scheme_fold_values(split(trim(scheme), '&'), k);
}

} // verus!
