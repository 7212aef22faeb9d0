//! The router: per-method route tables, each an explicit map, a segment trie
//! and an ordered list of wildcard patterns.

use vstd::prelude::*;
use crate::common::{TextMap, lookup, put, key_index, lemma_key_index, lemma_key_index_at, keys_unique, lemma_put_unique};
use crate::pattern::{Pattern, regex_compiles, regex_finds};
use crate::text::{upper_of, to_uppercase, chars_of, split, split_on, string_of, slice_to_vec};
use crate::route_path::{SplitState, parse_route, scan, step_exec, segment_to_field};
use crate::trie::{Field, FieldView, HandlerId, RouteError, RouteTrie, added, leaves_have_handlers, all_literal, collides, fields_view, fits, names_of, pairs_view, param_bindings, segs_view};

verus! {

/// A request method. `OTHER` holds any other token, uppercased; `OTHER("*")`
/// is the table that matches every method.
#[derive(Debug, Clone, PartialEq, Eq, Hash)]
pub enum REST {
    GET,
    PATCH,
    POST,
    PUT,
    DELETE,
    OPTIONS,
    OTHER(String),
}

/// The identity of a method: its variant and, for `OTHER`, its token.
pub open spec fn method_key(m: REST) -> (int, Seq<char>) {
    match m {
        REST::GET => (0, Seq::empty()),
        REST::PATCH => (1, Seq::empty()),
        REST::POST => (2, Seq::empty()),
        REST::PUT => (3, Seq::empty()),
        REST::DELETE => (4, Seq::empty()),
        REST::OPTIONS => (5, Seq::empty()),
        REST::OTHER(s) => (6, s@),
    }
}

/// The key of the table that matches every method.
pub open spec fn all_key() -> (int, Seq<char>) {
    (6, seq!['*'])
}

impl REST {
    pub fn key_eq(&self, other: &REST) -> (r: bool)
        ensures
            r == (method_key(*self) == method_key(*other)),
    {
        match (self, other) {
            (REST::GET, REST::GET) => true,
            (REST::PATCH, REST::PATCH) => true,
            (REST::POST, REST::POST) => true,
            (REST::PUT, REST::PUT) => true,
            (REST::DELETE, REST::DELETE) => true,
            (REST::OPTIONS, REST::OPTIONS) => true,
            (REST::OTHER(a), REST::OTHER(b)) => a.eq(b),
            (REST::OTHER(a), _) => false,
            (_, REST::OTHER(b)) => false,
            _ => {
                assert(method_key(*self).0 != method_key(*other).0);
                false
            },
        }
    }
}

/// How a route is given at registration.
#[derive(Debug, Clone, Copy, PartialEq, Eq, Hash)]
pub enum RequestPath {
    /// A literal path, matched exactly.
    Explicit(&'static str),
    /// A path with `:name` or `:name(regex)` segments.
    ExplicitWithParams(&'static str),
    /// A regex matched against the whole normalized path.
    WildCard(&'static str),
}

/// Whether `s` holds `a` immediately followed by `b`.
pub open spec fn has_pair(s: Seq<char>, a: char, b: char) -> bool {
    exists|i: int| 0 <= i < s.len() - 1 && #[trigger] s[i] == a && s[i + 1] == b
}

fn contains_pair(s: &[char], a: char, b: char) -> (r: bool)
    ensures
        r == has_pair(s@, a, b),
{
    let mut i: usize = 0;
    while i < s.len()
        invariant
            i <= s@.len(),
            forall|j: int| 0 <= j < i && j < s@.len() - 1 ==> !(#[trigger] s@[j] == a && s@[j + 1] == b),
        decreases s@.len() - i,
    {
        if i + 1 < s.len() && s[i] == a && s[i + 1] == b {
            return true;
        }
        i = i + 1;
    }
    false
}

/// The first wildcard, in registration order, whose pattern matches `uri`.
pub open spec fn first_wildcard(ws: Seq<(Seq<char>, HandlerId)>, uri: Seq<char>) -> Option<HandlerId>
    decreases ws.len(),
{
    if ws.len() == 0 {
        None
    } else if regex_finds(ws[0].0, uri) {
        Some(ws[0].1)
    } else {
        first_wildcard(ws.drop_first(), uri)
    }
}

/// `s` without its leading and trailing `/`s.
pub open spec fn strip_slashes(s: Seq<char>) -> Seq<char>
    decreases s.len(),
{
    if s.len() > 0 && s[0] == '/' {
        strip_slashes(s.drop_first())
    } else if s.len() > 0 && s.last() == '/' {
        strip_slashes(s.drop_last())
    } else {
        s
    }
}

/// The segments that the trie is searched with.
pub open spec fn path_segments(uri: Seq<char>) -> Seq<Seq<char>> {
    split(strip_slashes(uri), '/')
}

/// `v` after storing each binding of `b` in turn, later ones replacing earlier.
pub open spec fn put_all(v: Seq<(Seq<char>, Seq<char>)>, b: Seq<(Seq<char>, Seq<char>)>) -> Seq<(Seq<char>, Seq<char>)>
    decreases b.len(),
{
    if b.len() == 0 {
        v
    } else {
        put(put_all(v, b.drop_last()), b.last().0, b.last().1, true)
    }
}

/// Whether a wildcard with pattern source `p` is registered.
pub open spec fn has_source(ws: Seq<(Seq<char>, HandlerId)>, p: Seq<char>) -> bool {
    exists|i: int| 0 <= i < ws.len() && #[trigger] ws[i].0 == p
}

/// Whether a parameterized path holds no parameter marker and is stored as a
/// literal path.
pub open spec fn plain_path(p: Seq<char>) -> bool {
    !has_pair(p, '/', ':') && !has_pair(p, ':', '\\')
}

/// Bounds `[a, b)` of `strip_slashes(s@)` within `s`.
fn strip_slashes_bounds(s: &[char]) -> (r: (usize, usize))
    ensures
        r.0 <= r.1 <= s@.len(),
        s@.subrange(r.0 as int, r.1 as int) == strip_slashes(s@),
{
    let n = s.len();
    let mut i: usize = 0;
    assert(s@.subrange(0, n as int) =~= s@);
    while i < n && s[i] == '/'
        invariant
            i <= n == s@.len(),
            strip_slashes(s@.subrange(i as int, n as int)) == strip_slashes(s@),
        decreases n - i,
    {
        assert(s@.subrange(i as int, n as int).drop_first() =~= s@.subrange(i + 1, n as int));
        i = i + 1;
    }
    let mut j: usize = n;
    while j > i && s[j - 1] == '/'
        invariant
            i <= j <= n == s@.len(),
            i < n ==> s@[i as int] != '/',
            strip_slashes(s@.subrange(i as int, j as int)) == strip_slashes(s@),
        decreases j,
    {
        let ghost sub = s@.subrange(i as int, j as int);
        assert(sub.drop_last() =~= s@.subrange(i as int, j - 1));
        assert(sub[0] == s@[i as int]);
        j = j - 1;
    }
    let ghost sub = s@.subrange(i as int, j as int);
    if j > i {
        assert(sub[0] == s@[i as int]);
        assert(sub.last() == s@[j - 1]);
    }
    (i, j)
}

/// Resolves `uri` in the trie, splitting it into segments at `/` after
/// dropping its leading and trailing `/`s.
fn search_params_router(route_head: &RouteTrie, uri: &str) -> (r: (Option<HandlerId>, Vec<(String, String)>))
    requires
        route_head.wf(),
    ensures
        match route_head.resolve(path_segments(uri@)) {
            Some((h, b)) => r.0 == Some(h) && pairs_view(r.1@) == b,
            None => r.0.is_none() && pairs_view(r.1@) == Seq::<(Seq<char>, Seq<char>)>::empty(),
        },
{
    let cs = chars_of(uri);
    let (a, b) = strip_slashes_bounds(&cs);
    let inner = slice_to_vec(&cs, a, b);
    let pieces = split_on(&inner, '/');
    let mut raw_segments: Vec<String> = Vec::new();
    let mut i: usize = 0;
    while i < pieces.len()
        invariant
            i <= pieces@.len(),
            raw_segments@.len() == i,
            forall|j: int| 0 <= j < i ==> #[trigger] raw_segments@[j]@ == pieces@[j]@,
        decreases pieces@.len() - i,
    {
        raw_segments.push(string_of(&pieces[i]));
        i = i + 1;
    }
    assert(segs_view(raw_segments@) =~= path_segments(uri@));
    let mut params: Vec<(String, String)> = Vec::new();
    assert(pairs_view(params@) =~= Seq::<(Seq<char>, Seq<char>)>::empty());
    let result = route_head.find(&raw_segments, &mut params);
    proof {
        match route_head.resolve(path_segments(uri@)) {
            Some((h, bb)) => { assert(pairs_view(params@) =~= bb); },
            None => {},
        }
    }
    (result, params)
}

/// The routes of one method.
pub struct RouteMap {
    explicit: Vec<(String, HandlerId)>,
    explicit_with_params: RouteTrie,
    wildcard: Vec<(Pattern, HandlerId)>,
}

impl RouteMap {
    /// Literal paths and their handlers.
    pub closed spec fn explicit_view(&self) -> Seq<(Seq<char>, HandlerId)> {
        Seq::new(self.explicit@.len(), |i: int| (self.explicit@[i].0@, self.explicit@[i].1))
    }

    /// Wildcard pattern sources and their handlers, in registration order.
    pub closed spec fn wildcard_view(&self) -> Seq<(Seq<char>, HandlerId)> {
        Seq::new(self.wildcard@.len(), |i: int| (self.wildcard@[i].0@, self.wildcard@[i].1))
    }

    pub closed spec fn trie(&self) -> RouteTrie {
        self.explicit_with_params
    }

    pub open spec fn wf(&self) -> bool {
        keys_unique(self.explicit_view()) && self.trie().wf() && leaves_have_handlers(self.trie().nodes())
    }

    /// Resolution of `uri` in this table: the explicit match, else the trie's
    /// match with its bindings, else the first matching wildcard.
    pub open spec fn seek(&self, uri: Seq<char>) -> Option<(HandlerId, Seq<(Seq<char>, Seq<char>)>)> {
        match lookup(self.explicit_view(), uri) {
            Some(h) => Some((h, Seq::empty())),
            None => {
                let t = if self.trie().is_empty_spec() { None } else { self.trie().resolve(path_segments(uri)) };
                match t {
                    Some(x) => Some(x),
                    None => match first_wildcard(self.wildcard_view(), uri) {
                        Some(h) => Some((h, Seq::empty())),
                        None => None,
                    },
                }
            },
        }
    }

    pub fn new() -> (r: RouteMap)
        ensures
            r.wf(),
            r.explicit_view().len() == 0,
            r.wildcard_view().len() == 0,
            r.trie().is_empty_spec(),
            forall|uri: Seq<char>| #[trigger] r.seek(uri).is_none(),
    {
        RouteMap { explicit: Vec::new(), explicit_with_params: RouteTrie::initialize(), wildcard: Vec::new() }
    }

    /// What `insert(uri, cb)` does: it turned `pre` into `post` and returned `r`.
    pub open spec fn inserted(pre: RouteMap, post: RouteMap, uri: RequestPath, cb: HandlerId, r: Result<(), RouteError>) -> bool {
        match uri {
            RequestPath::Explicit(p) => if p@.len() == 0 {
                r == Err::<(), RouteError>(RouteError::EmptyPath) && post == pre
            } else if p@[0] != '/' {
                r == Err::<(), RouteError>(RouteError::NotRooted) && post == pre
            } else {
                &&& r is Ok
                &&& post.explicit_view() == put(pre.explicit_view(), p@, cb, true)
                &&& post.wildcard_view() == pre.wildcard_view()
                &&& post.trie() == pre.trie()
            },
            RequestPath::WildCard(p) => if p@.len() == 0 {
                r == Err::<(), RouteError>(RouteError::EmptyPath) && post == pre
            } else {
                &&& r is Ok
                &&& post.explicit_view() == pre.explicit_view()
                &&& post.trie() == pre.trie()
                &&& post.wildcard_view() == if has_source(pre.wildcard_view(), p@) || !regex_compiles(p@) {
                    pre.wildcard_view()
                } else {
                    pre.wildcard_view().push((p@, cb))
                }
            },
            RequestPath::ExplicitWithParams(p) => if plain_path(p@) {
                &&& r is Ok
                &&& post.explicit_view() == put(pre.explicit_view(), p@, cb, true)
                &&& post.wildcard_view() == pre.wildcard_view()
                &&& post.trie() == pre.trie()
            } else {
                match parse_route(p@) {
                    Err(e) => r == Err::<(), RouteError>(e) && post == pre,
                    Ok(fs) => if collides(pre.trie().nodes(), 0, fs) {
                        r == Err::<(), RouteError>(RouteError::Collision) && post == pre
                    } else {
                        &&& r is Ok
                        &&& post.explicit_view() == pre.explicit_view()
                        &&& post.wildcard_view() == pre.wildcard_view()
                        &&& fs.len() >= 1 ==> added(pre.trie().nodes(), post.trie().nodes(), fs, cb)
                        &&& fs.len() >= 1 && all_literal(fs) ==> post.trie().resolve(names_of(fs)) == Some((cb, Seq::<(Seq<char>, Seq<char>)>::empty()))
                        &&& fs.len() >= 1 && pre.trie().is_empty_spec() ==> forall|segs: Seq<Seq<char>>| fits(fs, segs)
                            ==> #[trigger] post.trie().resolve(segs) == Some((cb, param_bindings(fs, segs)))
                    },
                }
            },
        }
    }

    /// Binds `key` to `cb` among the literal paths.
    fn put_explicit(&mut self, key: String, cb: HandlerId)
        requires
            old(self).wf(),
        ensures
            final(self).wf(),
            final(self).explicit_view() == put(old(self).explicit_view(), key@, cb, true),
            final(self).wildcard_view() == old(self).wildcard_view(),
            final(self).trie() == old(self).trie(),
    {
        let ghost ev = self.explicit_view();
        proof { lemma_put_unique(ev, key@, cb, true); lemma_key_index(ev, key@); }
        let mut i: usize = 0;
        while i < self.explicit.len()
            invariant
                self.wf(),
                ev == self.explicit_view(),
                *self == *old(self),
                i <= ev.len(),
                forall|j: int| 0 <= j < i ==> ev[j].0 != key@,
            decreases ev.len() - i,
        {
            if self.explicit[i].0.eq(&key) {
                proof { lemma_key_index_at(ev, key@, i as int); }
                self.explicit.set(i, (key, cb));
                assert(self.explicit_view() =~= put(ev, key@, cb, true));
                return;
            }
            i = i + 1;
        }
        proof {
            if key_index(ev, key@) >= 0 {
                assert(ev[key_index(ev, key@)].0 == key@);
            }
        }
        self.explicit.push((key, cb));
        assert(self.explicit_view() =~= put(ev, key@, cb, true));
    }

    /// The handler bound to the literal path `uri`.
    fn get_explicit(&self, uri: &String) -> (r: Option<HandlerId>)
        requires
            self.wf(),
        ensures
            r == lookup(self.explicit_view(), uri@),
    {
        let ghost ev = self.explicit_view();
        proof { lemma_key_index(ev, uri@); }
        let mut i: usize = 0;
        while i < self.explicit.len()
            invariant
                self.wf(),
                ev == self.explicit_view(),
                i <= ev.len(),
                forall|j: int| 0 <= j < i ==> ev[j].0 != uri@,
            decreases ev.len() - i,
        {
            if self.explicit[i].0.eq(uri) {
                proof { lemma_key_index_at(ev, uri@, i as int); }
                return Some(self.explicit[i].1);
            }
            i = i + 1;
        }
        proof {
            if key_index(ev, uri@) >= 0 {
                assert(ev[key_index(ev, uri@)].0 == uri@);
            }
        }
        None
    }

    /// Registers `callback` under `uri`. Explicit paths must start with `/`
    /// and replace an earlier binding; a parameterized path without parameters
    /// is stored as explicit; a wildcard whose pattern is already there, or
    /// does not compile, is ignored.
    pub fn insert(&mut self, uri: RequestPath, callback: HandlerId) -> (r: Result<(), RouteError>)
        requires
            old(self).wf(),
        ensures
            final(self).wf(),
            RouteMap::inserted(*old(self), *final(self), uri, callback, r),
    {
        match uri {
            RequestPath::Explicit(req_uri) => {
                let cs = chars_of(req_uri);
                if cs.len() == 0 {
                    return Err(RouteError::EmptyPath);
                }
                if cs[0] != '/' {
                    return Err(RouteError::NotRooted);
                }
                self.put_explicit(req_uri.to_owned(), callback);
                Ok(())
            },
            RequestPath::WildCard(req_uri) => {
                let cs = chars_of(req_uri);
                if cs.len() == 0 {
                    return Err(RouteError::EmptyPath);
                }
                let ghost wv = self.wildcard_view();
                let mut i: usize = 0;
                while i < self.wildcard.len()
                    invariant
                        wv == self.wildcard_view(),
                        cs@ == req_uri@,
                        cs@.len() > 0,
                        uri == RequestPath::WildCard(req_uri),
                        *self == *old(self),
                        self.wf(),
                        i <= wv.len(),
                        forall|j: int| 0 <= j < i ==> wv[j].0 != req_uri@,
                    decreases wv.len() - i,
                {
                    let src = chars_of(self.wildcard[i].0.as_str());
                    if crate::text::chars_eq(&src, &cs) {
                        assert(wv[i as int].0 == req_uri@);
                        assert(has_source(wv, req_uri@));
                        return Ok(());
                    }
                    i = i + 1;
                }
                assert(!has_source(wv, req_uri@));
                match Pattern::parse(req_uri) {
                    Some(re) => {
                        self.wildcard.push((re, callback));
                        assert(self.wildcard_view() =~= wv.push((req_uri@, callback)));
                    },
                    None => {},
                }
                Ok(())
            },
            RequestPath::ExplicitWithParams(req_uri) => {
                let cs = chars_of(req_uri);
                if !contains_pair(&cs, '/', ':') && !contains_pair(&cs, ':', '\\') {
                    self.put_explicit(req_uri.to_owned(), callback);
                    return Ok(());
                }
                match RouteMap::params_parser(req_uri) {
                    Err(e) => Err(e),
                    Ok(fields) => self.explicit_with_params.add(fields, callback),
                }
            },
        }
    }

    /// The first wildcard, in registration order, whose pattern matches `uri`.
    fn search_wildcard_router(&self, uri: &str) -> (r: Option<HandlerId>)
        ensures
            r == first_wildcard(self.wildcard_view(), uri@),
    {
        let ghost wv = self.wildcard_view();
        let mut i: usize = 0;
        assert(wv.subrange(0, wv.len() as int) =~= wv);
        while i < self.wildcard.len()
            invariant
                wv == self.wildcard_view(),
                i <= wv.len(),
                first_wildcard(wv, uri@) == first_wildcard(wv.subrange(i as int, wv.len() as int), uri@),
            decreases wv.len() - i,
        {
            let ghost rest = wv.subrange(i as int, wv.len() as int);
            assert(rest.drop_first() =~= wv.subrange(i + 1, wv.len() as int));
            assert(rest[0] == wv[i as int]);
            if self.wildcard[i].0.is_match(uri) {
                return Some(self.wildcard[i].1);
            }
            i = i + 1;
        }
        None
    }

    /// Resolves `uri` in this table; on success the parameter bindings, if
    /// any, are stored in `params`, a later binding of a name replacing an
    /// earlier one.
    pub fn seek_path(&self, uri: &str, params: &mut TextMap) -> (r: Option<HandlerId>)
        requires
            self.wf(),
            old(params).wf(),
        ensures
            final(params).wf(),
            match self.seek(uri@) {
                Some((h, b)) => r == Some(h) && final(params)@ == put_all(old(params)@, b),
                None => r.is_none() && final(params)@ == old(params)@,
            },
    {
        let key = uri.to_owned();
        match self.get_explicit(&key) {
            Some(h) => {
                return Some(h);
            },
            None => {},
        }
        if !self.explicit_with_params.is_empty() {
            let (callback, temp_params) = search_params_router(&self.explicit_with_params, uri);
            if callback.is_some() {
                let ghost b = pairs_view(temp_params@);
                let mut k: usize = 0;
                while k < temp_params.len()
                    invariant
                        k <= temp_params@.len(),
                        b == pairs_view(temp_params@),
                        params.wf(),
                        params@ == put_all(old(params)@, b.subrange(0, k as int)),
                    decreases temp_params@.len() - k,
                {
                    let (name, value) = (temp_params[k].0.clone(), temp_params[k].1.clone());
                    params.insert(name, value);
                    k = k + 1;
                    assert(b.subrange(0, k as int).drop_last() =~= b.subrange(0, k - 1));
                }
                assert(b.subrange(0, k as int) =~= b);
                return callback;
            }
        }
        self.search_wildcard_router(uri)
    }

    /// Splits a parameterized route path into its fields: literal segments, and
    /// `:name` or `:name(regex)` parameters with unique alphanumeric names.
    pub fn params_parser(source_uri: &str) -> (r: Result<Vec<Field>, RouteError>)
        ensures
            match parse_route(source_uri@) {
                Ok(fs) => r matches Ok(v) && fields_view(v@) == fs,
                Err(e) => r == Err::<Vec<Field>, RouteError>(e),
            },
    {
        let s = chars_of(source_uri);
        let mut fields: Vec<Field> = Vec::new();
        let mut names: Vec<Vec<char>> = Vec::new();
        let mut st = SplitState::Normal;
        let mut start: usize = 0;
        let mut i: usize = 0;
        assert(fields_view(fields@) =~= Seq::<FieldView>::empty());
        assert(names@.map_values(|v: Vec<char>| v@) =~= Seq::<Seq<char>>::empty());
        while i < s.len()
            invariant
                s@ == source_uri@,
                start <= i <= s@.len(),
                parse_route(s@) == scan(s@, i as int, st, start as int, fields_view(fields@), names@.map_values(|v: Vec<char>| v@)),
            decreases s@.len() - i,
        {
            match step_exec(st, s[i]) {
                Err(e) => {
                    return Err(e);
                },
                Ok((st2, is_split)) => {
                    if is_split {
                        let seg = slice_to_vec(&s, start, i);
                        match segment_to_field(&seg, &mut names) {
                            Err(e) => {
                                return Err(e);
                            },
                            Ok(None) => {},
                            Ok(Some(f)) => {
                                let ghost before = fields@;
                                fields.push(f);
                                assert(fields_view(fields@) =~= fields_view(before).push(f@));
                            },
                        }
                        start = i + 1;
                    }
                    st = st2;
                },
            }
            i = i + 1;
        }
        if st == SplitState::InRegex {
            return Err(RouteError::UnterminatedValidator);
        }
        let seg = slice_to_vec(&s, start, s.len());
        match segment_to_field(&seg, &mut names) {
            Err(e) => Err(e),
            Ok(None) => Ok(fields),
            Ok(Some(f)) => {
                let ghost before = fields@;
                fields.push(f);
                assert(fields_view(fields@) =~= fields_view(before).push(f@));
                Ok(fields)
            },
        }
    }
}

/// The position of the table for method key `k`, or -1.
pub open spec fn table_index(s: Seq<(REST, RouteMap)>, k: (int, Seq<char>)) -> int {
    if exists|i: int| 0 <= i < s.len() && #[trigger] method_key(s[i].0) == k {
        choose|i: int| 0 <= i < s.len() && #[trigger] method_key(s[i].0) == k
    } else {
        -1
    }
}

/// No method has two tables.
pub open spec fn methods_unique(s: Seq<(REST, RouteMap)>) -> bool {
    forall|i: int, j: int| 0 <= i < j < s.len() ==> method_key(#[trigger] s[i].0) != method_key(#[trigger] s[j].0)
}

/// The token of the method that stands for every method.
fn all_token() -> (r: String)
    ensures
        r@ == seq!['*'],
{
    let mut v: Vec<char> = Vec::new();
    v.push('*');
    assert(v@ =~= seq!['*']);
    string_of(&v)
}

/// A table with no routes.
pub open spec fn fresh(m: RouteMap) -> bool {
    &&& m.wf()
    &&& m.explicit_view().len() == 0
    &&& m.wildcard_view().len() == 0
    &&& m.trie().is_empty_spec()
}

/// Per-method route tables; `OTHER("*")` holds the routes for every method.
pub struct Route {
    store: Vec<(REST, RouteMap)>,
}

impl Route {
    pub closed spec fn tables(&self) -> Seq<(REST, RouteMap)> {
        self.store@
    }

    pub open spec fn wf(&self) -> bool {
        &&& methods_unique(self.tables())
        &&& forall|i: int| 0 <= i < self.tables().len() ==> (#[trigger] self.tables()[i]).1.wf()
    }

    /// The table of the method with key `k`.
    pub open spec fn table(&self, k: (int, Seq<char>)) -> Option<RouteMap> {
        let i = table_index(self.tables(), k);
        if 0 <= i < self.tables().len() {
            Some(self.tables()[i].1)
        } else {
            None
        }
    }

    /// Resolution of `uri` for `method`: the method's own table; where it has
    /// none and the request is header-only, the GET table; and where that
    /// finds nothing, the table for every method.
    pub open spec fn resolve(&self, method: REST, uri: Seq<char>, header_only: bool) -> Option<(HandlerId, Seq<(Seq<char>, Seq<char>)>)> {
        let first = match self.table(method_key(method)) {
            Some(m) => m.seek(uri),
            None => if header_only {
                match self.table(method_key(REST::GET)) {
                    Some(m) => m.seek(uri),
                    None => None,
                }
            } else {
                None
            },
        };
        match first {
            Some(x) => Some(x),
            None => match self.table(all_key()) {
                Some(m) => m.seek(uri),
                None => None,
            },
        }
    }

    /// What registering `uri` with `cb` for method key `k` does: the method's
    /// table takes the route as `RouteMap::insert` says; for a method without
    /// a table, the route goes into a fresh table as `RouteMap::insert` says,
    /// and that table is added unless the route is rejected.
    pub open spec fn registered(pre: Route, post: Route, k: (int, Seq<char>), uri: RequestPath, cb: HandlerId, r: Result<(), RouteError>) -> bool {
        let i = table_index(pre.tables(), k);
        if 0 <= i < pre.tables().len() {
            &&& post.tables().len() == pre.tables().len()
            &&& forall|j: int| 0 <= j < pre.tables().len() && j != i ==> #[trigger] post.tables()[j] == pre.tables()[j]
            &&& method_key(post.tables()[i].0) == k
            &&& RouteMap::inserted(pre.tables()[i].1, post.tables()[i].1, uri, cb, r)
        } else {
            &&& exists|e: RouteMap, m: RouteMap| fresh(e) && #[trigger] RouteMap::inserted(e, m, uri, cb, r)
                && (r is Ok ==> post.tables().last().1 == m)
            &&& r is Err ==> post == pre
            &&& r is Ok ==> {
                &&& post.tables().len() == pre.tables().len() + 1
                &&& forall|j: int| 0 <= j < pre.tables().len() ==> #[trigger] post.tables()[j] == pre.tables()[j]
                &&& method_key(post.tables().last().0) == k
            }
        }
    }

    pub fn new() -> (r: Route)
        ensures
            r.wf(),
            r.tables().len() == 0,
    {
        Route { store: Vec::new() }
    }

    fn table_pos(&self, method: &REST) -> (r: Option<usize>)
        requires
            self.wf(),
        ensures
            match r {
                Some(i) => i < self.tables().len() && table_index(self.tables(), method_key(*method)) == i,
                None => table_index(self.tables(), method_key(*method)) == -1,
            },
    {
        let ghost k = method_key(*method);
        let mut i: usize = 0;
        while i < self.store.len()
            invariant
                self.wf(),
                k == method_key(*method),
                i <= self.tables().len(),
                forall|j: int| 0 <= j < i ==> method_key(#[trigger] self.tables()[j].0) != k,
            decreases self.tables().len() - i,
        {
            if self.store[i].0.key_eq(method) {
                proof {
                    assert(method_key(self.tables()[i as int].0) == k);
                    let c = table_index(self.tables(), k);
                    if c != i as int {
                        assert(method_key(self.tables()[c].0) == k);
                    }
                }
                return Some(i);
            }
            i = i + 1;
        }
        None
    }

    /// Resolves in the table at `i`.
    fn seek_in(&self, i: usize, uri: &str, params: &mut TextMap) -> (r: Option<HandlerId>)
        requires
            self.wf(),
            i < self.tables().len(),
            old(params).wf(),
        ensures
            final(params).wf(),
            match self.tables()[i as int].1.seek(uri@) {
                Some((h, b)) => r == Some(h) && final(params)@ == put_all(old(params)@, b),
                None => r.is_none() && final(params)@ == old(params)@,
            },
    {
        assert(self.tables()[i as int].1.wf());
        self.store[i].1.seek_path(uri, params)
    }

    /// Registers `uri` with `callback` for `method`.
    fn add_route(&mut self, method: REST, uri: RequestPath, callback: HandlerId) -> (r: Result<(), RouteError>)
        requires
            old(self).wf(),
        ensures
            final(self).wf(),
            Route::registered(*old(self), *final(self), method_key(method), uri, callback, r),
    {
        let ghost k = method_key(method);
        match self.table_pos(&method) {
            Some(i) => {
                let (m, mut route) = self.store.remove(i);
                assert(route.wf());
                let r = route.insert(uri, callback);
                self.store.insert(i, (m, route));
                proof {
                    let o = old(self).tables();
                    let f = self.tables();
                    assert(f =~= o.update(i as int, (m, route)));
                    assert forall|a: int, b: int| 0 <= a < b < f.len() implies method_key(#[trigger] f[a].0) != method_key(#[trigger] f[b].0) by {
                        assert(method_key(f[a].0) == method_key(o[a].0));
                        assert(method_key(f[b].0) == method_key(o[b].0));
                    }
                    assert forall|j: int| 0 <= j < f.len() implies (#[trigger] f[j]).1.wf() by {
                        if j != i {
                            assert(f[j] == o[j]);
                        }
                    }
                }
                r
            },
            None => {
                let mut route = RouteMap::new();
                let ghost e = route;
                let r = route.insert(uri, callback);
                assert(fresh(e) && RouteMap::inserted(e, route, uri, callback, r));
                if r.is_ok() {
                    self.store.push((method, route));
                    proof {
                        let o = old(self).tables();
                        let f = self.tables();
                        assert(f =~= o.push((method, route)));
                        assert forall|a: int, b: int| 0 <= a < b < f.len() implies method_key(#[trigger] f[a].0) != method_key(#[trigger] f[b].0) by {
                            if b == f.len() - 1 {
                                assert(method_key(f[a].0) == method_key(o[a].0));
                                if method_key(o[a].0) == k {
                                    assert(exists|x: int| 0 <= x < o.len() && #[trigger] method_key(o[x].0) == k);
                                }
                            }
                        }
                        assert forall|j: int| 0 <= j < f.len() implies (#[trigger] f[j]).1.wf() by {
                            if j < o.len() {
                                assert(f[j] == o[j]);
                            }
                        }
                        assert(fresh(e));
                    }
                }
                r
            },
        }
    }
}

/// Registration of routes, one method per call.
pub trait Router: Sized {
    spec fn routes_wf(&self) -> bool;

    /// What registering `uri` with `cb` for method key `k` turned `pre` into.
    spec fn after_add(pre: Self, post: Self, k: (int, Seq<char>), uri: RequestPath, cb: HandlerId, r: Result<(), RouteError>) -> bool;

    fn get(&mut self, uri: RequestPath, callback: HandlerId) -> (r: Result<(), RouteError>)
        requires
            old(self).routes_wf(),
        ensures
            final(self).routes_wf(),
            Self::after_add(*old(self), *final(self), method_key(REST::GET), uri, callback, r),
    ;

    fn patch(&mut self, uri: RequestPath, callback: HandlerId) -> (r: Result<(), RouteError>)
        requires
            old(self).routes_wf(),
        ensures
            final(self).routes_wf(),
            Self::after_add(*old(self), *final(self), method_key(REST::PATCH), uri, callback, r),
    ;

    fn post(&mut self, uri: RequestPath, callback: HandlerId) -> (r: Result<(), RouteError>)
        requires
            old(self).routes_wf(),
        ensures
            final(self).routes_wf(),
            Self::after_add(*old(self), *final(self), method_key(REST::POST), uri, callback, r),
    ;

    fn put(&mut self, uri: RequestPath, callback: HandlerId) -> (r: Result<(), RouteError>)
        requires
            old(self).routes_wf(),
        ensures
            final(self).routes_wf(),
            Self::after_add(*old(self), *final(self), method_key(REST::PUT), uri, callback, r),
    ;

    fn delete(&mut self, uri: RequestPath, callback: HandlerId) -> (r: Result<(), RouteError>)
        requires
            old(self).routes_wf(),
        ensures
            final(self).routes_wf(),
            Self::after_add(*old(self), *final(self), method_key(REST::DELETE), uri, callback, r),
    ;

    fn options(&mut self, uri: RequestPath, callback: HandlerId) -> (r: Result<(), RouteError>)
        requires
            old(self).routes_wf(),
        ensures
            final(self).routes_wf(),
            Self::after_add(*old(self), *final(self), method_key(REST::OPTIONS), uri, callback, r),
    ;

    /// Registers for the method named `method`, uppercased; an empty name is
    /// rejected.
    fn other(&mut self, method: &str, uri: RequestPath, callback: HandlerId) -> (r: Result<(), RouteError>)
        requires
            old(self).routes_wf(),
        ensures
            final(self).routes_wf(),
            method@.len() == 0 ==> r == Err::<(), RouteError>(RouteError::EmptyMethod) && *final(self) == *old(self),
            method@.len() > 0 ==> Self::after_add(*old(self), *final(self), (6, upper_of(method@)), uri, callback, r),
    ;

    /// Registers in the table tried for every method when its own finds nothing.
    fn all(&mut self, uri: RequestPath, callback: HandlerId) -> (r: Result<(), RouteError>)
        requires
            old(self).routes_wf(),
        ensures
            final(self).routes_wf(),
            Self::after_add(*old(self), *final(self), all_key(), uri, callback, r),
    ;
}

impl Router for Route {
    open spec fn routes_wf(&self) -> bool {
        self.wf()
    }

    open spec fn after_add(pre: Route, post: Route, k: (int, Seq<char>), uri: RequestPath, cb: HandlerId, r: Result<(), RouteError>) -> bool {
        Route::registered(pre, post, k, uri, cb, r)
    }

    fn get(&mut self, uri: RequestPath, callback: HandlerId) -> (r: Result<(), RouteError>) {
        self.add_route(REST::GET, uri, callback)
    }

    fn patch(&mut self, uri: RequestPath, callback: HandlerId) -> (r: Result<(), RouteError>) {
        self.add_route(REST::PATCH, uri, callback)
    }

    fn post(&mut self, uri: RequestPath, callback: HandlerId) -> (r: Result<(), RouteError>) {
        self.add_route(REST::POST, uri, callback)
    }

    fn put(&mut self, uri: RequestPath, callback: HandlerId) -> (r: Result<(), RouteError>) {
        self.add_route(REST::PUT, uri, callback)
    }

    fn delete(&mut self, uri: RequestPath, callback: HandlerId) -> (r: Result<(), RouteError>) {
        self.add_route(REST::DELETE, uri, callback)
    }

    fn options(&mut self, uri: RequestPath, callback: HandlerId) -> (r: Result<(), RouteError>) {
        self.add_route(REST::OPTIONS, uri, callback)
    }

    fn other(&mut self, method: &str, uri: RequestPath, callback: HandlerId) -> (r: Result<(), RouteError>) {
        if method.is_empty() {
            return Err(RouteError::EmptyMethod);
        }
        let request_method = REST::OTHER(to_uppercase(method));
        self.add_route(request_method, uri, callback)
    }

    fn all(&mut self, uri: RequestPath, callback: HandlerId) -> (r: Result<(), RouteError>) {
        self.add_route(REST::OTHER(all_token()), uri, callback)
    }
}

/// Route lookup for a request.
pub trait RouteHandler: Sized {
    spec fn handler_wf(&self) -> bool;

    /// The handler and bindings that `uri` resolves to for `method`.
    spec fn resolution(&self, method: REST, uri: Seq<char>, header_only: bool) -> Option<(HandlerId, Seq<(Seq<char>, Seq<char>)>)>;

    /// The handler for `uri` under `method`, and the path parameters bound on
    /// the way (empty where nothing was found).
    fn seek_handler(&self, method: &REST, uri: &str, header_only: bool) -> (r: (Option<HandlerId>, TextMap))
        requires
            self.handler_wf(),
        ensures
            r.1.wf(),
            match self.resolution(*method, uri@, header_only) {
                Some((h, b)) => r.0 == Some(h) && r.1@ == put_all(Seq::empty(), b),
                None => r.0.is_none() && r.1@ == Seq::<(Seq<char>, Seq<char>)>::empty(),
            },
    ;
}

impl RouteHandler for Route {
    open spec fn handler_wf(&self) -> bool {
        self.wf()
    }

    open spec fn resolution(&self, method: REST, uri: Seq<char>, header_only: bool) -> Option<(HandlerId, Seq<(Seq<char>, Seq<char>)>)> {
        self.resolve(method, uri, header_only)
    }

    fn seek_handler(&self, method: &REST, uri: &str, header_only: bool) -> (r: (Option<HandlerId>, TextMap)) {
        let mut params = TextMap::new();
        let mut result: Option<HandlerId> = None;
        match self.table_pos(method) {
            Some(i) => {
                result = self.seek_in(i, uri, &mut params);
            },
            None => {
                if header_only {
                    match self.table_pos(&REST::GET) {
                        Some(i) => {
                            result = self.seek_in(i, uri, &mut params);
                        },
                        None => {},
                    }
                }
            },
        }
        if result.is_none() {
            let star = REST::OTHER(all_token());
            assert(method_key(star) == all_key());
            match self.table_pos(&star) {
                Some(i) => {
                    result = self.seek_in(i, uri, &mut params);
                },
                None => {},
            }
        }
        (result, params)
    }
}

} // verus!
