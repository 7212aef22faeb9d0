//! Turning the text of an HTTP request into a `Request`.

use vstd::prelude::*;
use crate::common::{MapUpdates, QueryMap, TextMap, append_value, lookup, put};
use crate::text::{lower_of, to_lowercase, to_uppercase, upper_of, chars_eq, chars_of, find_first, find_last, first_index, is_whitespace, is_ws, last_index, lemma_first_index_range, push_all, slice_to_vec, split, split_on, string_of, trim, trimmed, before_first, after_first};
use crate::router::{REST, Route, RouteHandler, method_key, put_all};
use crate::trie::HandlerId;

verus! {

/// The path, query string and fragment of a request target: the target is
/// trimmed; the fragment (with its `#`) is cut at the last `#`; the query
/// string (without its `?`, trimmed) at the first `?` of what remains; a
/// trailing `/` is dropped from a remaining path longer than one character.
/// An empty target is `/`.
pub open spec fn split_path_spec(full: Seq<char>) -> (Seq<char>, Seq<char>, Seq<char>) {
    let u = trim(full);
    if u.len() == 0 {
        (seq!['/'], Seq::empty(), Seq::empty())
    } else {
        let h = last_index(u, '#');
        let p = if h >= 0 { u.subrange(0, h) } else { u };
        let frag = if h >= 0 { u.subrange(h, u.len() as int) } else { Seq::empty() };
        let q = first_index(p, '?');
        let d = if q >= 0 { p.subrange(0, q) } else { p };
        let scheme = if q >= 0 { trim(p.subrange(q + 1, p.len() as int)) } else { Seq::empty() };
        let path = if d.len() > 1 && d.last() == '/' { d.drop_last() } else { d };
        (path, scheme, frag)
    }
}

/// Splits a request target into its normalized path, its query string and
/// its fragment.
pub fn split_path(full_uri: &str) -> (r: (String, String, String))
    ensures
        (r.0@, r.1@, r.2@) == split_path_spec(full_uri@),
{
    let all = chars_of(full_uri);
    let u = trimmed(&all);
    if u.len() == 0 {
        let mut v: Vec<char> = Vec::new();
        v.push('/');
        assert(v@ =~= seq!['/']);
        return (string_of(&v), String::new(), String::new());
    }
    let h = find_last(&u, '#');
    let (p, frag) = match h {
        Some(k) => (slice_to_vec(&u, 0, k), slice_to_vec(&u, k, u.len())),
        None => (slice_to_vec(&u, 0, u.len()), Vec::new()),
    };
    assert(h.is_none() ==> p@ =~= u@);
    let q = find_first(&p, '?');
    let (mut d, scheme) = match q {
        Some(k) => {
            let rest = slice_to_vec(&p, k + 1, p.len());
            (slice_to_vec(&p, 0, k), trimmed(&rest))
        },
        None => (slice_to_vec(&p, 0, p.len()), Vec::new()),
    };
    assert(q.is_none() ==> d@ =~= p@);
    let n = d.len();
    if n > 1 && d[n - 1] == '/' {
        d.pop();
    }
    let ghost spec = split_path_spec(full_uri@);
    assert(d@ =~= spec.0);
    assert(scheme@ =~= spec.1);
    assert(frag@ =~= spec.2);
    (string_of(&d), string_of(&scheme), string_of(&frag))
}

/// The map `m` after `add(k, v, replace)`: empty keys are ignored, others
/// are lowercased.
pub open spec fn add_spec(m: Seq<(Seq<char>, Seq<char>)>, k: Seq<char>, v: Seq<char>, replace: bool) -> Seq<(Seq<char>, Seq<char>)> {
    if k.len() == 0 {
        m
    } else {
        put(m, lower_of(k), v, replace)
    }
}

/// The key of one `key=value` piece of a cookie header, trimmed; a piece
/// without `=` is all key.
pub open spec fn cookie_key(piece: Seq<char>) -> Seq<char> {
    let t = trim(piece);
    match after_first(t, '=') {
        Some(a) => trim(before_first(t, '=')),
        None => trim(t),
    }
}

/// The value of one `key=value` piece of a cookie header, trimmed; empty for
/// a piece without `=`.
pub open spec fn cookie_value(piece: Seq<char>) -> Seq<char> {
    match after_first(trim(piece), '=') {
        Some(a) => trim(a),
        None => Seq::empty(),
    }
}

/// One piece of a cookie header added to `m`; the first value of a key stays.
pub open spec fn cookie_step(m: Seq<(Seq<char>, Seq<char>)>, piece: Seq<char>) -> Seq<(Seq<char>, Seq<char>)> {
    add_spec(m, cookie_key(piece), cookie_value(piece), false)
}

/// The pieces added to `m` in order.
pub open spec fn cookie_fold(m: Seq<(Seq<char>, Seq<char>)>, pieces: Seq<Seq<char>>) -> Seq<(Seq<char>, Seq<char>)>
    decreases pieces.len(),
{
    if pieces.len() == 0 {
        m
    } else {
        cookie_step(cookie_fold(m, pieces.drop_last()), pieces.last())
    }
}

/// `m` with the cookies of the header value `body` added: pairs separated by `;`.
pub open spec fn cookies_of(m: Seq<(Seq<char>, Seq<char>)>, body: Seq<char>) -> Seq<(Seq<char>, Seq<char>)> {
    if body.len() == 0 {
        m
    } else {
        cookie_fold(m, split(trim(body), ';'))
    }
}

/// Parses a `Cookie` header value into `cookie`.
pub fn cookie_parser(cookie: &mut TextMap, cookie_body: &str)
    requires
        old(cookie).wf(),
    ensures
        final(cookie).wf(),
        final(cookie)@ == cookies_of(old(cookie)@, cookie_body@),
{
    if cookie_body.is_empty() {
        return;
    }
    let body = chars_of(cookie_body);
    let t = trimmed(&body);
    let sets = split_on(&t, ';');
    let ghost pieces = split(trim(body@), ';');
    let mut i: usize = 0;
    while i < sets.len()
        invariant
            cookie.wf(),
            pieces == split(trim(cookie_body@), ';'),
            sets@.len() == pieces.len(),
            forall|j: int| 0 <= j < sets@.len() ==> #[trigger] sets@[j]@ == pieces[j],
            i <= sets@.len(),
            cookie@ == cookie_fold(old(cookie)@, pieces.subrange(0, i as int)),
        decreases sets@.len() - i,
    {
        assert(pieces.subrange(0, i + 1).drop_last() =~= pieces.subrange(0, i as int));
        assert(sets@[i as int]@ == pieces[i as int]);
        let set = trimmed(&sets[i]);
        let n = set.len();
        match find_first(&set, '=') {
            Some(k) => {
                proof { lemma_first_index_range(set@, '='); }
                let a = slice_to_vec(&set, 0, k);
                let b = slice_to_vec(&set, k + 1, n);
                let key = string_of(&trimmed(&a));
                let val = string_of(&trimmed(&b));
                cookie.add(key.as_str(), val, false);
            },
            None => {
                let key = string_of(&trimmed(&set));
                cookie.add(key.as_str(), String::new(), false);
            },
        }
        i = i + 1;
    }
    assert(pieces.subrange(0, i as int) =~= pieces);
}

/// The key of one `key=value` piece of a query string, trimmed; a piece
/// without `=` is all key.
pub open spec fn scheme_key(piece: Seq<char>) -> Seq<char> {
    trim(before_first(trim(piece), '='))
}

/// The value of one `key=value` piece of a query string, trimmed; empty for
/// a piece without `=`.
pub open spec fn scheme_value(piece: Seq<char>) -> Seq<char> {
    match after_first(trim(piece), '=') {
        Some(a) => trim(a),
        None => Seq::empty(),
    }
}

/// One piece of a query string appended to `m`.
pub open spec fn scheme_step(m: Seq<(Seq<char>, Seq<Seq<char>>)>, piece: Seq<char>) -> Seq<(Seq<char>, Seq<Seq<char>>)> {
    append_value(m, scheme_key(piece), scheme_value(piece))
}

/// The pieces appended to `m` in order.
pub open spec fn scheme_fold(m: Seq<(Seq<char>, Seq<Seq<char>>)>, pieces: Seq<Seq<char>>) -> Seq<(Seq<char>, Seq<Seq<char>>)>
    decreases pieces.len(),
{
    if pieces.len() == 0 {
        m
    } else {
        scheme_step(scheme_fold(m, pieces.drop_last()), pieces.last())
    }
}

/// The query map of a query string: `&`-separated pairs, a key without `=`
/// taking an empty value, repeated keys collecting their values in order.
pub open spec fn scheme_of(scheme: Seq<char>) -> Seq<(Seq<char>, Seq<Seq<char>>)> {
    scheme_fold(Seq::empty(), split(trim(scheme), '&'))
}

/// Parses a query string.
pub fn scheme_parser(scheme: &str) -> (r: QueryMap)
    ensures
        r.wf(),
        r@ == scheme_of(scheme@),
{
    let mut scheme_result = QueryMap::new();
    let body = chars_of(scheme);
    let t = trimmed(&body);
    let sets = split_on(&t, '&');
    let ghost pieces = split(trim(body@), '&');
    let mut i: usize = 0;
    while i < sets.len()
        invariant
            scheme_result.wf(),
            pieces == split(trim(scheme@), '&'),
            sets@.len() == pieces.len(),
            forall|j: int| 0 <= j < sets@.len() ==> #[trigger] sets@[j]@ == pieces[j],
            i <= sets@.len(),
            scheme_result@ == scheme_fold(Seq::empty(), pieces.subrange(0, i as int)),
        decreases sets@.len() - i,
    {
        assert(pieces.subrange(0, i + 1).drop_last() =~= pieces.subrange(0, i as int));
        assert(sets@[i as int]@ == pieces[i as int]);
        let kv = trimmed(&sets[i]);
        let n = kv.len();
        match find_first(&kv, '=') {
            Some(k) => {
                proof { lemma_first_index_range(kv@, '='); }
                let a = slice_to_vec(&kv, 0, k);
                let b = slice_to_vec(&kv, k + 1, n);
                scheme_result.append(string_of(&trimmed(&a)), string_of(&trimmed(&b)));
            },
            None => {
                assert(before_first(kv@, '=') == kv@);
                scheme_result.append(string_of(&trimmed(&kv)), String::new());
            },
        }
        i = i + 1;
    }
    assert(pieces.subrange(0, i as int) =~= pieces);
    scheme_result
}

/// The word `cookie`.
pub open spec fn cookie_word() -> Seq<char> {
    seq!['c', 'o', 'o', 'k', 'i', 'e']
}

fn cookie_word_vec() -> (r: Vec<char>)
    ensures
        r@ == cookie_word(),
{
    let mut v: Vec<char> = Vec::new();
    v.push('c');
    v.push('o');
    v.push('o');
    v.push('k');
    v.push('i');
    v.push('e');
    assert(v@ =~= cookie_word());
    v
}

/// Headers and cookies after the header line `line`: `Name: Value`, split at
/// the first `:`; a `cookie` header (in any case) goes to the cookies, any
/// other to the headers under its lowercased name, replacing an earlier one.
/// A line without `:` changes nothing.
pub open spec fn header_line(h: Seq<(Seq<char>, Seq<char>)>, c: Seq<(Seq<char>, Seq<char>)>, line: Seq<char>) -> (Seq<(Seq<char>, Seq<char>)>, Seq<(Seq<char>, Seq<char>)>) {
    let t = trim(line);
    let key = trim(before_first(t, ':'));
    match after_first(t, ':') {
        None => (h, c),
        Some(a) => if lower_of(key) == cookie_word() {
            (h, cookies_of(c, trim(a)))
        } else {
            (add_spec(h, key, trim(a), true), c)
        },
    }
}

/// The texts of a list of strings.
pub open spec fn texts(v: Seq<String>) -> Seq<Seq<char>> {
    v.map_values(|s: String| s@)
}

/// Handles one line after the request line: a header line, or, once in the
/// body, a body line.
pub fn deserialize_headers(line: &str, is_body: bool, header: &mut TextMap, cookie: &mut TextMap, body: &mut Vec<String>)
    requires
        old(header).wf(),
        old(cookie).wf(),
    ensures
        final(header).wf(),
        final(cookie).wf(),
        is_body ==> final(header)@ == old(header)@ && final(cookie)@ == old(cookie)@
            && texts(final(body)@) == texts(old(body)@).push(line@),
        !is_body ==> (final(header)@, final(cookie)@) == header_line(old(header)@, old(cookie)@, line@)
            && final(body)@ == old(body)@,
{
    if is_body {
        body.push(line.to_owned());
        assert(texts(body@) =~= texts(old(body)@).push(line@));
        return;
    }
    let all = chars_of(line);
    let t = trimmed(&all);
    let n = t.len();
    match find_first(&t, ':') {
        None => {},
        Some(k) => {
            let a = slice_to_vec(&t, 0, k);
            let b = slice_to_vec(&t, k + 1, n);
            let key = string_of(&trimmed(&a));
            let value = trimmed(&b);
            let lower = to_lowercase(key.as_str());
            let lower_chars = chars_of(lower.as_str());
            let word = cookie_word_vec();
            if chars_eq(&lower_chars, &word) {
                let v = string_of(&value);
                cookie_parser(cookie, v.as_str());
            } else {
                header.add(key.as_str(), string_of(&value), true);
            }
        },
    }
}

/// `l` without one trailing `\r`.
pub open spec fn strip_cr(l: Seq<char>) -> Seq<char> {
    if l.len() > 0 && l.last() == '\r' {
        l.drop_last()
    } else {
        l
    }
}

/// The lines of `s`: pieces between `\n`s, each without a `\r` before its
/// `\n`; a last empty piece is no line.
pub open spec fn lines_of(s: Seq<char>) -> Seq<Seq<char>> {
    let ps = split(s, '\n');
    let last = ps.last();
    let body = Seq::new((ps.len() - 1) as nat, |i: int| strip_cr(ps[i]));
    if last.len() == 0 {
        body
    } else {
        body.push(last)
    }
}

pub fn lines(s: &[char]) -> (r: Vec<Vec<char>>)
    ensures
        r@.len() == lines_of(s@).len(),
        forall|i: int| 0 <= i < r@.len() ==> #[trigger] r@[i]@ == lines_of(s@)[i],
{
    let ps = split_on(s, '\n');
    let ghost sp = split(s@, '\n');
    proof { lemma_split_nonempty(s@, '\n'); }
    let n = ps.len();
    let mut r: Vec<Vec<char>> = Vec::new();
    let mut i: usize = 0;
    while i + 1 < n
        invariant
            n == ps@.len() == sp.len() >= 1,
            sp == split(s@, '\n'),
            forall|j: int| 0 <= j < ps@.len() ==> #[trigger] ps@[j]@ == sp[j],
            i < n,
            r@.len() == i,
            forall|j: int| 0 <= j < i ==> #[trigger] r@[j]@ == strip_cr(sp[j]),
        decreases n - i,
    {
        let p = &ps[i];
        let m = p.len();
        assert(p@ == sp[i as int]);
        if m > 0 && p[m - 1] == '\r' {
            r.push(slice_to_vec(p, 0, m - 1));
            assert(r@[i as int]@ =~= strip_cr(sp[i as int]));
        } else {
            r.push(slice_to_vec(p, 0, m));
            assert(r@[i as int]@ =~= strip_cr(sp[i as int]));
        }
        i = i + 1;
    }
    let last = &ps[n - 1];
    assert(last@ == sp.last());
    if last.len() > 0 {
        r.push(slice_to_vec(last, 0, last.len()));
        assert(r@[i as int]@ =~= sp.last());
    }
    r
}

pub proof fn lemma_split_nonempty(s: Seq<char>, c: char)
    ensures
        split(s, c).len() >= 1,
    decreases s.len(),
{
    let k = first_index(s, c);
    if !(k < 0 || k >= s.len()) {
        lemma_split_nonempty(s.subrange(k + 1, s.len() as int), c);
    }
}

/// The words of `s`, scanning from `i` with the current word `cur` and the
/// words `acc` found before it.
pub open spec fn words_from(s: Seq<char>, i: int, cur: Seq<char>, acc: Seq<Seq<char>>) -> Seq<Seq<char>>
    decreases s.len() - i,
{
    if i >= s.len() {
        if cur.len() > 0 { acc.push(cur) } else { acc }
    } else if is_ws(s[i]) {
        words_from(s, i + 1, Seq::empty(), if cur.len() > 0 { acc.push(cur) } else { acc })
    } else {
        words_from(s, i + 1, cur.push(s[i]), acc)
    }
}

/// The non-empty runs of non-whitespace characters of `s`, as
/// `str::split_whitespace` gives them.
pub open spec fn words(s: Seq<char>) -> Seq<Seq<char>> {
    words_from(s, 0, Seq::empty(), Seq::empty())
}

pub fn split_words(s: &[char]) -> (r: Vec<Vec<char>>)
    ensures
        r@.len() == words(s@).len(),
        forall|i: int| 0 <= i < r@.len() ==> #[trigger] r@[i]@ == words(s@)[i],
{
    let mut r: Vec<Vec<char>> = Vec::new();
    let mut cur: Vec<char> = Vec::new();
    let mut i: usize = 0;
    let ghost mut acc: Seq<Seq<char>> = Seq::empty();
    while i < s.len()
        invariant
            i <= s@.len(),
            words(s@) == words_from(s@, i as int, cur@, acc),
            r@.len() == acc.len(),
            forall|j: int| 0 <= j < r@.len() ==> #[trigger] r@[j]@ == acc[j],
        decreases s@.len() - i,
    {
        if is_whitespace(s[i]) {
            if cur.len() > 0 {
                proof { acc = acc.push(cur@); }
                r.push(cur);
                cur = Vec::new();
            }
            assert(cur@ =~= Seq::<char>::empty());
        } else {
            cur.push(s[i]);
        }
        i = i + 1;
    }
    if cur.len() > 0 {
        proof { acc = acc.push(cur@); }
        r.push(cur);
    }
    r
}

/// Index of the first `\r\n` in `s`, or -1.
pub open spec fn first_crlf(s: Seq<char>) -> int
    decreases s.len(),
{
    if s.len() < 2 {
        -1
    } else if s[0] == '\r' && s[1] == '\n' {
        0
    } else {
        let r = first_crlf(s.drop_first());
        if r < 0 { -1 } else { r + 1 }
    }
}

proof fn lemma_first_crlf_at(s: Seq<char>, i: int)
    requires
        0 <= i <= s.len(),
        i + 1 < s.len() ==> s[i] == '\r' && s[i + 1] == '\n',
        forall|j: int| 0 <= j < i && j + 1 < s.len() ==> !(#[trigger] s[j] == '\r' && s[j + 1] == '\n'),
    ensures
        first_crlf(s) == if i + 1 < s.len() { i } else { -1 },
    decreases s.len(),
{
    if s.len() >= 2 && i > 0 {
        let t = s.drop_first();
        assert forall|j: int| 0 <= j < i - 1 && j + 1 < t.len() implies !(#[trigger] t[j] == '\r' && t[j + 1] == '\n') by {
            assert(t[j] == s[j + 1] && t[j + 1] == s[j + 2]);
        }
        lemma_first_crlf_at(t, i - 1);
    }
}

fn find_crlf(s: &[char]) -> (r: Option<usize>)
    ensures
        match r {
            Some(k) => first_crlf(s@) == k && k + 1 < s@.len(),
            None => first_crlf(s@) == -1,
        },
{
    let n = s.len();
    let mut i: usize = 0;
    while i < n && i + 1 < n
        invariant
            n == s@.len(),
            i <= n,
            forall|j: int| 0 <= j < i && j + 1 < n ==> !(#[trigger] s@[j] == '\r' && s@[j + 1] == '\n'),
        decreases n - i,
    {
        if s[i] == '\r' && s[i + 1] == '\n' {
            proof { lemma_first_crlf_at(s@, i as int); }
            return Some(i);
        }
        i = i + 1;
    }
    proof {
        if n == 0 {
            lemma_first_crlf_at(s@, 0);
        } else {
            lemma_first_crlf_at(s@, i as int);
        }
    }
    None
}

/// The key of the method named by the uppercased token `up`.
pub open spec fn method_key_of(up: Seq<char>) -> (int, Seq<char>) {
    if up == seq!['G', 'E', 'T'] {
        (0, Seq::empty())
    } else if up == seq!['P', 'A', 'T', 'C', 'H'] {
        (1, Seq::empty())
    } else if up == seq!['P', 'O', 'S', 'T'] {
        (2, Seq::empty())
    } else if up == seq!['P', 'U', 'T'] {
        (3, Seq::empty())
    } else if up == seq!['D', 'E', 'L', 'E', 'T', 'E'] {
        (4, Seq::empty())
    } else if up == seq!['O', 'P', 'T', 'I', 'O', 'N', 'S'] {
        (5, Seq::empty())
    } else {
        (6, up)
    }
}

/// The `HEADER` token, which asks for a header-only response.
pub open spec fn header_word() -> Seq<char> {
    seq!['H', 'E', 'A', 'D', 'E', 'R']
}

/// The `HEAD` method token, which asks for a header-only response.
pub open spec fn head_word() -> Seq<char> {
    seq!['H', 'E', 'A', 'D']
}

/// Whether the uppercased method token `up` asks for headers only.
pub open spec fn header_only_token(up: Seq<char>) -> bool {
    up == header_word() || up == head_word()
}

fn word_vec(cs: &[char]) -> (r: Vec<char>)
    ensures
        r@ == cs@,
{
    slice_to_vec(cs, 0, cs.len())
}

/// The method named by the uppercased token `up`.
fn method_from(up: String) -> (r: REST)
    ensures
        method_key(r) == method_key_of(up@),
{
    let cs = chars_of(up.as_str());
    let get = word_vec(&['G', 'E', 'T']);
    let patch = word_vec(&['P', 'A', 'T', 'C', 'H']);
    let post = word_vec(&['P', 'O', 'S', 'T']);
    let put = word_vec(&['P', 'U', 'T']);
    let delete = word_vec(&['D', 'E', 'L', 'E', 'T', 'E']);
    let options = word_vec(&['O', 'P', 'T', 'I', 'O', 'N', 'S']);
    assert(get@ =~= seq!['G', 'E', 'T']);
    assert(patch@ =~= seq!['P', 'A', 'T', 'C', 'H']);
    assert(post@ =~= seq!['P', 'O', 'S', 'T']);
    assert(put@ =~= seq!['P', 'U', 'T']);
    assert(delete@ =~= seq!['D', 'E', 'L', 'E', 'T', 'E']);
    assert(options@ =~= seq!['O', 'P', 'T', 'I', 'O', 'N', 'S']);
    if chars_eq(&cs, &get) {
        REST::GET
    } else if chars_eq(&cs, &patch) {
        REST::PATCH
    } else if chars_eq(&cs, &post) {
        REST::POST
    } else if chars_eq(&cs, &put) {
        REST::PUT
    } else if chars_eq(&cs, &delete) {
        REST::DELETE
    } else if chars_eq(&cs, &options) {
        REST::OPTIONS
    } else {
        REST::OTHER(up)
    }
}

/// A parsed request.
pub struct Request {
    pub method: REST,
    pub uri: String,
    pub scheme: QueryMap,
    pub fragment: String,
    pub version: String,
    pub headers: TextMap,
    pub cookies: TextMap,
    pub body: Vec<String>,
    pub params: TextMap,
    pub host: String,
}

impl Request {
    pub open spec fn wf(&self) -> bool {
        self.scheme.wf() && self.headers.wf() && self.cookies.wf() && self.params.wf()
    }

    /// Whether nothing has been filled in: method GET, everything else empty.
    pub open spec fn is_fresh(&self) -> bool {
        &&& self.wf()
        &&& method_key(self.method) == method_key(REST::GET)
        &&& self.uri@.len() == 0
        &&& self.scheme@.len() == 0
        &&& self.fragment@.len() == 0
        &&& self.version@.len() == 0
        &&& self.headers@.len() == 0
        &&& self.cookies@.len() == 0
        &&& self.body@.len() == 0
        &&& self.params@.len() == 0
        &&& self.host@.len() == 0
    }

    pub fn new() -> (r: Request)
        ensures
            r.is_fresh(),
    {
        Request {
            method: REST::GET,
            uri: String::new(),
            scheme: QueryMap::new(),
            fragment: String::new(),
            version: String::new(),
            headers: TextMap::new(),
            cookies: TextMap::new(),
            body: Vec::new(),
            params: TextMap::new(),
            host: String::new(),
        }
    }

    /// The value of header `name` (lowercase), if present.
    pub fn header(&self, name: &str) -> (r: Option<String>)
        requires
            self.wf(),
        ensures
            match r {
                Some(v) => lookup(self.headers@, name@) == Some(v@),
                None => lookup(self.headers@, name@).is_none(),
            },
    {
        self.headers.get(name)
    }
}

/// Whether the request line `line` asks for a header-only response.
pub open spec fn header_only_of(line: Seq<char>) -> bool {
    let w = words(line);
    w.len() > 0 && header_only_token(upper_of(w[0]))
}

/// Reads the request line `METHOD TARGET VERSION` into `req`; where the path
/// it leaves in `req` is not empty, resolves it with `router` and also stores
/// the fragment and the query map, where the target has them. Fields that the
/// line does not give keep their values. Returns the resolution, or `None`
/// where there was no path.
pub fn deserialize_baseline(source: &str, req: &mut Request, router: &Route) -> (r: Option<(Option<HandlerId>, TextMap)>)
    requires
        old(req).wf(),
        router.wf(),
    ensures
        final(req).wf(),
        ({
            let w = words(source@);
            let target = split_path_spec(w[1]);
            let has_path = final(req).uri@.len() > 0;
            &&& method_key(final(req).method) == if w.len() > 0 { method_key_of(upper_of(w[0])) } else { method_key(old(req).method) }
            &&& final(req).uri@ == if w.len() > 1 { target.0 } else { old(req).uri@ }
            &&& final(req).version@ == if w.len() > 2 { w[2] } else { old(req).version@ }
            &&& final(req).headers == old(req).headers && final(req).cookies == old(req).cookies
            &&& final(req).body == old(req).body && final(req).params == old(req).params
            &&& final(req).host == old(req).host
            &&& final(req).fragment@ == if has_path && w.len() > 1 && target.2.len() > 0 { target.2 } else { old(req).fragment@ }
            &&& final(req).scheme@ == if has_path && w.len() > 1 && target.1.len() > 0 { scheme_of(target.1) } else { old(req).scheme@ }
            &&& if !has_path {
                r.is_none()
            } else {
                r matches Some((cb, params)) && params.wf() && match router.resolve(final(req).method, final(req).uri@, header_only_of(source@)) {
                    Some((h, b)) => cb == Some(h) && params@ == put_all(Seq::empty(), b),
                    None => cb.is_none() && params@.len() == 0,
                }
            }
        }),
{
    let line = chars_of(source);
    let w = split_words(&line);
    let mut header_only = false;
    let mut raw_scheme = String::new();
    let mut raw_fragment = String::new();
    let hw = word_vec(&['H', 'E', 'A', 'D', 'E', 'R']);
    assert(hw@ =~= header_word());
    let hd = word_vec(&['H', 'E', 'A', 'D']);
    assert(hd@ =~= head_word());
    if w.len() > 0 {
        let tok = string_of(&w[0]);
        let up = to_uppercase(tok.as_str());
        let up_chars = chars_of(up.as_str());
        header_only = chars_eq(&up_chars, &hw) || chars_eq(&up_chars, &hd);
        req.method = method_from(up);
    }
    if w.len() > 1 {
        let target = string_of(&w[1]);
        let (u, sch, frag) = split_path(target.as_str());
        req.uri = u;
        raw_scheme = sch;
        raw_fragment = frag;
    }
    if w.len() > 2 {
        req.version = string_of(&w[2]);
    }
    if req.uri.as_str().is_empty() {
        return None;
    }
    let found = router.seek_handler(&req.method, req.uri.as_str(), header_only);
    if !raw_fragment.as_str().is_empty() {
        req.fragment = raw_fragment;
    }
    if !raw_scheme.as_str().is_empty() {
        req.scheme = scheme_parser(raw_scheme.as_str());
    }
    Some(found)
}

/// Headers, cookies, body lines and whether the body has begun, after the
/// lines `ls` following the request line: the first empty line ends the headers.
pub open spec fn rem_fold(ls: Seq<Seq<char>>) -> (Seq<(Seq<char>, Seq<char>)>, Seq<(Seq<char>, Seq<char>)>, Seq<Seq<char>>, bool)
    decreases ls.len(),
{
    if ls.len() == 0 {
        (Seq::empty(), Seq::empty(), Seq::empty(), false)
    } else {
        let (h, c, b, in_body) = rem_fold(ls.drop_last());
        let l = ls.last();
        if l.len() == 0 && !in_body {
            (h, c, b, true)
        } else if !in_body {
            let (h2, c2) = header_line(h, c, l);
            (h2, c2, b, false)
        } else {
            (h, c, b.push(l), true)
        }
    }
}

/// The request text once trimmed, before its first `\r\n`.
pub open spec fn request_line(raw: Seq<char>) -> Seq<char> {
    let t = trim(raw);
    let k = first_crlf(t);
    if k >= 0 { t.subrange(0, k) } else { t }
}

/// The request text once trimmed, after its first `\r\n`.
pub open spec fn request_rest(raw: Seq<char>) -> Seq<char> {
    let t = trim(raw);
    let k = first_crlf(t);
    if k >= 0 { t.subrange(k + 2, t.len() as int) } else { Seq::empty() }
}

/// What `deserialize` makes of the non-empty request text `raw`.
pub open spec fn parsed(raw: Seq<char>, router: Route, req: Request, cb: Option<HandlerId>) -> bool {
    let line = request_line(raw);
    let w = words(line);
    let target = split_path_spec(w[1]);
    let rest = rem_fold(lines_of(request_rest(raw)));
    let found = router.resolve(req.method, req.uri@, header_only_of(line));
    &&& method_key(req.method) == if w.len() > 0 { method_key_of(upper_of(w[0])) } else { method_key(REST::GET) }
    &&& req.uri@ == if w.len() > 1 { target.0 } else { Seq::empty() }
    &&& req.version@ == if w.len() > 2 { w[2] } else { Seq::empty() }
    &&& req.headers@ == rest.0
    &&& req.cookies@ == rest.1
    &&& texts(req.body@) == rest.2
    &&& if req.uri@.len() == 0 {
        &&& cb.is_none()
        &&& req.fragment@.len() == 0 && req.scheme@.len() == 0
        &&& req.params@.len() == 0
    } else {
        &&& req.fragment@ == target.2
        &&& req.scheme@ == if target.1.len() == 0 { Seq::empty() } else { scheme_of(target.1) }
        &&& match found {
            Some((h, b)) => cb == Some(h) && req.params@ == put_all(Seq::empty(), b),
            None => cb.is_none() && req.params@.len() == 0,
        }
    }
}

/// Parses a whole request: the request line, the header lines, cookies and
/// body; where the request line gave a path, resolves the handler with `router`.
pub fn deserialize(request: &str, router: &Route) -> (r: (Request, Option<HandlerId>))
    requires
        router.wf(),
    ensures
        r.0.wf(),
        request@.len() == 0 ==> r.0.is_fresh() && r.1.is_none(),
        request@.len() > 0 ==> parsed(request@, *router, r.0, r.1) && r.0.host@.len() == 0,
{
    let mut store = Request::new();
    if request.is_empty() {
        return (store, None);
    }
    let all = chars_of(request);
    let t = trimmed(&all);
    let n = t.len();
    let (base, rem) = match find_crlf(&t) {
        Some(k) => (slice_to_vec(&t, 0, k), slice_to_vec(&t, k + 2, n)),
        None => (slice_to_vec(&t, 0, n), Vec::new()),
    };
    assert(base@ =~= request_line(request@));
    assert(rem@ =~= request_rest(request@));
    let base_str = string_of(&base);
    let baseline = deserialize_baseline(base_str.as_str(), &mut store, router);
    let ls = lines(&rem);
    let ghost lv = lines_of(rem@);
    let mut is_body = false;
    let mut i: usize = 0;
    let ghost pre = store;
    assert(lv.subrange(0, 0) =~= Seq::<Seq<char>>::empty());
    assert(texts(store.body@) =~= Seq::<Seq<char>>::empty());
    while i < ls.len()
        invariant
            store.wf(),
            ls@.len() == lv.len(),
            lv == lines_of(rem@),
            forall|j: int| 0 <= j < ls@.len() ==> #[trigger] ls@[j]@ == lv[j],
            i <= ls@.len(),
            rem_fold(lv.subrange(0, i as int)) == (store.headers@, store.cookies@, texts(store.body@), is_body),
            store.method == pre.method,
            store.uri == pre.uri,
            store.version == pre.version,
            store.fragment == pre.fragment,
            store.scheme == pre.scheme,
            store.params == pre.params,
            store.host == pre.host,
        decreases ls@.len() - i,
    {
        assert(lv.subrange(0, i + 1).drop_last() =~= lv.subrange(0, i as int));
        assert(ls@[i as int]@ == lv[i as int]);
        if ls[i].len() == 0 && !is_body {
            is_body = true;
        } else {
            let l = string_of(&ls[i]);
            deserialize_headers(l.as_str(), is_body, &mut store.headers, &mut store.cookies, &mut store.body);
        }
        i = i + 1;
    }
    assert(lv.subrange(0, i as int) =~= lv);
    match baseline {
        None => {
            proof {
                let line = request_line(request@);
                let w = words(line);
                assert(store.uri@.len() == 0);
                assert(store.fragment@.len() == 0);
                assert(store.scheme@.len() == 0);
                assert(store.params@.len() == 0);
                assert(method_key(store.method) == if w.len() > 0 { method_key_of(upper_of(w[0])) } else { method_key(REST::GET) });
                assert(store.version@ == if w.len() > 2 { w[2] } else { Seq::empty() });
                assert(store.uri@ == if w.len() > 1 { split_path_spec(w[1]).0 } else { Seq::empty() });
                assert(store.host@.len() == 0);
                let rest = rem_fold(lines_of(request_rest(request@)));
                assert(store.headers@ == rest.0);
                assert(texts(store.body@) == rest.2);
                assert(parsed(request@, *router, store, None));
            }
            (store, None)
        },
        Some((cb, params)) => {
            proof {
                let w = words(request_line(request@));
                let target = split_path_spec(w[1]);
                assert(w.len() > 1);
                if target.2.len() == 0 {
                    assert(store.fragment@ =~= target.2);
                }
                if target.1.len() == 0 {
                    assert(store.scheme@ =~= Seq::<(Seq<char>, Seq<Seq<char>>)>::empty());
                }
            }
            if cb.is_some() {
                store.params = params;
            }
            proof {
                let w = words(request_line(request@));
                let target = split_path_spec(w[1]);
                assert(store.fragment@ == target.2);
                assert(store.scheme@ == if target.1.len() == 0 { Seq::empty() } else { scheme_of(target.1) });
                assert(store.uri@.len() > 0);
                let rest = rem_fold(lines_of(request_rest(request@)));
                assert(store.headers@ == rest.0);
                assert(store.cookies@ == rest.1);
                assert(texts(store.body@) == rest.2);
                assert(method_key(store.method) == if w.len() > 0 { method_key_of(upper_of(w[0])) } else { method_key(REST::GET) });
                assert(store.version@ == if w.len() > 2 { w[2] } else { Seq::empty() });
                let found = router.resolve(store.method, store.uri@, header_only_of(request_line(request@)));
                assert(match found {
                    Some((h, b)) => cb == Some(h) && store.params@ == put_all(Seq::empty(), b),
                    None => cb.is_none() && store.params@.len() == 0,
                });
                assert(parsed(request@, *router, store, cb));
            }
            (store, cb)
        },
    }
}

} // verus!
