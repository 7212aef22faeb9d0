//! Small string-keyed maps that keep insertion order, and their JSON-like rendering.

use vstd::prelude::*;
use crate::text::{lower_of, to_lowercase, chars_of, push_all, string_of};

verus! {

/// Position of key `k` in `v`, or -1.
pub open spec fn key_index<V>(v: Seq<(Seq<char>, V)>, k: Seq<char>) -> int
    decreases v.len(),
{
    if v.len() == 0 {
        -1
    } else if v.last().0 == k {
        v.len() - 1
    } else {
        key_index(v.drop_last(), k)
    }
}

/// The value stored under `k`, if any.
pub open spec fn lookup<V>(v: Seq<(Seq<char>, V)>, k: Seq<char>) -> Option<V> {
    let i = key_index(v, k);
    if 0 <= i < v.len() {
        Some(v[i].1)
    } else {
        None
    }
}

/// No key occurs twice.
pub open spec fn keys_unique<V>(v: Seq<(Seq<char>, V)>) -> bool {
    forall|i: int, j: int| 0 <= i < j < v.len() ==> v[i].0 != v[j].0
}

/// `v` after storing `val` under `k`: a new key goes to the end; an existing
/// one keeps its place and takes `val` only if `replace` holds.
pub open spec fn put<V>(v: Seq<(Seq<char>, V)>, k: Seq<char>, val: V, replace: bool) -> Seq<(Seq<char>, V)> {
    let i = key_index(v, k);
    if 0 <= i < v.len() {
        if replace {
            v.update(i, (k, val))
        } else {
            v
        }
    } else {
        v.push((k, val))
    }
}

pub proof fn lemma_key_index<V>(v: Seq<(Seq<char>, V)>, k: Seq<char>)
    ensures
        -1 <= key_index(v, k) < v.len(),
        key_index(v, k) >= 0 ==> v[key_index(v, k)].0 == k,
        key_index(v, k) < 0 ==> forall|j: int| 0 <= j < v.len() ==> v[j].0 != k,
    decreases v.len(),
{
    if v.len() > 0 && v.last().0 != k {
        lemma_key_index(v.drop_last(), k);
        assert forall|j: int| 0 <= j < v.len() - 1 implies v[j] == v.drop_last()[j] by {}
    }
}

pub proof fn lemma_key_index_at<V>(v: Seq<(Seq<char>, V)>, k: Seq<char>, i: int)
    requires
        keys_unique(v),
        0 <= i < v.len(),
        v[i].0 == k,
    ensures
        key_index(v, k) == i,
    decreases v.len(),
{
    if i < v.len() - 1 {
        lemma_key_index_at(v.drop_last(), k, i);
    }
}

pub proof fn lemma_put_unique<V>(v: Seq<(Seq<char>, V)>, k: Seq<char>, val: V, replace: bool)
    requires
        keys_unique(v),
    ensures
        keys_unique(put(v, k, val, replace)),
        lookup(put(v, k, val, replace), k) == (if lookup(v, k).is_some() && !replace { lookup(v, k) } else { Some(val) }),
{
    lemma_key_index(v, k);
    let w = put(v, k, val, replace);
    let i = key_index(v, k);
    if i < 0 {
        lemma_key_index_at(w, k, v.len() as int);
    } else {
        lemma_key_index_at(w, k, i);
    }
}

/// A map from text to text that keeps its keys in insertion order.
pub struct TextMap {
    entries: Vec<(String, String)>,
}

impl View for TextMap {
    type V = Seq<(Seq<char>, Seq<char>)>;

    closed spec fn view(&self) -> Seq<(Seq<char>, Seq<char>)> {
        Seq::new(self.entries@.len(), |i: int| (self.entries@[i].0@, self.entries@[i].1@))
    }
}

impl TextMap {
    pub open spec fn wf(&self) -> bool {
        keys_unique(self@)
    }

    pub fn new() -> (r: TextMap)
        ensures
            r@ == Seq::<(Seq<char>, Seq<char>)>::empty(),
            r.wf(),
    {
        TextMap { entries: Vec::new() }
    }

    pub fn len(&self) -> (r: usize)
        ensures
            r == self@.len(),
    {
        self.entries.len()
    }

    fn position(&self, key: &String) -> (r: Option<usize>)
        requires
            self.wf(),
        ensures
            match r {
                Some(i) => i < self@.len() && key_index(self@, key@) == i,
                None => key_index(self@, key@) == -1,
            },
    {
        let mut i: usize = 0;
        while i < self.entries.len()
            invariant
                self.wf(),
                i <= self@.len(),
                forall|j: int| 0 <= j < i ==> self@[j].0 != key@,
            decreases self@.len() - i,
        {
            if self.entries[i].0.eq(key) {
                proof { lemma_key_index_at(self@, key@, i as int); }
                return Some(i);
            }
            i = i + 1;
        }
        proof {
            lemma_key_index(self@, key@);
            if key_index(self@, key@) >= 0 {
                assert(self@[key_index(self@, key@)].0 == key@);
            }
        }
        None
    }

    /// The value under `key`, if any.
    pub fn get(&self, key: &str) -> (r: Option<String>)
        requires
            self.wf(),
        ensures
            match r {
                Some(s) => lookup(self@, key@) == Some(s@),
                None => lookup(self@, key@).is_none(),
            },
    {
        let k = key.to_owned();
        match self.position(&k) {
            Some(i) => Some(self.entries[i].1.clone()),
            None => None,
        }
    }

    /// The entry at `i`, in insertion order.
    pub fn entry_at(&self, i: usize) -> (r: (String, String))
        requires
            i < self@.len(),
        ensures
            r.0@ == self@[i as int].0,
            r.1@ == self@[i as int].1,
    {
        (self.entries[i].0.clone(), self.entries[i].1.clone())
    }

    /// Stores `value` under `key` as given; returns the value it replaced.
    pub fn insert(&mut self, key: String, value: String) -> (r: Option<String>)
        requires
            old(self).wf(),
        ensures
            final(self).wf(),
            final(self)@ == put(old(self)@, key@, value@, true),
            match r {
                Some(s) => lookup(old(self)@, key@) == Some(s@),
                None => lookup(old(self)@, key@).is_none(),
            },
    {
        proof { lemma_put_unique(self@, key@, value@, true); lemma_key_index(self@, key@); }
        match self.position(&key) {
            Some(i) => {
                let prev = self.entries[i].1.clone();
                self.entries.set(i, (key, value));
                proof { assert(self@ =~= put(old(self)@, key@, value@, true)); }
                Some(prev)
            },
            None => {
                self.entries.push((key, value));
                proof { assert(self@ =~= put(old(self)@, key@, value@, true)); }
                None
            },
        }
    }

    /// Stores `value` under `key` unless the key is already there.
    pub fn insert_first(&mut self, key: String, value: String)
        requires
            old(self).wf(),
        ensures
            final(self).wf(),
            final(self)@ == put(old(self)@, key@, value@, false),
    {
        proof { lemma_put_unique(self@, key@, value@, false); lemma_key_index(self@, key@); }
        if self.position(&key).is_none() {
            self.entries.push((key, value));
            proof { assert(self@ =~= put(old(self)@, key@, value@, false)); }
        }
    }
}

/// Keyed insertion that folds the key to lower case.
pub trait MapUpdates<T>: Sized {
    spec fn well_formed(&self) -> bool;

    /// What holds after `add(field, value, allow_replace)` turned `pre` into
    /// `post` and returned `r`.
    spec fn added(pre: &Self, post: &Self, field: Seq<char>, value: T, allow_replace: bool, r: Option<T>) -> bool;

    /// Stores `value` under the lowercased `field`, replacing an earlier value
    /// only where `allow_replace` holds; an empty field is ignored.
    fn add(&mut self, field: &str, value: T, allow_replace: bool) -> (r: Option<T>)
        requires
            old(self).well_formed(),
        ensures
            final(self).well_formed(),
            Self::added(&*old(self), &*final(self), field@, value, allow_replace, r),
    ;
}

impl MapUpdates<String> for TextMap {
    open spec fn well_formed(&self) -> bool {
        self.wf()
    }

    /// An empty field changes nothing; otherwise the value goes under the
    /// lowercased field as `put` says, and `r` is the value replaced, if any.
    open spec fn added(pre: &TextMap, post: &TextMap, field: Seq<char>, value: String, allow_replace: bool, r: Option<String>) -> bool {
        &&& field.len() == 0 ==> post@ == pre@ && r.is_none()
        &&& field.len() > 0 ==> post@ == put(pre@, lower_of(field), value@, allow_replace)
        &&& field.len() > 0 && allow_replace ==> match r {
            Some(s) => lookup(pre@, lower_of(field)) == Some(s@),
            None => lookup(pre@, lower_of(field)).is_none(),
        }
        &&& !allow_replace ==> r.is_none()
    }

    fn add(&mut self, field: &str, value: String, allow_replace: bool) -> (r: Option<String>) {
        if field.is_empty() {
            return None;
        }
        let f = to_lowercase(field);
        if allow_replace {
            self.insert(f, value)
        } else {
            self.insert_first(f, value);
            None
        }
    }
}

/// Concatenation of the pieces, in order.
pub open spec fn concat_all(pieces: Seq<Seq<char>>) -> Seq<char>
    decreases pieces.len(),
{
    if pieces.len() == 0 {
        Seq::empty()
    } else {
        concat_all(pieces.drop_last()) + pieces.last()
    }
}

/// Joining a list of strings into one.
pub trait VecExtension {
    spec fn pieces(&self) -> Seq<Seq<char>>;

    /// All the strings, one after another.
    fn flat(&self) -> (r: String)
        ensures
            r@ == concat_all(self.pieces()),
    ;
}

impl VecExtension for Vec<String> {
    open spec fn pieces(&self) -> Seq<Seq<char>> {
        self@.map_values(|s: String| s@)
    }

    fn flat(&self) -> (r: String) {
        let mut result: Vec<char> = Vec::new();
        let mut i: usize = 0;
        while i < self.len()
            invariant
                i <= self@.len(),
                result@ == concat_all(self.pieces().subrange(0, i as int)),
            decreases self@.len() - i,
        {
            let c = chars_of(self[i].as_str());
            push_all(&mut result, &c);
            i = i + 1;
            assert(self.pieces().subrange(0, i as int).drop_last() =~= self.pieces().subrange(0, i - 1));
        }
        assert(self.pieces().subrange(0, i as int) =~= self.pieces());
        string_of(&result)
    }
}

/// Relies on `String::push`: the character goes to the end.
#[verifier::external_body]
fn push_char(s: &mut String, c: char)
    ensures
        final(s)@ == old(s)@.push(c),
{
    s.push(c)
}

/// Ending a line the HTTP way.
pub trait LineBreakUtil {
    spec fn chars(&self) -> Seq<char>;

    /// Appends `\r\n`.
    fn append_line_break(&mut self)
        ensures
            final(self).chars() == old(self).chars() + seq!['\r', '\n'],
    ;
}

impl LineBreakUtil for String {
    open spec fn chars(&self) -> Seq<char> {
        self@
    }

    fn append_line_break(&mut self) {
        push_char(self, '\r');
        push_char(self, '\n');
        assert(self@ =~= old(self)@ + seq!['\r', '\n']);
    }
}

/// `v` after appending `val` to the values under `k`.
pub open spec fn append_value(v: Seq<(Seq<char>, Seq<Seq<char>>)>, k: Seq<char>, val: Seq<char>) -> Seq<(Seq<char>, Seq<Seq<char>>)> {
    let i = key_index(v, k);
    if 0 <= i < v.len() {
        v.update(i, (k, v[i].1.push(val)))
    } else {
        v.push((k, seq![val]))
    }
}

/// A map from text to a list of texts, keys in insertion order.
pub struct QueryMap {
    entries: Vec<(String, Vec<String>)>,
}

impl View for QueryMap {
    type V = Seq<(Seq<char>, Seq<Seq<char>>)>;

    closed spec fn view(&self) -> Seq<(Seq<char>, Seq<Seq<char>>)> {
        Seq::new(
            self.entries@.len(),
            |i: int| (self.entries@[i].0@, self.entries@[i].1@.map_values(|s: String| s@)),
        )
    }
}

impl QueryMap {
    pub open spec fn wf(&self) -> bool {
        keys_unique(self@)
    }

    pub fn new() -> (r: QueryMap)
        ensures
            r@ == Seq::<(Seq<char>, Seq<Seq<char>>)>::empty(),
            r.wf(),
    {
        QueryMap { entries: Vec::new() }
    }

    pub fn len(&self) -> (r: usize)
        ensures
            r == self@.len(),
    {
        self.entries.len()
    }

    fn position(&self, key: &String) -> (r: Option<usize>)
        requires
            self.wf(),
        ensures
            match r {
                Some(i) => i < self@.len() && key_index(self@, key@) == i,
                None => key_index(self@, key@) == -1,
            },
    {
        let mut i: usize = 0;
        while i < self.entries.len()
            invariant
                self.wf(),
                i <= self@.len(),
                forall|j: int| 0 <= j < i ==> self@[j].0 != key@,
            decreases self@.len() - i,
        {
            if self.entries[i].0.eq(key) {
                proof { lemma_key_index_at(self@, key@, i as int); }
                return Some(i);
            }
            i = i + 1;
        }
        proof {
            lemma_key_index(self@, key@);
            if key_index(self@, key@) >= 0 {
                assert(self@[key_index(self@, key@)].0 == key@);
            }
        }
        None
    }

    /// The values under `key`, in the order they came.
    pub fn get(&self, key: &str) -> (r: Option<Vec<String>>)
        requires
            self.wf(),
        ensures
            match r {
                Some(vals) => lookup(self@, key@) == Some(vals@.map_values(|s: String| s@)),
                None => lookup(self@, key@).is_none(),
            },
    {
        let k = key.to_owned();
        match self.position(&k) {
            Some(i) => {
                let vals = clone_strings(&self.entries[i].1);
                proof {
                    assert(vals@.map_values(|s: String| s@) =~= self.entries@[i as int].1@.map_values(|s: String| s@));
                }
                Some(vals)
            },
            None => None,
        }
    }

    /// The entry at `i`, in insertion order.
    pub fn entry_at(&self, i: usize) -> (r: (String, Vec<String>))
        requires
            i < self@.len(),
        ensures
            r.0@ == self@[i as int].0,
            r.1@.map_values(|s: String| s@) == self@[i as int].1,
    {
        let vals = clone_strings(&self.entries[i].1);
        proof {
            assert(vals@.map_values(|s: String| s@) =~= self.entries@[i as int].1@.map_values(|s: String| s@));
        }
        (self.entries[i].0.clone(), vals)
    }

    /// Appends `value` to the values under `key`.
    pub fn append(&mut self, key: String, value: String)
        requires
            old(self).wf(),
        ensures
            final(self).wf(),
            final(self)@ == append_value(old(self)@, key@, value@),
    {
        proof { lemma_key_index(self@, key@); }
        match self.position(&key) {
            Some(i) => {
                let mut vals = clone_strings(&self.entries[i].1);
                let ghost before = vals@;
                vals.push(value);
                self.entries.set(i, (key, vals));
                proof {
                    assert(vals@.map_values(|s: String| s@) =~= old(self)@[i as int].1.push(value@));
                    assert(self@ =~= append_value(old(self)@, key@, value@));
                    assert forall|a: int, b: int| 0 <= a < b < self@.len() implies self@[a].0 != self@[b].0 by {
                        assert(self@[a].0 == old(self)@[a].0);
                        assert(self@[b].0 == old(self)@[b].0);
                    }
                }
            },
            None => {
                let mut vals: Vec<String> = Vec::new();
                vals.push(value);
                self.entries.push((key, vals));
                proof {
                    assert(vals@.map_values(|s: String| s@) =~= seq![value@]);
                    assert(self@ =~= append_value(old(self)@, key@, value@));
                }
            },
        }
    }
}

/// A copy of a list of strings.
pub fn clone_strings(v: &Vec<String>) -> (r: Vec<String>)
    ensures
        r@.map_values(|s: String| s@) == v@.map_values(|s: String| s@),
{
    let mut r: Vec<String> = Vec::new();
    let mut i: usize = 0;
    while i < v.len()
        invariant
            i <= v@.len(),
            r@.len() == i,
            forall|j: int| 0 <= j < i ==> #[trigger] r@[j]@ == v@[j]@,
        decreases v@.len() - i,
    {
        r.push(v[i].clone());
        i = i + 1;
    }
    assert(r@.map_values(|s: String| s@) =~= v@.map_values(|s: String| s@));
    r
}

/// The items joined with `,` between them.
pub open spec fn join_comma(items: Seq<Seq<char>>) -> Seq<char>
    decreases items.len(),
{
    if items.len() == 0 {
        Seq::empty()
    } else if items.len() == 1 {
        items[0]
    } else {
        join_comma(items.drop_last()) + seq![','] + items.last()
    }
}

proof fn lemma_join_push(items: Seq<Seq<char>>, x: Seq<char>)
    ensures
        join_comma(items.push(x)) == if items.len() == 0 { x } else { join_comma(items) + seq![','] + x },
{
    assert(items.push(x).drop_last() =~= items);
}

/// `key:value` for each entry with a non-empty key, in order.
pub open spec fn text_items(v: Seq<(Seq<char>, Seq<char>)>) -> Seq<Seq<char>>
    decreases v.len(),
{
    if v.len() == 0 {
        Seq::empty()
    } else if v.last().0.len() > 0 {
        text_items(v.drop_last()).push(v.last().0 + seq![':'] + v.last().1)
    } else {
        text_items(v.drop_last())
    }
}

/// A list of values as rendered inside a flat object: nothing for none, the
/// value itself for one, else `[a,b,...]`.
pub open spec fn list_text(vals: Seq<Seq<char>>) -> Seq<char> {
    if vals.len() == 0 {
        Seq::empty()
    } else if vals.len() == 1 {
        vals[0]
    } else {
        seq!['['] + join_comma(vals) + seq![']']
    }
}

/// `key:values` for each entry with a non-empty key, in order.
pub open spec fn list_items(v: Seq<(Seq<char>, Seq<Seq<char>>)>) -> Seq<Seq<char>>
    decreases v.len(),
{
    if v.len() == 0 {
        Seq::empty()
    } else if v.last().0.len() > 0 {
        list_items(v.drop_last()).push(v.last().0 + seq![':'] + list_text(v.last().1))
    } else {
        list_items(v.drop_last())
    }
}

/// `{` items joined by `,` `}`.
pub open spec fn braced(items: Seq<Seq<char>>) -> Seq<char> {
    seq!['{'] + join_comma(items) + seq!['}']
}

/// Renders the map as `{k1:v1,k2:v2}`, skipping empty keys, in insertion order.
pub fn json_stringify(contents: &TextMap) -> (r: String)
    ensures
        r@ == braced(text_items(contents@)),
{
    let mut res: Vec<char> = Vec::new();
    res.push('{');
    let mut is_first = true;
    let mut i: usize = 0;
    while i < contents.entries.len()
        invariant
            i <= contents@.len(),
            res@ == seq!['{'] + join_comma(text_items(contents@.subrange(0, i as int))),
            is_first == (text_items(contents@.subrange(0, i as int)).len() == 0),
        decreases contents@.len() - i,
    {
        let ghost sub = contents@.subrange(0, i as int);
        let ghost next = contents@.subrange(0, i + 1);
        assert(next.drop_last() =~= sub);
        let key = chars_of(contents.entries[i].0.as_str());
        if key.len() > 0 {
            let val = chars_of(contents.entries[i].1.as_str());
            let ghost item = key@ + seq![':'] + val@;
            proof { lemma_join_push(text_items(sub), item); }
            if !is_first {
                res.push(',');
            } else {
                is_first = false;
            }
            push_all(&mut res, &key);
            res.push(':');
            push_all(&mut res, &val);
            assert(res@ =~= seq!['{'] + join_comma(text_items(next)));
        }
        i = i + 1;
    }
    assert(contents@.subrange(0, i as int) =~= contents@);
    res.push('}');
    string_of(&res)
}

/// Renders a list of values: empty for none, the value for one, else `[a,b]`.
pub fn json_format_content(content: &[String]) -> (r: String)
    ensures
        r@ == list_text(content@.map_values(|s: String| s@)),
{
    let ghost vals = content@.map_values(|s: String| s@);
    let len = content.len();
    if len == 0 {
        return String::new();
    }
    if len == 1 {
        return content[0].clone();
    }
    let mut base: Vec<char> = Vec::new();
    base.push('[');
    let mut idx: usize = 0;
    while idx < len
        invariant
            idx <= len == content@.len(),
            vals == content@.map_values(|s: String| s@),
            base@ == seq!['['] + join_comma(vals.subrange(0, idx as int)),
        decreases len - idx,
    {
        let item = chars_of(content[idx].as_str());
        proof {
            lemma_join_push(vals.subrange(0, idx as int), item@);
            assert(vals.subrange(0, idx + 1) =~= vals.subrange(0, idx as int).push(item@));
        }
        if idx != 0 {
            base.push(',');
        }
        push_all(&mut base, &item);
        idx = idx + 1;
        assert(base@ =~= seq!['['] + join_comma(vals.subrange(0, idx as int)));
    }
    assert(vals.subrange(0, len as int) =~= vals);
    base.push(']');
    string_of(&base)
}

/// Renders the map as `{k1:v1,k2:[a,b]}`, skipping empty keys, in insertion order.
pub fn json_flat_stringify(contents: &QueryMap) -> (r: String)
    ensures
        r@ == braced(list_items(contents@)),
{
    let mut res: Vec<char> = Vec::new();
    res.push('{');
    let mut is_first = true;
    let mut i: usize = 0;
    while i < contents.entries.len()
        invariant
            i <= contents@.len(),
            res@ == seq!['{'] + join_comma(list_items(contents@.subrange(0, i as int))),
            is_first == (list_items(contents@.subrange(0, i as int)).len() == 0),
        decreases contents@.len() - i,
    {
        let ghost sub = contents@.subrange(0, i as int);
        let ghost next = contents@.subrange(0, i + 1);
        assert(next.drop_last() =~= sub);
        let key = chars_of(contents.entries[i].0.as_str());
        if key.len() > 0 {
            let rendered = json_format_content(contents.entries[i].1.as_slice());
            let val = chars_of(rendered.as_str());
            let ghost item = key@ + seq![':'] + val@;
            proof { lemma_join_push(list_items(sub), item); }
            if !is_first {
                res.push(',');
            } else {
                is_first = false;
            }
            push_all(&mut res, &key);
            res.push(':');
            push_all(&mut res, &val);
            assert(res@ =~= seq!['{'] + join_comma(list_items(next)));
        }
        i = i + 1;
    }
    assert(contents@.subrange(0, i as int) =~= contents@);
    res.push('}');
    string_of(&res)
}

} // verus!
