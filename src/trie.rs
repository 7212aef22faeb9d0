//! The segment trie that stores parameterized routes.
//!
//! Nodes live in one arena and refer to their children by index; the root is
//! node 0 and stands for `/`.

use vstd::prelude::*;
use crate::pattern::{Pattern, regex_finds};
use crate::text::{chars_of, chars_eq};

verus! {

/// Identifies a registered handler; the embedding application maps it to code.
pub type HandlerId = usize;

/// A segment's name, whether it is a parameter, and the source of its validator.
pub type FieldView = (Seq<char>, bool, Option<Seq<char>>);

/// One path segment of a route: a literal name, or a named parameter with an
/// optional validator.
#[derive(Debug)]
pub struct Field {
    pub name: String,
    pub is_param: bool,
    pub validation: Option<Pattern>,
}

impl View for Field {
    type V = FieldView;

    open spec fn view(&self) -> FieldView {
        (self.name@, self.is_param, match self.validation {
            Some(p) => Some(p@),
            None => None,
        })
    }
}

impl Field {
    pub fn new(name: String, is_param: bool, validation: Option<Pattern>) -> (r: Field)
        ensures
            r.name == name,
            r.is_param == is_param,
            r.validation == validation,
    {
        Field { name, is_param, validation }
    }

    pub fn name(&self) -> (r: &String)
        ensures
            r == self.name,
    {
        &self.name
    }

    pub fn is_param(&self) -> (r: bool)
        ensures
            r == self.is_param,
    {
        self.is_param
    }

    /// The validator's source text, if the field has one.
    pub fn validation_source(&self) -> (r: Option<String>)
        ensures
            match r {
                Some(s) => self@.2 == Some(s@),
                None => self@.2.is_none(),
            },
    {
        match &self.validation {
            Some(p) => Some(p.as_str().to_owned()),
            None => None,
        }
    }
}

impl PartialEq for Field {
    /// Fields are equal when name, kind and validator source agree.
    fn eq(&self, other: &Field) -> (r: bool)
        ensures
            r == (self@ == other@),
    {
        if self.is_param != other.is_param || !self.name.eq(&other.name) {
            return false;
        }
        match (&self.validation, &other.validation) {
            (Some(a), Some(b)) => {
                let x = chars_of(a.as_str());
                let y = chars_of(b.as_str());
                chars_eq(&x, &y)
            },
            (None, None) => true,
            _ => false,
        }
    }
}

impl vstd::std_specs::cmp::PartialEqSpecImpl for Field {
    open spec fn obeys_eq_spec() -> bool {
        true
    }

    open spec fn eq_spec(&self, other: &Field) -> bool {
        self@ == other@
    }
}

/// A trie node: its segment, its handler, and the arena indices of its
/// literal and parameter children.
pub struct Node {
    pub field: Field,
    pub handler: Option<HandlerId>,
    pub named: Vec<usize>,
    pub params: Vec<usize>,
}

/// The node among `list` whose literal name is `name`, or -1.
pub open spec fn named_pos(nodes: Seq<Node>, list: Seq<usize>, name: Seq<char>) -> int
    decreases list.len(),
{
    if list.len() == 0 {
        -1
    } else if (list[0] as int) < nodes.len() && nodes[list[0] as int].field@.0 == name {
        list[0] as int
    } else {
        named_pos(nodes, list.drop_first(), name)
    }
}

/// Whether a parameter node accepts `seg`: it has a name, and its validator,
/// if any, matches the segment.
pub open spec fn accepts(f: FieldView, seg: Seq<char>) -> bool {
    f.0.len() > 0 && match f.2 {
        Some(src) => regex_finds(src, seg),
        None => true,
    }
}

/// Resolution of `segs` below node `n`: a literal child named like the first
/// segment is taken when there is one; otherwise the parameter children are
/// tried in order, backtracking past those whose subtree fails or that end
/// the path without a handler. The result is
/// the handler and the parameter bindings from the top down.
pub open spec fn find(nodes: Seq<Node>, n: int, segs: Seq<Seq<char>>) -> Option<(HandlerId, Seq<(Seq<char>, Seq<char>)>)>
    decreases segs.len(), 1nat, 0nat,
{
    if segs.len() == 0 || !(0 <= n < nodes.len()) {
        None
    } else {
        let c = named_pos(nodes, nodes[n].named@, segs[0]);
        if 0 <= c < nodes.len() {
            if segs.len() == 1 {
                match nodes[c].handler {
                    Some(h) => Some((h, Seq::empty())),
                    None => None,
                }
            } else {
                find(nodes, c, segs.drop_first())
            }
        } else {
            find_params(nodes, n, segs, 0)
        }
    }
}

/// Resolution of `segs` through the parameter children of `n` from the `k`-th on.
pub open spec fn find_params(nodes: Seq<Node>, n: int, segs: Seq<Seq<char>>, k: int) -> Option<(HandlerId, Seq<(Seq<char>, Seq<char>)>)>
    decreases segs.len(), 0nat, (if 0 <= n < nodes.len() && 0 <= k < nodes[n].params@.len() { nodes[n].params@.len() - k } else { 0 }) as nat,
{
    if segs.len() == 0 || !(0 <= n < nodes.len()) || !(0 <= k < nodes[n].params@.len()) {
        None
    } else {
        let p = nodes[n].params@[k] as int;
        if !(0 <= p < nodes.len()) || !accepts(nodes[p].field@, segs[0]) {
            find_params(nodes, n, segs, k + 1)
        } else if segs.len() == 1 {
            match nodes[p].handler {
                Some(h) => Some((h, seq![(nodes[p].field@.0, segs[0])])),
                None => find_params(nodes, n, segs, k + 1),
            }
        } else {
            match find(nodes, p, segs.drop_first()) {
                Some((h, b)) => Some((h, seq![(nodes[p].field@.0, segs[0])] + b)),
                None => find_params(nodes, n, segs, k + 1),
            }
        }
    }
}

/// Why a route could not be registered.
#[derive(Debug, Clone, Copy, PartialEq, Eq)]
pub enum RouteError {
    /// The path is empty.
    EmptyPath,
    /// An explicit path does not start with `/`.
    NotRooted,
    /// Two `/` follow each other.
    EmptySegment,
    /// A parameter name holds a character that is not alphanumeric.
    InvalidParamName,
    /// A `:` stands elsewhere than right after a `/`.
    MisplacedColon,
    /// A `(` stands elsewhere than right after a parameter name.
    MisplacedValidator,
    /// A validator is not a valid regex.
    InvalidValidator,
    /// Something follows a parameter's validator before the next `/`.
    TextAfterValidator,
    /// A `:` is followed by nothing.
    EmptyParamName,
    /// A validator is given without a parameter name.
    ValidatorWithoutName,
    /// A validator is empty.
    EmptyValidator,
    /// A validator is not closed before the path ends.
    UnterminatedValidator,
    /// Two parameters of one path share a name.
    DuplicateParam,
    /// The same route already has a handler.
    Collision,
    /// The method token is empty.
    EmptyMethod,
}

/// The views of a list of fields.
pub open spec fn fields_view(v: Seq<Field>) -> Seq<FieldView> {
    v.map_values(|f: Field| f@)
}

/// Whether registering `fields` below `n` meets a route that already has a
/// handler: every field is literal, an existing literal child matches each in
/// turn, and the last one carries a handler.
pub open spec fn collides(nodes: Seq<Node>, n: int, fields: Seq<FieldView>) -> bool
    decreases fields.len(),
{
    if fields.len() == 0 || !(0 <= n < nodes.len()) || fields[0].1 {
        false
    } else {
        let c = named_pos(nodes, nodes[n].named@, fields[0].0);
        if 0 <= c < nodes.len() {
            if fields.len() == 1 {
                nodes[c].handler.is_some()
            } else {
                collides(nodes, c, fields.drop_first())
            }
        } else {
            false
        }
    }
}

/// The bindings of a stack of (name, value) pairs.
pub open spec fn pairs_view(v: Seq<(String, String)>) -> Seq<(Seq<char>, Seq<char>)> {
    v.map_values(|p: (String, String)| (p.0@, p.1@))
}

/// The segments' texts.
pub open spec fn segs_view(v: Seq<String>) -> Seq<Seq<char>> {
    v.map_values(|s: String| s@)
}

/// Every field is a literal segment.
pub open spec fn all_literal(fields: Seq<FieldView>) -> bool {
    forall|i: int| 0 <= i < fields.len() ==> !(#[trigger] fields[i]).1
}

/// The names of the fields, as the segments that match them literally.
pub open spec fn names_of(fields: Seq<FieldView>) -> Seq<Seq<char>> {
    fields.map_values(|f: FieldView| f.0)
}

/// `named_pos` reads only the names of the nodes it is pointed at.
pub proof fn lemma_named_pos_frame(a: Seq<Node>, b: Seq<Node>, list: Seq<usize>, name: Seq<char>)
    requires
        a.len() <= b.len(),
        forall|j: int| 0 <= j < a.len() ==> (#[trigger] b[j]).field@.0 == a[j].field@.0,
        forall|j: int| 0 <= j < list.len() ==> (#[trigger] list[j] as int) < a.len(),
    ensures
        named_pos(b, list, name) == named_pos(a, list, name),
    decreases list.len(),
{
    if list.len() > 0 {
        assert((list[0] as int) < a.len());
        lemma_named_pos_frame(a, b, list.drop_first(), name);
    }
}

/// A child added at the end is found only where no earlier child matches.
pub proof fn lemma_named_pos_push(nodes: Seq<Node>, list: Seq<usize>, x: usize, name: Seq<char>)
    ensures
        named_pos(nodes, list, name) >= -1,
        named_pos(nodes, list.push(x), name) == if named_pos(nodes, list, name) >= 0 {
            named_pos(nodes, list, name)
        } else if (x as int) < nodes.len() && nodes[x as int].field@.0 == name {
            x as int
        } else {
            -1
        },
    decreases list.len(),
{
    if list.len() > 0 {
        assert(list.push(x)[0] == list[0]);
        assert(list.push(x).drop_first() =~= list.drop_first().push(x));
        lemma_named_pos_push(nodes, list.drop_first(), x, name);
    } else {
        assert(list.push(x)[0] == x);
        assert(list.push(x).drop_first() =~= Seq::<usize>::empty());
        assert(named_pos(nodes, Seq::<usize>::empty(), name) == -1);
    }
}

/// Following literal children along `path`, one per name, reaches a node
/// with handler `h`: resolving the names gives `h` and no bindings.
pub proof fn lemma_literal_path(nodes: Seq<Node>, path: Seq<int>, names: Seq<Seq<char>>, h: HandlerId)
    requires
        names.len() >= 1,
        path.len() == names.len() + 1,
        forall|j: int| 0 <= j < path.len() ==> 0 <= #[trigger] path[j] < nodes.len(),
        forall|j: int| 0 <= j < names.len() ==> named_pos(nodes, nodes[path[j]].named@, #[trigger] names[j]) == path[j + 1],
        nodes[path.last()].handler == Some(h),
    ensures
        find(nodes, path[0], names) == Some((h, Seq::<(Seq<char>, Seq<char>)>::empty())),
    decreases names.len(),
{
    assert(named_pos(nodes, nodes[path[0]].named@, names[0]) == path[1]);
    assert(0 <= path[1] < nodes.len());
    if names.len() > 1 {
        let p2 = path.drop_first();
        let n2 = names.drop_first();
        assert forall|j: int| 0 <= j < n2.len() implies named_pos(nodes, nodes[p2[j]].named@, #[trigger] n2[j]) == p2[j + 1] by {
            assert(n2[j] == names[j + 1]);
            assert(named_pos(nodes, nodes[path[j + 1]].named@, names[j + 1]) == path[j + 2]);
        }
        lemma_literal_path(nodes, p2, n2, h);
    }
}

/// Whether `segs` fits the route `fields`: one segment per field, equal to a
/// literal field's name, accepted by a parameter field.
pub open spec fn fits(fields: Seq<FieldView>, segs: Seq<Seq<char>>) -> bool {
    &&& segs.len() == fields.len()
    &&& forall|t: int| 0 <= t < fields.len() ==> if (#[trigger] fields[t]).1 {
        accepts(fields[t], segs[t])
    } else {
        segs[t] == fields[t].0
    }
}

/// The bindings that the parameter fields of `fields` make for `segs`, in order.
pub open spec fn param_bindings(fields: Seq<FieldView>, segs: Seq<Seq<char>>) -> Seq<(Seq<char>, Seq<char>)>
    decreases fields.len(),
{
    if fields.len() == 0 {
        Seq::empty()
    } else {
        (if fields[0].1 { seq![(fields[0].0, segs[0])] } else { Seq::empty() })
            + param_bindings(fields.drop_first(), segs.drop_first())
    }
}

/// Node `parent` has exactly one child, `child`, among its literal children
/// if `is_param` does not hold, else among its parameter children.
pub open spec fn only_child(nodes: Seq<Node>, parent: int, child: int, is_param: bool) -> bool {
    if is_param {
        nodes[parent].params@ == seq![child as usize] && nodes[parent].named@.len() == 0
    } else {
        nodes[parent].named@ == seq![child as usize] && nodes[parent].params@.len() == 0
    }
}

/// Nodes `base ..` hold the fields in turn, each the only child of the one
/// before, and the last carries `h`.
pub open spec fn chain_shape(nodes: Seq<Node>, base: int, fields: Seq<FieldView>, h: HandlerId) -> bool {
    &&& fields.len() >= 1
    &&& 0 <= base
    &&& base + fields.len() <= nodes.len()
    &&& forall|t: int| 0 <= t < fields.len() ==> (#[trigger] nodes[base + t]).field@ == fields[t]
    &&& forall|t: int| 0 <= t < fields.len() - 1 ==> #[trigger] only_child(nodes, base + t, base + t + 1, fields[t + 1].1)
    &&& nodes[base + fields.len() - 1].handler == Some(h)
}

/// Resolving a path that fits a chain hung below `parent` follows the chain.
pub proof fn lemma_chain_find(nodes: Seq<Node>, parent: int, base: int, fields: Seq<FieldView>, segs: Seq<Seq<char>>, h: HandlerId)
    requires
        chain_shape(nodes, base, fields, h),
        fits(fields, segs),
        0 <= parent < nodes.len(),
        only_child(nodes, parent, base, fields[0].1),
        base + fields.len() <= usize::MAX,
    ensures
        find(nodes, parent, segs) == Some((h, param_bindings(fields, segs))),
    decreases fields.len(),
{
    let f0 = fields[0];
    assert(nodes[base + 0].field@ == f0);
    assert(base == base + 0);
    let rest_f = fields.drop_first();
    let rest_s = segs.drop_first();
    if fields.len() > 1 {
        assert(chain_shape(nodes, base + 1, rest_f, h)) by {
            assert forall|t: int| 0 <= t < rest_f.len() implies (#[trigger] nodes[base + 1 + t]).field@ == rest_f[t] by {
                assert(nodes[base + (t + 1)].field@ == fields[t + 1]);
            }
            assert forall|t: int| 0 <= t < rest_f.len() - 1 implies #[trigger] only_child(nodes, base + 1 + t, base + 1 + t + 1, rest_f[t + 1].1) by {
                let u = t + 1;
                assert(only_child(nodes, base + u, base + u + 1, fields[u + 1].1));
                assert(rest_f[t + 1] == fields[u + 1]);
            }
        }
        assert(fits(rest_f, rest_s)) by {
            assert forall|t: int| 0 <= t < rest_f.len() implies if (#[trigger] rest_f[t]).1 {
                accepts(rest_f[t], rest_s[t])
            } else {
                rest_s[t] == rest_f[t].0
            } by {
                assert(rest_f[t] == fields[t + 1]);
                assert(rest_s[t] == segs[t + 1]);
            }
        }
        assert(only_child(nodes, base + 0, base + 0 + 1, fields[1int].1));
        lemma_chain_find(nodes, base, base + 1, rest_f, rest_s, h);
    }
    assert(if f0.1 { accepts(fields[0], segs[0]) } else { segs[0] == fields[0].0 });
    let l = if f0.1 { nodes[parent].params@ } else { nodes[parent].named@ };
    assert(l.drop_first() =~= Seq::<usize>::empty());
    assert(param_bindings(fields, segs) == (if f0.1 { seq![(f0.0, segs[0])] } else { Seq::empty() }) + param_bindings(rest_f, rest_s));
    if fields.len() == 1 {
        assert(param_bindings(rest_f, rest_s) =~= Seq::<(Seq<char>, Seq<char>)>::empty());
    }
    if fields.len() == 1 {
        assert(nodes[base].handler == Some(h));
    }
    if f0.1 {
        assert(named_pos(nodes, nodes[parent].named@, segs[0]) == -1);
        let p = nodes[parent].params@[0] as int;
        assert(p == base);
        assert(accepts(nodes[p].field@, segs[0]));
        if fields.len() == 1 {
            assert(seq![(f0.0, segs[0])] + Seq::<(Seq<char>, Seq<char>)>::empty() =~= seq![(f0.0, segs[0])]);
            assert(find_params(nodes, parent, segs, 0) == Some((h, seq![(f0.0, segs[0])])));
        } else {
            assert(find(nodes, p, segs.drop_first()) == Some((h, param_bindings(rest_f, rest_s))));
            assert(find_params(nodes, parent, segs, 0) == Some((h, seq![(f0.0, segs[0])] + param_bindings(rest_f, rest_s))));
        }
        assert(find(nodes, parent, segs) == find_params(nodes, parent, segs, 0));
    } else {
        assert(named_pos(nodes, nodes[parent].named@, segs[0]) == base);
        if fields.len() == 1 {
            assert(Seq::<(Seq<char>, Seq<char>)>::empty() + Seq::<(Seq<char>, Seq<char>)>::empty() =~= Seq::<(Seq<char>, Seq<char>)>::empty());
        } else {
            assert(Seq::<(Seq<char>, Seq<char>)>::empty() + param_bindings(rest_f, rest_s) =~= param_bindings(rest_f, rest_s));
        }
    }
}

/// A chain as `chain_shape` has it, where only the last node carries a
/// handler and the last node has no children.
pub open spec fn chain_exact(nodes: Seq<Node>, base: int, fields: Seq<FieldView>, h: HandlerId) -> bool {
    &&& chain_shape(nodes, base, fields, h)
    &&& forall|t: int| 0 <= t < fields.len() - 1 ==> (#[trigger] nodes[base + t]).handler.is_none()
    &&& nodes[base + fields.len() - 1].named@.len() == 0
    &&& nodes[base + fields.len() - 1].params@.len() == 0
}

/// Where registering `fields` below `n` stops following existing nodes:
/// literal fields are followed through existing literal children, the last
/// field excepted. The result is the node reached and how many fields led there.
pub open spec fn descend(nodes: Seq<Node>, n: int, fields: Seq<FieldView>) -> (int, int)
    decreases fields.len(),
{
    if fields.len() <= 1 || fields[0].1 || !(0 <= n < nodes.len()) {
        (n, 0)
    } else {
        let c = named_pos(nodes, nodes[n].named@, fields[0].0);
        if 0 <= c < nodes.len() {
            let r = descend(nodes, c, fields.drop_first());
            (r.0, r.1 + 1)
        } else {
            (n, 0)
        }
    }
}

/// The nodes `n` after registering `fields` with `h` in the nodes `o`:
/// from the node where `descend` stops, either the last field names an
/// existing literal child, which takes the handler; or a new chain of nodes
/// for the remaining fields is appended, the first one becoming the last
/// literal or parameter child of that node. All other nodes stay as they were.
pub open spec fn added(o: Seq<Node>, n: Seq<Node>, fields: Seq<FieldView>, h: HandlerId) -> bool {
    let (cur, i) = descend(o, 0, fields);
    let f = fields[i];
    let c = named_pos(o, o[cur].named@, f.0);
    if i == fields.len() - 1 && !f.1 && 0 <= c < o.len() {
        &&& n.len() == o.len()
        &&& forall|j: int| 0 <= j < o.len() && j != c ==> #[trigger] n[j] == o[j]
        &&& n[c].field == o[c].field
        &&& n[c].named == o[c].named
        &&& n[c].params == o[c].params
        &&& n[c].handler == Some(h)
    } else {
        let base = o.len() as int;
        &&& n.len() == o.len() + fields.len() - i
        &&& forall|j: int| 0 <= j < base && j != cur ==> #[trigger] n[j] == o[j]
        &&& n[cur].field == o[cur].field
        &&& n[cur].handler == o[cur].handler
        &&& f.1 ==> n[cur].params@ == o[cur].params@.push(base as usize) && n[cur].named@ == o[cur].named@
        &&& !f.1 ==> n[cur].named@ == o[cur].named@.push(base as usize) && n[cur].params@ == o[cur].params@
        &&& chain_exact(n, base, fields.subrange(i, fields.len() as int), h)
    }
}

/// Every node but the root that has no children carries a handler.
pub open spec fn leaves_have_handlers(nodes: Seq<Node>) -> bool {
    forall|j: int| 1 <= j < nodes.len() && (#[trigger] nodes[j]).named@.len() == 0 && nodes[j].params@.len() == 0
        ==> nodes[j].handler.is_some()
}

/// Registration keeps every childless node supplied with a handler.
pub proof fn lemma_added_leaves(o: Seq<Node>, n: Seq<Node>, fields: Seq<FieldView>, h: HandlerId)
    requires
        fields.len() >= 1,
        leaves_have_handlers(o),
        added(o, n, fields, h),
        0 <= descend(o, 0, fields).0 < o.len(),
        0 <= descend(o, 0, fields).1 < fields.len(),
    ensures
        leaves_have_handlers(n),
{
    let (cur, i) = descend(o, 0, fields);
    let f = fields[i];
    let c = named_pos(o, o[cur].named@, f.0);
    if i == fields.len() - 1 && !f.1 && 0 <= c < o.len() {
        assert forall|j: int| 1 <= j < n.len() && (#[trigger] n[j]).named@.len() == 0 && n[j].params@.len() == 0
            implies n[j].handler.is_some() by {
            if j != c {
                assert(n[j] == o[j]);
            }
        }
    } else {
        let base = o.len() as int;
        let rest = fields.subrange(i, fields.len() as int);
        assert forall|j: int| 1 <= j < n.len() && (#[trigger] n[j]).named@.len() == 0 && n[j].params@.len() == 0
            implies n[j].handler.is_some() by {
            if j < base && j != cur {
                assert(n[j] == o[j]);
            } else if j >= base {
                let t = j - base;
                if t < rest.len() - 1 {
                    assert(only_child(n, base + t, base + t + 1, rest[t + 1].1));
                } else {
                    assert(j == base + rest.len() - 1);
                }
            }
        }
    }
}

/// Descending never leaves the nodes and never uses up the last field.
pub proof fn lemma_descend_range(nodes: Seq<Node>, n: int, fields: Seq<FieldView>)
    requires
        0 <= n < nodes.len(),
    ensures
        0 <= descend(nodes, n, fields).0 < nodes.len(),
        0 <= descend(nodes, n, fields).1,
        fields.len() >= 1 ==> descend(nodes, n, fields).1 < fields.len(),
    decreases fields.len(),
{
    if !(fields.len() <= 1 || fields[0].1) {
        let c = named_pos(nodes, nodes[n].named@, fields[0].0);
        if 0 <= c < nodes.len() {
            lemma_descend_range(nodes, c, fields.drop_first());
        }
    }
}

/// The parameterized routes of one method.
pub struct RouteTrie {
    nodes: Vec<Node>,
}

impl RouteTrie {
    pub closed spec fn nodes(&self) -> Seq<Node> {
        self.nodes@
    }

    /// The root exists, and literal children are literal and in
    /// range, and parameter children are parameters in range.
    pub open spec fn wf(&self) -> bool {
        let nodes = self.nodes();
        &&& nodes.len() >= 1
        &&& forall|i: int, j: int| 0 <= i < nodes.len() && 0 <= j < nodes[i].named@.len() ==> {
            let c = #[trigger] nodes[i].named@[j] as int;
            &&& 0 <= c < nodes.len()
            &&& !nodes[c].field@.1
        }
        &&& forall|i: int, j: int| 0 <= i < nodes.len() && 0 <= j < nodes[i].params@.len() ==> {
            let c = #[trigger] nodes[i].params@[j] as int;
            &&& 0 <= c < nodes.len()
            &&& nodes[c].field@.1
        }
    }

    /// The result of resolving `segs` from the root.
    pub open spec fn resolve(&self, segs: Seq<Seq<char>>) -> Option<(HandlerId, Seq<(Seq<char>, Seq<char>)>)> {
        find(self.nodes(), 0, segs)
    }

    /// A chain hung below the childless root of `o` resolves every path that
    /// fits its fields.
    proof fn lemma_fresh_route(&self, o: Seq<Node>, base: int, len: int, fv: Seq<FieldView>, handler: HandlerId)
        requires
            o.len() >= 1,
            o[0].named@.len() == 0,
            o[0].params@.len() == 0,
            base == o.len(),
            len == self.nodes().len(),
            len <= usize::MAX,
            chain_shape(self.nodes(), base, fv, handler),
            !fv[0].1 ==> self.nodes()[0].named@ == o[0].named@.push(base as usize) && self.nodes()[0].params@ == o[0].params@,
            fv[0].1 ==> self.nodes()[0].params@ == o[0].params@.push(base as usize) && self.nodes()[0].named@ == o[0].named@,
        ensures
            forall|segs: Seq<Seq<char>>| fits(fv, segs) ==> #[trigger] self.resolve(segs) == Some((handler, param_bindings(fv, segs))),
    {
        let n = self.nodes();
        if fv[0].1 {
            assert(n[0].params@ =~= seq![base as usize]);
        } else {
            assert(n[0].named@ =~= seq![base as usize]);
        }
        assert(only_child(n, 0, base, fv[0].1));
        assert forall|segs: Seq<Seq<char>>| fits(fv, segs) implies #[trigger] self.resolve(segs) == Some((handler, param_bindings(fv, segs))) by {
            lemma_chain_find(n, 0, base, fv, segs, handler);
        }
    }

    /// An empty trie: a root with no children.
    pub fn initialize() -> (r: RouteTrie)
        ensures
            r.wf(),
            r.is_empty_spec(),
            leaves_have_handlers(r.nodes()),
            forall|segs: Seq<Seq<char>>| #[trigger] r.resolve(segs).is_none(),
    {
        let mut nodes: Vec<Node> = Vec::new();
        let root = Node {
            field: Field::new(crate::text::string_of(&['/']), false, None),
            handler: None,
            named: Vec::new(),
            params: Vec::new(),
        };
        nodes.push(root);
        let r = RouteTrie { nodes };
        assert forall|segs: Seq<Seq<char>>| #[trigger] r.resolve(segs).is_none() by {
            if segs.len() > 0 {
                assert(find_params(r.nodes(), 0, segs, 0).is_none());
            }
        }
        r
    }

    pub open spec fn is_empty_spec(&self) -> bool {
        self.nodes().len() >= 1 && self.nodes()[0].named@.len() == 0 && self.nodes()[0].params@.len() == 0
    }

    /// Whether the root has no children.
    pub fn is_empty(&self) -> (r: bool)
        requires
            self.wf(),
        ensures
            r == self.is_empty_spec(),
    {
        self.nodes[0].named.len() == 0 && self.nodes[0].params.len() == 0
    }

    /// Adds `child` to the literal or parameter children of `parent`.
    fn attach(&mut self, parent: usize, child: usize, is_param: bool)
        requires
            old(self).wf(),
            parent < old(self).nodes().len(),
            child < old(self).nodes().len(),
            old(self).nodes()[child as int].field@.1 == is_param,
        ensures
            final(self).wf(),
            final(self).nodes().len() == old(self).nodes().len(),
            forall|j: int| 0 <= j < final(self).nodes().len() && j != parent ==> final(self).nodes()[j] == old(self).nodes()[j],
            final(self).nodes()[parent as int].field == old(self).nodes()[parent as int].field,
            final(self).nodes()[parent as int].handler == old(self).nodes()[parent as int].handler,
            is_param ==> final(self).nodes()[parent as int].named@ == old(self).nodes()[parent as int].named@,
            is_param ==> final(self).nodes()[parent as int].params@ == old(self).nodes()[parent as int].params@.push(child),
            !is_param ==> final(self).nodes()[parent as int].named@ == old(self).nodes()[parent as int].named@.push(child),
            !is_param ==> final(self).nodes()[parent as int].params@ == old(self).nodes()[parent as int].params@,
    {
        let mut node = self.nodes.remove(parent);
        if is_param {
            node.params.push(child);
        } else {
            node.named.push(child);
        }
        self.nodes.insert(parent, node);
        proof {
            let o = old(self).nodes();
            let f = self.nodes();
            assert(f =~= o.update(parent as int, node));
            assert forall|i: int, j: int| 0 <= i < f.len() && 0 <= j < f[i].named@.len() implies {
                let c = #[trigger] f[i].named@[j] as int;
                &&& 0 <= c < f.len()
                &&& !f[c].field@.1
            } by {
                if i != parent as int || is_param || j < o[i].named@.len() {
                    assert(f[i].named@[j] == o[i].named@[j]);
                }
            }
            assert forall|i: int, j: int| 0 <= i < f.len() && 0 <= j < f[i].params@.len() implies {
                let c = #[trigger] f[i].params@[j] as int;
                &&& 0 <= c < f.len()
                &&& f[c].field@.1
            } by {
                if i != parent as int || !is_param || j < o[i].params@.len() {
                    assert(f[i].params@[j] == o[i].params@[j]);
                }
            }
        }
    }

    /// Appends a childless node for `field`.
    fn push_node(&mut self, field: Field, handler: Option<HandlerId>) -> (r: usize)
        requires
            old(self).wf(),
        ensures
            final(self).wf(),
            r == old(self).nodes().len(),
            final(self).nodes().len() == old(self).nodes().len() + 1,
            forall|j: int| 0 <= j < old(self).nodes().len() ==> final(self).nodes()[j] == old(self).nodes()[j],
            final(self).nodes()[r as int].field == field,
            final(self).nodes()[r as int].handler == handler,
            final(self).nodes()[r as int].named@.len() == 0,
            final(self).nodes()[r as int].params@.len() == 0,
    {
        let r = self.nodes.len();
        self.nodes.push(Node { field, handler, named: Vec::new(), params: Vec::new() });
        proof {
            let o = old(self).nodes();
            let f = self.nodes();
            assert forall|i: int, j: int| 0 <= i < f.len() && 0 <= j < f[i].named@.len() implies {
                let c = #[trigger] f[i].named@[j] as int;
                &&& 0 <= c < f.len()
                &&& !f[c].field@.1
            } by {
                assert(i < o.len());
                assert(f[i] == o[i]);
            }
            assert forall|i: int, j: int| 0 <= i < f.len() && 0 <= j < f[i].params@.len() implies {
                let c = #[trigger] f[i].params@[j] as int;
                &&& 0 <= c < f.len()
                &&& f[c].field@.1
            } by {
                assert(i < o.len());
                assert(f[i] == o[i]);
            }
        }
        r
    }

    /// Sets the handler of node `n`.
    fn set_handler(&mut self, n: usize, handler: HandlerId)
        requires
            old(self).wf(),
            n < old(self).nodes().len(),
        ensures
            final(self).wf(),
            final(self).nodes().len() == old(self).nodes().len(),
            forall|j: int| 0 <= j < final(self).nodes().len() && j != n ==> final(self).nodes()[j] == old(self).nodes()[j],
            final(self).nodes()[n as int].field == old(self).nodes()[n as int].field,
            final(self).nodes()[n as int].handler == Some(handler),
            final(self).nodes()[n as int].named == old(self).nodes()[n as int].named,
            final(self).nodes()[n as int].params == old(self).nodes()[n as int].params,
    {
        let mut node = self.nodes.remove(n);
        node.handler = Some(handler);
        self.nodes.insert(n, node);
        proof {
            let o = old(self).nodes();
            let f = self.nodes();
            assert(f =~= o.update(n as int, node));
            assert forall|i: int, j: int| 0 <= i < f.len() && 0 <= j < f[i].named@.len() implies {
                let c = #[trigger] f[i].named@[j] as int;
                &&& 0 <= c < f.len()
                &&& !f[c].field@.1
            } by {
                assert(f[i].named@[j] == o[i].named@[j]);
            }
            assert forall|i: int, j: int| 0 <= i < f.len() && 0 <= j < f[i].params@.len() implies {
                let c = #[trigger] f[i].params@[j] as int;
                &&& 0 <= c < f.len()
                &&& f[c].field@.1
            } by {
                assert(f[i].params@[j] == o[i].params@[j]);
            }
        }
    }

    /// Registers the route made of `fields` with `handler`. Literal segments
    /// share existing literal children; a parameter always opens a new branch.
    /// Fails, changing nothing, where the route already has a handler.
    pub fn add(&mut self, fields: Vec<Field>, handler: HandlerId) -> (r: Result<(), RouteError>)
        requires
            old(self).wf(),
        ensures
            final(self).wf(),
            r.is_err() == collides(old(self).nodes(), 0, fields_view(fields@)),
            r.is_err() ==> r == Err::<(), RouteError>(RouteError::Collision) && *final(self) == *old(self),
            fields@.len() == 0 ==> final(self).nodes() == old(self).nodes(),
            r.is_ok() && fields@.len() >= 1 ==> added(old(self).nodes(), final(self).nodes(), fields_view(fields@), handler),
            leaves_have_handlers(old(self).nodes()) ==> leaves_have_handlers(final(self).nodes()),
            r.is_ok() && fields@.len() >= 1 && all_literal(fields_view(fields@)) ==>
                final(self).resolve(names_of(fields_view(fields@))) == Some((handler, Seq::<(Seq<char>, Seq<char>)>::empty())),
            r.is_ok() && fields@.len() >= 1 && old(self).is_empty_spec() ==> forall|segs: Seq<Seq<char>>| fits(fields_view(fields@), segs)
                ==> #[trigger] final(self).resolve(segs) == Some((handler, param_bindings(fields_view(fields@), segs))),
    {
        let ghost fv = fields_view(fields@);
        let ghost total = fields@.len();
        let ghost names = names_of(fv);
        let mut rest = fields;
        let mut cur: usize = 0;
        let ghost mut i: int = 0;
        let ghost mut path: Seq<int> = seq![0int];
        assert(fv.subrange(0, total as int) =~= fv);
        while rest.len() > 0
            invariant
                self.wf(),
                *self == *old(self),
                cur < self.nodes().len(),
                0 <= i <= total,
                fields_view(rest@) == fv.subrange(i, total as int),
                fv.len() == total,
                fv == fields_view(fields@),
                names == names_of(fv),
                total == fields@.len(),
                collides(self.nodes(), 0, fv) == collides(self.nodes(), cur as int, fv.subrange(i, total as int)),
                total > 0 ==> i < total,
                old(self).is_empty_spec() ==> i == 0,
                descend(self.nodes(), 0, fv) == ({
                    let d = descend(self.nodes(), cur as int, fv.subrange(i, total as int));
                    (d.0, d.1 + i)
                }),
                path.len() == i + 1,
                path[0] == 0,
                path[i] == cur,
                forall|j: int| 0 <= j < path.len() ==> 0 <= #[trigger] path[j] < self.nodes().len(),
                forall|j: int| 0 <= j < i ==> named_pos(self.nodes(), self.nodes()[path[j]].named@, #[trigger] names[j]) == path[j + 1],
            decreases rest@.len(),
        {
            let ghost sub = fv.subrange(i, total as int);
            let ghost o = self.nodes();
            assert(sub[0] == rest@[0]@);
            assert(sub.drop_first() =~= fv.subrange(i + 1, total as int));
            assert(names[i] == fv[i].0);
            let is_last = rest.len() == 1;
            if rest[0].is_param {
                assert(fields_view(rest@)[0] == rest@[0]@);
                assert(sub[0].1);
                assert(fv[i].1);
                assert(!collides(self.nodes(), cur as int, sub));
                let field = rest.remove(0);
                proof {
                    assert(fields_view(rest@) =~= sub.drop_first());
                    assert(field@ == fv[i]);
                }
                let base_len = self.nodes.len();
                self.build_chain(cur, field, rest, handler);
                let new_len = self.nodes.len();
                proof {
                    if old(self).is_empty_spec() {
                        assert(i == 0);
                        assert(fv.subrange(0, total as int) =~= fv);
                        assert(seq![field@] + fields_view(rest@) =~= fv);
                        self.lemma_fresh_route(o, base_len as int, new_len as int, fv, handler);
                    }
                    assert(descend(o, cur as int, sub) == (cur as int, 0int));
                    assert(descend(o, 0, fv) == (cur as int, i));
                    assert(seq![field@] + fields_view(rest@) =~= fv.subrange(i, total as int));
                    assert(base_len as int == o.len());
                    assert(added(o, self.nodes(), fv, handler));
                    lemma_descend_range(o, 0, fv);
                    if leaves_have_handlers(o) {
                        lemma_added_leaves(o, self.nodes(), fv, handler);
                    }
                }
                return Ok(());
            }
            let found = self.named_child(cur, &rest[0].name);
            proof {
                assert(rest@[0].name@ == names[i]);
            }
            match found {
                Some(c) => {
                    assert(named_pos(o, o[cur as int].named@, names[i]) == c as int);
                    assert(!old(self).is_empty_spec());
                    if is_last {
                        if self.nodes[c].handler.is_some() {
                            return Err(RouteError::Collision);
                        }
                        self.set_handler(c, handler);
                        proof {
                            let n = self.nodes();
                            let p2 = path.push(c as int);
                            assert(i == total - 1);
                            assert forall|j: int| 0 <= j < names.len() implies named_pos(n, n[p2[j]].named@, #[trigger] names[j]) == p2[j + 1] by {
                                assert(p2[j] == path[j]);
                                assert(n[p2[j]].named == o[p2[j]].named);
                                lemma_named_pos_frame(o, n, o[p2[j]].named@, names[j]);
                                if j < i {
                                    assert(named_pos(o, o[path[j]].named@, names[j]) == path[j + 1]);
                                }
                            }
                            assert forall|j: int| 0 <= j < p2.len() implies 0 <= #[trigger] p2[j] < n.len() by {
                                if j < path.len() {
                                    assert(p2[j] == path[j]);
                                }
                            }
                            if all_literal(fv) && total >= 1 {
                                lemma_literal_path(n, p2, names, handler);
                            }
                            assert(descend(o, cur as int, sub) == (cur as int, 0int));
                            assert(descend(o, 0, fv) == (cur as int, i));
                            assert(added(o, n, fv, handler));
                            lemma_descend_range(o, 0, fv);
                            if leaves_have_handlers(o) {
                                lemma_added_leaves(o, n, fv, handler);
                            }
                        }
                        return Ok(());
                    }
                    let _ = rest.remove(0);
                    proof {
                        assert(fields_view(rest@) =~= sub.drop_first());
                        assert(sub.len() >= 2);
                        assert(!sub[0].1);
                        assert(descend(o, cur as int, sub) == ({
                            let d = descend(o, c as int, sub.drop_first());
                            (d.0, d.1 + 1)
                        }));
                        path = path.push(c as int);
                        i = i + 1;
                    }
                    cur = c;
                },
                None => {
                    assert(named_pos(o, o[cur as int].named@, names[i]) == -1);
                    let field = rest.remove(0);
                    proof {
                        assert(fields_view(rest@) =~= sub.drop_first());
                        assert(field@ == fv[i]);
                    }
                    let base_len = self.nodes.len();
                    self.build_chain(cur, field, rest, handler);
                    let new_len = self.nodes.len();
                    proof {
                        let n = self.nodes();
                        let base = o.len() as int;
                        assert(base_len as int == base);
                        assert(new_len as int == n.len());
                        let k = total - i;
                        let chain = seq![field@] + fields_view(rest@);
                        assert(chain =~= fv.subrange(i, total as int));
                        let p2 = path + Seq::new(k as nat, |t: int| base + t);
                        assert(p2.len() == total + 1);
                        if all_literal(fv) {
                            assert forall|j: int| 0 <= j < o.len() implies (#[trigger] n[j]).field@.0 == o[j].field@.0 by {
                                if j != cur as int {
                                    assert(n[j] == o[j]);
                                }
                            }
                            assert forall|j: int| 0 <= j < p2.len() implies 0 <= #[trigger] p2[j] < n.len() by {
                                if j < path.len() {
                                    assert(p2[j] == path[j]);
                                } else {
                                    assert(p2[j] == base + (j - path.len()));
                                }
                            }
                            assert forall|j: int| 0 <= j < names.len() implies named_pos(n, n[p2[j]].named@, #[trigger] names[j]) == p2[j + 1] by {
                                assert(names[j] == fv[j].0);
                                if j < i {
                                    assert(p2[j] == path[j] && p2[j + 1] == path[j + 1]);
                                    let l = o[path[j]].named@;
                                    assert(named_pos(o, l, names[j]) == path[j + 1]);
                                    assert forall|q: int| 0 <= q < l.len() implies (#[trigger] l[q] as int) < o.len() by {
                                        assert(o[path[j]].named@[q] == l[q]);
                                    }
                                    lemma_named_pos_frame(o, n, l, names[j]);
                                    lemma_named_pos_push(n, l, base as usize, names[j]);
                                    if path[j] != cur as int {
                                        assert(n[path[j]] == o[path[j]]);
                                    } else {
                                        assert(!field@.1);
                                        assert(n[cur as int].named@ == l.push(base as usize));
                                    }
                                    assert(named_pos(n, n[p2[j]].named@, names[j]) == p2[j + 1]);
                                } else if j == i {
                                    assert(p2[j] == cur as int);
                                    assert(p2[j + 1] == base);
                                    let l = o[cur as int].named@;
                                    assert forall|q: int| 0 <= q < l.len() implies (#[trigger] l[q] as int) < o.len() by {
                                        assert(o[cur as int].named@[q] == l[q]);
                                    }
                                    lemma_named_pos_frame(o, n, l, names[j]);
                                    lemma_named_pos_push(n, l, base as usize, names[j]);
                                    assert(n[base].field@ == chain[0]);
                                    assert(!field@.1);
                                    assert(n[cur as int].named@ == l.push(base as usize));
                                    assert(named_pos(n, l, names[j]) == -1);
                                    assert(named_pos(n, n[p2[j]].named@, names[j]) == p2[j + 1]);
                                } else {
                                    let t = j - i - 1;
                                    assert(p2[j] == base + t);
                                    assert(p2[j + 1] == base + t + 1);
                                    assert(!chain[t + 1].1);
                                    assert(n[base + t].named@ == seq![(base + t + 1) as usize]);
                                    assert(n[base + t + 1].field@ == chain[t + 1]);
                                    assert(chain[t + 1] == fv[j]);
                                    let l = n[base + t].named@;
                                    assert(l.drop_first() =~= Seq::<usize>::empty());
                                    assert(l[0] as int == base + t + 1);
                                    assert(named_pos(n, n[p2[j]].named@, names[j]) == p2[j + 1]);
                                }
                            }
                            assert(p2.last() == base + k - 1);
                            lemma_literal_path(n, p2, names, handler);
                        }
                        if old(self).is_empty_spec() {
                            assert(i == 0);
                            assert(fv.subrange(0, total as int) =~= fv);
                            assert(chain == fv);
                            self.lemma_fresh_route(o, base, new_len as int, fv, handler);
                        }
                        assert(descend(o, cur as int, sub) == (cur as int, 0int));
                        assert(descend(o, 0, fv) == (cur as int, i));
                        assert(added(o, n, fv, handler));
                        lemma_descend_range(o, 0, fv);
                        if leaves_have_handlers(o) {
                            lemma_added_leaves(o, n, fv, handler);
                        }
                    }
                    return Ok(());
                },
            }
        }
        Ok(())
    }

    /// Hangs a new branch below `parent`: a node for `first`, then one for each of `rest`,
    /// the last carrying `handler`.
    fn build_chain(&mut self, parent: usize, first: Field, rest: Vec<Field>, handler: HandlerId)
        requires
            old(self).wf(),
            parent < old(self).nodes().len(),
        ensures
            final(self).wf(),
            ({
                let o = old(self).nodes();
                let n = final(self).nodes();
                let base = o.len() as int;
                let fv = seq![first@] + fields_view(rest@);
                &&& n.len() == base + fv.len()
                &&& forall|j: int| 0 <= j < base && j != parent ==> #[trigger] n[j] == o[j]
                &&& n[parent as int].field == o[parent as int].field
                &&& n[parent as int].handler == o[parent as int].handler
                &&& !first@.1 ==> n[parent as int].named@ == o[parent as int].named@.push(base as usize)
                &&& !first@.1 ==> n[parent as int].params@ == o[parent as int].params@
                &&& first@.1 ==> n[parent as int].params@ == o[parent as int].params@.push(base as usize)
                &&& first@.1 ==> n[parent as int].named@ == o[parent as int].named@
                &&& chain_shape(n, base, fv, handler)
                &&& chain_exact(n, base, fv, handler)
                &&& forall|t: int| 0 <= t < fv.len() ==> (#[trigger] n[base + t]).field@ == fv[t]
                &&& forall|t: int| 0 <= t < fv.len() - 1 && !fv[t + 1].1 ==> (#[trigger] n[base + t]).named@ == seq![(base + t + 1) as usize]
                &&& n[base + fv.len() - 1].handler == Some(handler)
            }),
    {
        let ghost o = self.nodes();
        let ghost base = o.len() as int;
        let ghost fv = seq![first@] + fields_view(rest@);
        let mut rest = rest;
        let is_param = first.is_param;
        let h = if rest.len() == 0 { Some(handler) } else { None };
        let mut node = self.push_node(first, h);
        self.attach(parent, node, is_param);
        let ghost mut t: int = 0;
        assert(fields_view(rest@) =~= fv.subrange(1, fv.len() as int));
        while rest.len() > 0
            invariant
                self.wf(),
                parent < o.len(),
                node as int == base + t,
                0 <= t < fv.len(),
                fv.len() >= 1,
                base == o.len(),
                fields_view(rest@) == fv.subrange(t + 1, fv.len() as int),
                self.nodes().len() == base + t + 1,
                forall|j: int| 0 <= j < base && j != parent ==> #[trigger] self.nodes()[j] == o[j],
                self.nodes()[parent as int].field == o[parent as int].field,
                self.nodes()[parent as int].handler == o[parent as int].handler,
                !fv[0].1 ==> self.nodes()[parent as int].named@ == o[parent as int].named@.push(base as usize),
                !fv[0].1 ==> self.nodes()[parent as int].params@ == o[parent as int].params@,
                fv[0].1 ==> self.nodes()[parent as int].params@ == o[parent as int].params@.push(base as usize),
                fv[0].1 ==> self.nodes()[parent as int].named@ == o[parent as int].named@,
                forall|s: int| 0 <= s < t ==> #[trigger] only_child(self.nodes(), base + s, base + s + 1, fv[s + 1].1),
                forall|s: int| 0 <= s <= t ==> (#[trigger] self.nodes()[base + s]).field@ == fv[s],
                forall|s: int| 0 <= s < t && !fv[s + 1].1 ==> (#[trigger] self.nodes()[base + s]).named@ == seq![(base + s + 1) as usize],
                self.nodes()[base + t].named@.len() == 0,
                self.nodes()[base + t].params@.len() == 0,
                rest@.len() == 0 ==> self.nodes()[base + t].handler == Some(handler),
                rest@.len() > 0 ==> self.nodes()[base + t].handler.is_none(),
                forall|s: int| 0 <= s < t ==> (#[trigger] self.nodes()[base + s]).handler.is_none(),
            decreases rest@.len(),
        {
            let ghost pre = self.nodes();
            let ghost rv = rest@;
            assert(rv.len() > 0);
            assert(fields_view(rv).len() == rv.len());
            assert(fields_view(rv).len() == fv.len() - (t + 1));
            assert(t + 1 < fv.len());
            assert(fields_view(rv)[0] == rv[0]@);
            assert(fv.subrange(t + 1, fv.len() as int)[0] == fv[t + 1]);
            assert(fields_view(rv)[0] == fv[t + 1]);
            let field = rest.remove(0);
            assert(rest@ =~= rv.subrange(1, rv.len() as int));
            assert(fields_view(rest@) =~= fields_view(rv).subrange(1, rv.len() as int));
            assert(fields_view(rv).subrange(1, rv.len() as int) =~= fv.subrange(t + 2, fv.len() as int));
            let is_param = field.is_param;
            let h = if rest.len() == 0 { Some(handler) } else { None };
            let next = self.push_node(field, h);
            self.attach(node, next, is_param);
            proof {
                let n = self.nodes();
                if !is_param {
                    assert(n[base + t].named@ =~= seq![(base + t + 1) as usize]);
                }
                assert forall|s: int| 0 <= s <= t + 1 implies (#[trigger] n[base + s]).field@ == fv[s] by {
                    if s <= t {
                        assert(n[base + s].field == pre[base + s].field);
                    }
                }
                assert forall|s: int| 0 <= s < t + 1 && !fv[s + 1].1 implies (#[trigger] n[base + s]).named@ == seq![(base + s + 1) as usize] by {
                    if s < t {
                        assert(n[base + s] == pre[base + s]);
                    }
                }
                if is_param {
                    assert(n[base + t].params@ =~= seq![(base + t + 1) as usize]);
                }
                assert forall|s: int| 0 <= s < t + 1 implies (#[trigger] n[base + s]).handler.is_none() by {
                    if s < t {
                        assert(n[base + s] == pre[base + s]);
                    }
                }
                assert(only_child(n, base + t, base + t + 1, fv[t + 1].1));
                assert forall|s: int| 0 <= s < t + 1 implies #[trigger] only_child(n, base + s, base + s + 1, fv[s + 1].1) by {
                    if s < t {
                        assert(n[base + s] == pre[base + s]);
                        assert(only_child(pre, base + s, base + s + 1, fv[s + 1].1));
                    }
                }
                t = t + 1;
            }
            node = next;
        }
        assert(fv.len() == t + 1);
        assert(self.nodes()[base + fv.len() - 1].handler == Some(handler));
    }

    /// The literal child of `n` named `name`.
    fn named_child(&self, n: usize, name: &String) -> (r: Option<usize>)
        requires
            self.wf(),
            n < self.nodes().len(),
        ensures
            match r {
                Some(c) => named_pos(self.nodes(), self.nodes()[n as int].named@, name@) == c && c < self.nodes().len(),
                None => named_pos(self.nodes(), self.nodes()[n as int].named@, name@) == -1,
            },
    {
        let list = &self.nodes[n].named;
        let mut i: usize = 0;
        assert(list@.subrange(0, list@.len() as int) =~= list@);
        while i < list.len()
            invariant
                self.wf(),
                n < self.nodes().len(),
                list@ == self.nodes()[n as int].named@,
                i <= list@.len(),
                named_pos(self.nodes(), list@, name@) == named_pos(self.nodes(), list@.subrange(i as int, list@.len() as int), name@),
            decreases list@.len() - i,
        {
            let c = list[i];
            let ghost rest = list@.subrange(i as int, list@.len() as int);
            assert(rest.drop_first() =~= list@.subrange(i + 1, list@.len() as int));
            assert(rest[0] == list@[i as int]);
            assert((c as int) < self.nodes().len());
            if self.nodes[c].field.name.eq(name) {
                return Some(c);
            }
            i = i + 1;
        }
        None
    }

    /// Resolves `segs[pos..]` below node `n`. On success the bindings are pushed
    /// onto `params`; on failure `params` is left as it was.
    fn recursive_find(&self, n: usize, segs: &Vec<String>, pos: usize, params: &mut Vec<(String, String)>) -> (r: Option<HandlerId>)
        requires
            self.wf(),
            n < self.nodes().len(),
            pos <= segs@.len(),
        ensures
            match find(self.nodes(), n as int, segs_view(segs@).subrange(pos as int, segs@.len() as int)) {
                Some((h, b)) => r == Some(h) && pairs_view(final(params)@) == pairs_view(old(params)@) + b,
                None => r.is_none() && pairs_view(final(params)@) == pairs_view(old(params)@),
            },
        decreases segs@.len() - pos,
    {
        let ghost nodes = self.nodes();
        let ghost rest = segs_view(segs@).subrange(pos as int, segs@.len() as int);
        if pos >= segs.len() {
            return None;
        }
        let head = &segs[pos];
        assert(rest[0] == head@);
        assert(rest.drop_first() =~= segs_view(segs@).subrange(pos + 1, segs@.len() as int));
        let is_tail = pos + 1 >= segs.len();
        match self.named_child(n, head) {
            Some(c) => {
                if is_tail {
                    return self.nodes[c].handler;
                }
                return self.recursive_find(c, segs, pos + 1, params);
            },
            None => {},
        }
        let list = &self.nodes[n].params;
        let mut k: usize = 0;
        while k < list.len()
            invariant
                self.wf(),
                nodes == self.nodes(),
                n < nodes.len(),
                pos < segs@.len() <= usize::MAX,
                rest == segs_view(segs@).subrange(pos as int, segs@.len() as int),
                rest[0] == head@,
                rest.drop_first() == segs_view(segs@).subrange(pos + 1, segs@.len() as int),
                is_tail == (rest.len() == 1),
                list@ == nodes[n as int].params@,
                k <= list@.len(),
                named_pos(nodes, nodes[n as int].named@, rest[0]) == -1,
                find(nodes, n as int, rest) == find_params(nodes, n as int, rest, k as int),
                pairs_view(params@) == pairs_view(old(params)@),
            decreases list@.len() - k,
        {
            let p = list[k];
            assert(nodes[n as int].params@[k as int] == p);
            let node = &self.nodes[p];
            let ok = if node.field.name.as_str().is_empty() {
                false
            } else {
                match &node.field.validation {
                    Some(re) => re.is_match(head.as_str()),
                    None => true,
                }
            };
            assert(ok == accepts(nodes[p as int].field@, rest[0]));
            if ok {
                let ghost before = params@;
                params.push((node.field.name.clone(), head.clone()));
                proof {
                    assert(pairs_view(params@) =~= pairs_view(before).push((nodes[p as int].field@.0, rest[0])));
                }
                if is_tail {
                    let h = node.handler;
                    if h.is_some() {
                        return h;
                    }
                    let ghost pushed = params@;
                    params.pop();
                    proof {
                        assert(pairs_view(params@) =~= pairs_view(pushed).drop_last());
                        assert(pairs_view(params@) =~= pairs_view(before));
                    }
                    k = k + 1;
                    continue;
                }
                let ghost mid = params@;
                let found = self.recursive_find(p, segs, pos + 1, params);
                if found.is_some() {
                    proof {
                        let b = find(nodes, p as int, rest.drop_first()).unwrap().1;
                        assert(pairs_view(params@) =~= pairs_view(old(params)@) + (seq![(nodes[p as int].field@.0, rest[0])] + b));
                    }
                    return found;
                }
                let ghost failed = params@;
                params.pop();
                proof {
                    assert(pairs_view(params@) =~= pairs_view(failed).drop_last());
                    assert(pairs_view(params@) =~= pairs_view(before));
                }
            }
            k = k + 1;
        }
        None
    }

    /// Resolves `segs` from the root, pushing the bindings onto `params` on success.
    pub fn find(&self, segs: &Vec<String>, params: &mut Vec<(String, String)>) -> (r: Option<HandlerId>)
        requires
            self.wf(),
        ensures
            match self.resolve(segs_view(segs@)) {
                Some((h, b)) => r == Some(h) && pairs_view(final(params)@) == pairs_view(old(params)@) + b,
                None => r.is_none() && pairs_view(final(params)@) == pairs_view(old(params)@),
            },
    {
        assert(segs_view(segs@).subrange(0, segs@.len() as int) =~= segs_view(segs@));
        self.recursive_find(0, segs, 0, params)
    }
}

} // verus!
