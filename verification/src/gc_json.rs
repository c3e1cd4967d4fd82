//! A heap of shared, mutable JSON values.
//!
//! A JSON value that a script holds is a reference to a cell of the heap, a
//! `GCValue`. Arrays and objects hold references to other cells, so a cell
//! can be reached along several paths, and what is written to it is seen
//! along all of them; a container can even hold itself.

use fnv::FnvHasher;
use indexmap::IndexMap;
use std::hash::BuildHasherDefault;
use crate::errors::{Error, ErrorKind};
use vstd::prelude::*;
use vstd::string::StringExecFns;

verus! {

#[verifier::external_type_specification]
#[verifier::external_body]
#[verifier::reject_recursive_types(K)]
#[verifier::reject_recursive_types(V)]
#[verifier::reject_recursive_types(S)]
pub struct ExIndexMap<K, V, S>(IndexMap<K, V, S>);

#[verifier::external_type_specification]
#[verifier::external_body]
#[verifier::reject_recursive_types(H)]
pub struct ExBuildHasherDefault<H>(BuildHasherDefault<H>);

#[verifier::external_type_specification]
#[verifier::external_body]
pub struct ExFnvHasher(FnvHasher);

/// The insertion-ordered map of an object: member name to heap cell.
pub type ObjectMap = IndexMap<String, usize, BuildHasherDefault<FnvHasher>>;

/// The members of an object map, in their order: each member's name and the
/// heap cell it refers to.
pub uninterp spec fn object_entries(m: IndexMap<String, usize, BuildHasherDefault<FnvHasher>>) -> Seq<(Seq<char>, usize)>;

/// No two members of `entries` share a name.
pub open spec fn keys_unique(entries: Seq<(Seq<char>, usize)>) -> bool {
    forall|i: int, j: int|
        0 <= i < entries.len() && 0 <= j < entries.len() && i != j ==> #[trigger] entries[i].0
            != #[trigger] entries[j].0
}

/// Calls `IndexMap::default` of indexmap: an empty map.
#[verifier::external_body]
fn object_map_new() -> (m: ObjectMap)
    ensures
        object_entries(m) == Seq::<(Seq<char>, usize)>::empty(),
{
    IndexMap::default()
}

/// Calls `IndexMap::get` of indexmap with a `&str` key: the cell of the
/// member whose name equals `key`, if there is one. The map's names are
/// distinct, so there is at most one.
#[verifier::external_body]
fn object_map_get(m: &ObjectMap, key: &str) -> (r: Option<usize>)
    requires
        keys_unique(object_entries(*m)),
    ensures
        r == find_member(object_entries(*m), key@),
{
    m.get(key).copied()
}

/// Calls `IndexMap::insert` of indexmap. If a member named `key` exists, it
/// keeps its place and now refers to `value`, and the cell it referred to
/// is returned; otherwise the member is added last and `None` is returned.
/// Names stay distinct.
#[verifier::external_body]
fn object_map_insert(m: &mut ObjectMap, key: String, value: usize) -> (r: Option<usize>)
    requires
        keys_unique(object_entries(*old(m))),
    ensures
        r == find_member(object_entries(*old(m)), key@),
        object_entries(*final(m)) == insert_member(object_entries(*old(m)), key@, value),
{
    m.insert(key, value)
}

/// Calls `IndexMap::remove` of indexmap, which is its `swap_remove`: the
/// member named `key`, if any, is removed by moving the last member into
/// its place; the cell it referred to is returned.
#[verifier::external_body]
fn object_map_remove(m: &mut ObjectMap, key: &str) -> (r: Option<usize>)
    requires
        keys_unique(object_entries(*old(m))),
    ensures
        r == find_member(object_entries(*old(m)), key@),
        object_entries(*final(m)) == swap_remove_member(object_entries(*old(m)), key@),
{
    m.remove(key)
}

/// Calls `IndexMap::get_index` of indexmap: the member at position `index`
/// in the map's order, if there is one.
#[verifier::external_body]
fn object_map_get_index(m: &ObjectMap, index: usize) -> (r: Option<(&String, usize)>)
    ensures
        r.is_some() == (index < object_entries(*m).len()),
        r.is_some() ==> r.unwrap().0@ == object_entries(*m)[index as int].0,
        r.is_some() ==> r.unwrap().1 == object_entries(*m)[index as int].1,
{
    match m.get_index(index) {
        Some((k, v)) => Some((k, *v)),
        None => None,
    }
}

/// Calls `IndexMap::len` of indexmap: the number of members.
#[verifier::external_body]
fn object_map_len(m: &ObjectMap) -> (r: usize)
    ensures
        r == object_entries(*m).len(),
{
    m.len()
}

/// Calls `IndexMap::clear` of indexmap: no member is left.
#[verifier::external_body]
fn object_map_clear(m: &mut ObjectMap)
    ensures
        object_entries(*final(m)) == Seq::<(Seq<char>, usize)>::empty(),
{
    m.clear()
}

/// The position of the member named `key`, if there is one.
pub open spec fn member_index(entries: Seq<(Seq<char>, usize)>, key: Seq<char>) -> Option<int> {
    if exists|i: int| 0 <= i < entries.len() && entries[i].0 == key {
        Some(choose|i: int| 0 <= i < entries.len() && entries[i].0 == key)
    } else {
        None
    }
}

/// The cell that the member named `key` refers to, if there is one.
pub open spec fn find_member(entries: Seq<(Seq<char>, usize)>, key: Seq<char>) -> Option<usize> {
    match member_index(entries, key) {
        Some(i) => Some(entries[i].1),
        None => None,
    }
}

/// The members after `key` is set to `value`: an existing member keeps its
/// place, a new one comes last.
pub open spec fn insert_member(entries: Seq<(Seq<char>, usize)>, key: Seq<char>, value: usize) -> Seq<
    (Seq<char>, usize),
> {
    match member_index(entries, key) {
        Some(i) => entries.update(i, (key, value)),
        None => entries.push((key, value)),
    }
}

/// The members after the one named `key`, if any, is swap-removed: the last
/// member moves into its place.
pub open spec fn swap_remove_member(entries: Seq<(Seq<char>, usize)>, key: Seq<char>) -> Seq<
    (Seq<char>, usize),
> {
    match member_index(entries, key) {
        Some(i) => entries.update(i, entries.last()).drop_last(),
        None => entries,
    }
}

/// A JSON number, as serde_json keeps it: a non-negative integer, a
/// negative integer, or a finite float, given here by the bits of its
/// `f64`.
#[derive(Clone, Copy, Debug)]
pub enum Number {
    PosInt(u64),
    NegInt(i64),
    Float(u64),
}

/// Mask of all the bits of an `f64` but its sign.
pub open spec fn f64_magnitude_mask() -> u64 {
    0x7fff_ffff_ffff_ffff
}

/// Two numbers are equal when they are of the same kind and hold equal
/// values; two floats are equal when their bits are, or when both are zero
/// (`0.0 == -0.0`).
pub open spec fn number_eq(a: Number, b: Number) -> bool {
    match (a, b) {
        (Number::PosInt(x), Number::PosInt(y)) => x == y,
        (Number::NegInt(x), Number::NegInt(y)) => x == y,
        (Number::Float(x), Number::Float(y)) => x == y || (x & f64_magnitude_mask() == 0 && y
            & f64_magnitude_mask() == 0),
        _ => false,
    }
}

impl Number {
    /// The number made from an integer: `PosInt` when it is not negative,
    /// `NegInt` otherwise.
    pub open spec fn spec_from_isize(n: isize) -> Number {
        if n < 0 {
            Number::NegInt(n as i64)
        } else {
            Number::PosInt(n as u64)
        }
    }

    /// The number made from an integer, as serde_json makes it.
    pub fn from_isize(n: isize) -> (r: Number)
        ensures
            r == Number::spec_from_isize(n),
    {
        if n < 0 {
            Number::NegInt(n as i64)
        } else {
            Number::PosInt(n as u64)
        }
    }

    /// The number as an `i64`, when it is an integer that fits.
    pub open spec fn spec_as_i64(self) -> Option<i64> {
        match self {
            Number::PosInt(n) => if n <= i64::MAX {
                Some(n as i64)
            } else {
                None
            },
            Number::NegInt(n) => Some(n),
            Number::Float(_) => None,
        }
    }

    /// The number as an `i64`, when it is an integer that fits.
    pub fn as_i64(&self) -> (r: Option<i64>)
        ensures
            r == self.spec_as_i64(),
    {
        match self {
            Number::PosInt(n) => if *n <= (i64::MAX as u64) {
                Some(*n as i64)
            } else {
                None
            },
            Number::NegInt(n) => Some(*n),
            Number::Float(_) => None,
        }
    }

    /// The number as a `u64`, when it is a non-negative integer.
    pub fn as_u64(&self) -> (r: Option<u64>)
        ensures
            r == match *self {
                Number::PosInt(n) => Some(n),
                _ => None::<u64>,
            },
    {
        match self {
            Number::PosInt(n) => Some(*n),
            _ => None,
        }
    }

    /// Whether two numbers are equal, as serde_json compares them.
    pub fn equals(&self, other: &Number) -> (r: bool)
        ensures
            r == number_eq(*self, *other),
    {
        match (self, other) {
            (Number::PosInt(x), Number::PosInt(y)) => *x == *y,
            (Number::NegInt(x), Number::NegInt(y)) => *x == *y,
            (Number::Float(x), Number::Float(y)) => *x == *y || (*x & 0x7fff_ffff_ffff_ffffu64 == 0
                && *y & 0x7fff_ffff_ffff_ffffu64 == 0),
            _ => false,
        }
    }
}

/// A reference to a cell of a `JsonHeap`: a JSON value as a script holds
/// it. Copies of it refer to the same cell.
#[derive(Clone, Copy, Debug)]
pub struct GCValue {
    pub cell: usize,
}

/// What a heap cell holds. Arrays and objects refer to other cells.
#[derive(Debug)]
pub enum InnerValue {
    Null,
    Bool(bool),
    Number(Number),
    String(String),
    Array(Vec<GCValue>),
    Object(ObjectMap),
}

/// The cells that a sequence of references refers to.
pub open spec fn cells_of(items: Seq<GCValue>) -> Seq<usize> {
    items.map_values(|g: GCValue| g.cell)
}

/// The mathematical content of a heap cell.
pub enum JsonNode {
    Null,
    Bool(bool),
    Number(Number),
    String(Seq<char>),
    Array(Seq<usize>),
    Object(Seq<(Seq<char>, usize)>),
}

impl View for InnerValue {
    type V = JsonNode;

    open spec fn view(&self) -> JsonNode {
        match self {
            InnerValue::Null => JsonNode::Null,
            InnerValue::Bool(b) => JsonNode::Bool(*b),
            InnerValue::Number(n) => JsonNode::Number(*n),
            InnerValue::String(s) => JsonNode::String(s@),
            InnerValue::Array(a) => JsonNode::Array(cells_of(a@)),
            InnerValue::Object(m) => JsonNode::Object(object_entries(*m)),
        }
    }
}

/// Every cell that `node` refers to lies below `len`, and an object's
/// member names are distinct.
pub open spec fn node_wf(node: JsonNode, len: int) -> bool {
    match node {
        JsonNode::Array(items) => forall|i: int| #![trigger items[i]] 0 <= i < items.len() ==> items[i] < len,
        JsonNode::Object(entries) => {
            &&& keys_unique(entries)
            &&& forall|i: int| 0 <= i < entries.len() ==> #[trigger] entries[i].1 < len
        },
        _ => true,
    }
}

/// The type code of a JSON value as scripts see it: 1 null, 2 string,
/// 3 number, 4 object, 5 array, 6 bool.
pub open spec fn type_code(node: JsonNode) -> isize {
    match node {
        JsonNode::Null => 1,
        JsonNode::String(_) => 2,
        JsonNode::Number(_) => 3,
        JsonNode::Object(_) => 4,
        JsonNode::Array(_) => 5,
        JsonNode::Bool(_) => 6,
    }
}

/// What a cell holds, with the references of a container copied out, so
/// that the heap can be changed while they are walked.
enum Shape {
    Scalar(InnerValue),
    Array(Vec<usize>),
    Object(Vec<(String, usize)>),
}

/// The heap of JSON cells.
#[derive(Debug)]
pub struct JsonHeap {
    cells: Vec<InnerValue>,
}

impl View for JsonHeap {
    type V = Seq<JsonNode>;

    closed spec fn view(&self) -> Seq<JsonNode> {
        cells_view(self.cells@)
    }
}

/// The contents of a sequence of cells.
pub open spec fn cells_view(cells: Seq<InnerValue>) -> Seq<JsonNode> {
    cells.map_values(|v: InnerValue| v@)
}

/// Every cell of the heap refers only to cells of the heap, and objects
/// have distinct member names.
pub open spec fn heap_wf(h: Seq<JsonNode>) -> bool {
    forall|i: int| 0 <= i < h.len() ==> node_wf(#[trigger] h[i], h.len() as int)
}

/// How deep a comparison of two cells of a heap of `len` cells may nest:
/// one more than the number of pairs of cells, or `usize::MAX` when that
/// does not fit.
pub open spec fn comparison_fuel(len: nat) -> nat {
    if len * len + 1 <= usize::MAX {
        (len * len + 1) as nat
    } else {
        usize::MAX as nat
    }
}

/// The outcome of following member names from a cell.
pub enum Lookup {
    /// The cell that was reached.
    Found(usize),
    /// An object had no member of this name.
    Missing(Seq<char>),
    /// A value that is not an object was indexed with this name.
    NotObject(Seq<char>),
    /// The dotted name had an empty part.
    EmptySegment,
}

/// Indexing cell `n` with the member name `key`.
pub open spec fn step(h: Seq<JsonNode>, n: usize, key: Seq<char>) -> Lookup {
    match h[n as int] {
        JsonNode::Object(entries) => match find_member(entries, key) {
            Some(c) => Lookup::Found(c),
            None => Lookup::Missing(key),
        },
        _ => Lookup::NotObject(key),
    }
}

/// The parts of `s` between the dots, empty ones included, as `str::split`
/// gives them: `"a.b"` gives `"a"` and `"b"`, and `""` gives one empty part.
pub open spec fn split_dots(s: Seq<char>) -> Seq<Seq<char>>
    decreases s.len(),
{
    if s.len() == 0 {
        seq![Seq::<char>::empty()]
    } else {
        let parts = split_dots(s.drop_last());
        if s.last() == '.' {
            parts.push(Seq::<char>::empty())
        } else {
            parts.update(parts.len() - 1, parts.last().push(s.last()))
        }
    }
}

/// Following the parts `segs` in turn from cell `n`; the first failure
/// stops the walk. An empty part is a failure of its own.
pub open spec fn walk(h: Seq<JsonNode>, n: usize, segs: Seq<Seq<char>>) -> Lookup
    decreases segs.len(),
{
    if segs.len() == 0 {
        Lookup::Found(n)
    } else {
        match walk(h, n, segs.drop_last()) {
            Lookup::Found(m) => if segs.last().len() == 0 {
                Lookup::EmptySegment
            } else {
                step(h, m, segs.last())
            },
            other => other,
        }
    }
}

/// Following a name from cell `n`: part by part when `dot_notation` is set,
/// as one member name otherwise.
pub open spec fn lookup(h: Seq<JsonNode>, n: usize, name: Seq<char>, dot_notation: bool) -> Lookup {
    if dot_notation {
        walk(h, n, split_dots(name))
    } else {
        step(h, n, name)
    }
}

/// The message for a member name that an object does not have.
pub open spec fn missing_member_message(key: Seq<char>) -> Seq<char> {
    "Can't index json using `"@ + key + "`, because json doesn't contain it"@
}

/// The message for a member name used on a value that is not an object.
pub open spec fn not_object_message(key: Seq<char>) -> Seq<char> {
    "Can't index json using `"@ + key + "` json stops is not object."@
}

/// The message for a dotted name with an empty part.
pub open spec fn empty_separator_message(name: Seq<char>) -> Seq<char> {
    "Double/Empty separator in `"@ + name + "`"@
}

/// `r` failed with a plain message `msg` and no cause.
pub open spec fn fails_with_msg<T>(r: Result<T, Error>, msg: Seq<char>) -> bool {
    r matches Err(e) && e.causes@.len() == 0 && (e.kind matches ErrorKind::Msg(m) && m@ == msg)
}

/// `r` is the failure of a lookup of `name` that ended in `l`, which is
/// not `Found`.
pub open spec fn lookup_fails<T>(r: Result<T, Error>, l: Lookup, name: Seq<char>) -> bool {
    match l {
        Lookup::Found(_) => false,
        Lookup::Missing(k) => fails_with_msg(r, missing_member_message(k)),
        Lookup::NotObject(k) => fails_with_msg(r, not_object_message(k)),
        Lookup::EmptySegment => fails_with_msg(r, empty_separator_message(name)),
    }
}

/// `r` is what a lookup of `name` that ended in `l` returns.
pub open spec fn lookup_result(r: Result<GCValue, Error>, l: Lookup, name: Seq<char>) -> bool {
    match l {
        Lookup::Found(c) => r matches Ok(g) && g.cell == c,
        _ => lookup_fails(r, l, name),
    }
}

/// Where a successful lookup of `name` from cell `n` ends: the object that
/// holds the member reached last, and that member's name.
pub open spec fn member_slot(h: Seq<JsonNode>, n: usize, name: Seq<char>, dot_notation: bool) -> (
    usize,
    Seq<char>,
) {
    if dot_notation {
        let segs = split_dots(name);
        (walk(h, n, segs.drop_last())->Found_0, segs.last())
    } else {
        (n, name)
    }
}

/// A successful lookup ends at a member of an object: the slot that
/// `member_slot` names holds the cell that was found.
pub proof fn lemma_member_slot(h: Seq<JsonNode>, n: usize, name: Seq<char>, dot_notation: bool)
    requires
        lookup(h, n, name, dot_notation) is Found,
    ensures
        ({
            let (p, k) = member_slot(h, n, name, dot_notation);
            &&& h[p as int] is Object
            &&& find_member(h[p as int]->Object_0, k) == Some(
                lookup(h, n, name, dot_notation)->Found_0,
            )
        }),
{
    if dot_notation {
        lemma_split_dots_len(name);
    }
}

fn msg_error(m: String) -> (e: Error)
    ensures
        e.causes@.len() == 0,
        e.kind matches ErrorKind::Msg(t) && t@ == m@,
{
    Error::from_kind(ErrorKind::Msg(m))
}

impl JsonHeap {
    /// Well-formedness: see `heap_wf`.
    pub open spec fn wf(&self) -> bool {
        heap_wf(self@)
    }

    /// An empty heap.
    pub fn new() -> (h: JsonHeap)
        ensures
            h.wf(),
            h@ == Seq::<JsonNode>::empty(),
    {
        let h = JsonHeap { cells: Vec::new() };
        assert(h@ =~= Seq::<JsonNode>::empty());
        h
    }

    /// What cell `g` holds.
    pub fn get(&self, g: GCValue) -> (r: &InnerValue)
        requires
            g.cell < self@.len(),
        ensures
            r@ == self@[g.cell as int],
    {
        &self.cells[g.cell]
    }

    /// Adds a cell holding `v` and returns the reference to it. No other
    /// cell changes.
    pub fn allocate(&mut self, v: InnerValue) -> (g: GCValue)
        requires
            old(self).wf(),
            node_wf(v@, old(self)@.len() as int),
        ensures
            final(self).wf(),
            final(self)@ == old(self)@.push(v@),
            g.cell == old(self)@.len(),
    {
        let ghost old_view = self@;
        let g = GCValue { cell: self.cells.len() };
        self.cells.push(v);
        proof {
            assert(self@ =~= old_view.push(v@));
            assert forall|i: int| 0 <= i < self@.len() implies node_wf(
                #[trigger] self@[i],
                self@.len() as int,
            ) by {
                if i < old_view.len() {
                    assert(node_wf(old_view[i], old_view.len() as int));
                }
            }
        }
        g
    }

    /// Adds the cells of the tree `t`, a new cell for each of its values, and
    /// returns the reference to the cell of its root. No cell that was there
    /// before changes.
    pub fn insert_tree(&mut self, t: &JsonTree) -> (g: GCValue)
        requires
            old(self).wf(),
        ensures
            final(self).wf(),
            old(self)@.len() <= g.cell < final(self)@.len(),
            final(self)@.take(old(self)@.len() as int) == old(self)@,
            tree_wf(t.tree_view()) ==> holds_tree(
                final(self)@,
                g.cell,
                t.tree_view(),
                old(self)@.len() as int,
            ),
        decreases t,
    {
        let ghost h0 = self@;
        let ghost lo = h0.len() as int;
        match t {
            JsonTree::Null => self.allocate(InnerValue::Null),
            JsonTree::Bool(b) => self.allocate(InnerValue::Bool(*b)),
            JsonTree::Number(n) => self.allocate(InnerValue::Number(*n)),
            JsonTree::String(s) => self.allocate(InnerValue::String(s.clone())),
            JsonTree::Array(items) => {
                let ghost tv = t.tree_view();
                let mut cells: Vec<GCValue> = Vec::new();
                let n = items.len();
                let mut i: usize = 0;
                while i < n
                    invariant
                        self.wf(),
                        n == items@.len(),
                        *t is Array,
                        t->Array_0 == *items,
                        0 <= i <= n,
                        lo == h0.len(),
                        lo <= self@.len(),
                        self@.take(lo) == h0,
                        cells@.len() == i,
                        tv == t.tree_view(),
                        tv matches TreeView::Array(ts) && ts.len() == n && forall|j: int|
                            0 <= j < n ==> ts[j] == (#[trigger] items@[j]).tree_view(),
                        forall|j: int| 0 <= j < i ==> lo <= (#[trigger] cells@[j]).cell < self@.len(),
                        tree_wf(tv) ==> forall|j: int|
                            0 <= j < i ==> holds_tree(
                                self@,
                                (#[trigger] cells@[j]).cell,
                                items@[j].tree_view(),
                                lo,
                            ),
                    decreases n - i,
                {
                    proof {
                        assert(*items == t->Array_0);
                        assert(decreases_to!(*t => t->Array_0));
                        assert(decreases_to!(*items => items@));
                        assert(decreases_to!(items@ => items@[i as int]));
                    }
                    let ghost hb = self@;
                    let c = self.insert_tree(&items[i]);
                    proof {
                        lemma_prefix_trans(h0, hb, self@);
                        if tree_wf(tv) {
                            let ts = tv->Array_0;
                            assert(tree_wf(ts[i as int]));
                            lemma_holds_tree_lower(self@, c.cell, items@[i as int].tree_view(), hb.len() as int, lo);
                            assert forall|j: int| 0 <= j < i implies holds_tree(
                                self@,
                                (#[trigger] cells@[j]).cell,
                                items@[j].tree_view(),
                                lo,
                            ) by {
                                lemma_holds_tree_extend(hb, self@, cells@[j].cell, items@[j].tree_view(), lo);
                            }
                        }
                    }
                    cells.push(c);
                    i = i + 1;
                }
                let ghost hc = self@;
                let g = self.allocate(InnerValue::Array(cells));
                proof {
                    lemma_prefix_push(hc, JsonNode::Array(cells_of(cells@)));
                    lemma_prefix_trans(h0, hc, self@);
                    let ts = tv->Array_0;
                    if tree_wf(tv) {
                        assert forall|j: int| 0 <= j < n implies holds_tree(
                            self@,
                            cells@[j].cell,
                            #[trigger] ts[j],
                            lo,
                        ) by {
                            assert(ts[j] == items@[j].tree_view());
                            lemma_holds_tree_extend(hc, self@, cells@[j].cell, items@[j].tree_view(), lo);
                        }
                        assert(self@[g.cell as int] == JsonNode::Array(cells_of(cells@)));
                    }
                }
                g
            },
            JsonTree::Object(members) => {
                let ghost tv = t.tree_view();
                let mut m = object_map_new();
                let n = members.len();
                let mut i: usize = 0;
                while i < n
                    invariant
                        self.wf(),
                        n == members@.len(),
                        *t is Object,
                        t->Object_0 == *members,
                        0 <= i <= n,
                        lo == h0.len(),
                        lo <= self@.len(),
                        self@.take(lo) == h0,
                        keys_unique(object_entries(m)),
                        tv == t.tree_view(),
                        tv matches TreeView::Object(ms) && ms.len() == n && forall|j: int|
                            0 <= j < n ==> ms[j] == (#[trigger] members@[j].0@, members@[j].1.tree_view()),
                        forall|j: int| 0 <= j < object_entries(m).len() ==> lo <= (#[trigger] object_entries(m)[j]).1 < self@.len(),
                        object_entries(m).len() <= i,
                        tree_wf(tv) ==> object_entries(m).len() == i,
                        tree_wf(tv) ==> forall|j: int|
                            0 <= j < i ==> (#[trigger] object_entries(m)[j]).0 == members@[j].0@ && holds_tree(
                                self@,
                                object_entries(m)[j].1,
                                members@[j].1.tree_view(),
                                lo,
                            ),
                    decreases n - i,
                {
                    proof {
                        assert(*members == t->Object_0);
                        assert(decreases_to!(*t => t->Object_0));
                        assert(decreases_to!(*members => members@));
                        assert(decreases_to!(members@ => members@[i as int]));
                        assert(decreases_to!(members@[i as int] => members@[i as int].1));
                    }
                    let ghost hb = self@;
                    let ghost eb = object_entries(m);
                    let c = self.insert_tree(&members[i].1);
                    let key = members[i].0.clone();
                    let ghost k = key@;
                    let _ = object_map_insert(&mut m, key, c.cell);
                    proof {
                        lemma_prefix_trans(h0, hb, self@);
                        let es = object_entries(m);
                        if tree_wf(tv) {
                            let ms = tv->Object_0;
                            assert(tree_wf(ms[i as int].1));
                            lemma_holds_tree_lower(self@, c.cell, members@[i as int].1.tree_view(), hb.len() as int, lo);
                            assert(member_index(eb, k) is None) by {
                                if exists|q: int| 0 <= q < eb.len() && eb[q].0 == k {
                                    let q = choose|q: int| 0 <= q < eb.len() && eb[q].0 == k;
                                    assert(eb[q].0 == members@[q].0@);
                                    assert(ms[q].0 == ms[i as int].0);
                                }
                            }
                            assert(es == eb.push((k, c.cell)));
                            assert forall|j: int| 0 <= j < i + 1 implies (#[trigger] es[j]).0 == members@[j].0@ && holds_tree(
                                self@,
                                es[j].1,
                                members@[j].1.tree_view(),
                                lo,
                            ) by {
                                if j < i {
                                    assert(es[j] == eb[j]);
                                    lemma_holds_tree_extend(hb, self@, eb[j].1, members@[j].1.tree_view(), lo);
                                }
                            }
                        }
                        assert forall|j: int| 0 <= j < es.len() implies lo <= (#[trigger] es[j]).1 < self@.len() by {
                            match member_index(eb, k) {
                                Some(q) => {
                                    if j != q {
                                        assert(es[j] == eb[j]);
                                    }
                                },
                                None => {
                                    if j < eb.len() {
                                        assert(es[j] == eb[j]);
                                    }
                                },
                            }
                        }
                    }
                    i = i + 1;
                }
                let ghost hc = self@;
                proof {
                    let es = object_entries(m);
                    assert forall|j: int| 0 <= j < es.len() implies #[trigger] es[j].1 < hc.len() by {
                        assert(lo <= es[j].1);
                    }
                }
                let g = self.allocate(InnerValue::Object(m));
                proof {
                    lemma_prefix_push(hc, JsonNode::Object(object_entries(m)));
                    lemma_prefix_trans(h0, hc, self@);
                    let ms = tv->Object_0;
                    let es = object_entries(m);
                    if tree_wf(tv) {
                        assert forall|j: int| 0 <= j < n implies es[j].0 == (#[trigger] ms[j]).0 && holds_tree(
                            self@,
                            es[j].1,
                            ms[j].1,
                            lo,
                        ) by {
                            lemma_holds_tree_extend(hc, self@, es[j].1, members@[j].1.tree_view(), lo);
                        }
                    }
                }
                g
            },
        }
    }

    /// What cell `n` holds, with the references of a container copied out.
    fn shape_of(&self, n: usize) -> (r: Shape)
        requires
            self.wf(),
            n < self@.len(),
        ensures
            match r {
                Shape::Scalar(v) => v@ == self@[n as int] && !(v@ is Array) && !(v@ is Object),
                Shape::Array(cells) => self@[n as int] == JsonNode::Array(cells@),
                Shape::Object(members) => self@[n as int] is Object && members@.len()
                    == self@[n as int]->Object_0.len() && forall|i: int|
                    0 <= i < members@.len() ==> (#[trigger] members@[i]).0@
                        == self@[n as int]->Object_0[i].0 && members@[i].1
                        == self@[n as int]->Object_0[i].1,
            },
    {
        match &self.cells[n] {
            InnerValue::Null => Shape::Scalar(InnerValue::Null),
            InnerValue::Bool(b) => Shape::Scalar(InnerValue::Bool(*b)),
            InnerValue::Number(x) => Shape::Scalar(InnerValue::Number(*x)),
            InnerValue::String(s) => Shape::Scalar(InnerValue::String(s.clone())),
            InnerValue::Array(items) => {
                let mut cells: Vec<usize> = Vec::new();
                let k = items.len();
                let mut i: usize = 0;
                while i < k
                    invariant
                        k == items@.len(),
                        0 <= i <= k,
                        cells@ == cells_of(items@).take(i as int),
                    decreases k - i,
                {
                    cells.push(items[i].cell);
                    assert(cells_of(items@).take(i + 1) =~= cells_of(items@).take(i as int).push(
                        items@[i as int].cell,
                    ));
                    i = i + 1;
                }
                assert(cells_of(items@).take(k as int) =~= cells_of(items@));
                Shape::Array(cells)
            },
            InnerValue::Object(m) => {
                let ghost es = object_entries(*m);
                let mut members: Vec<(String, usize)> = Vec::new();
                let k = object_map_len(m);
                let mut i: usize = 0;
                while i < k
                    invariant
                        k == es.len(),
                        es == object_entries(*m),
                        0 <= i <= k,
                        members@.len() == i,
                        forall|j: int|
                            0 <= j < i ==> (#[trigger] members@[j]).0@ == es[j].0 && members@[j].1
                                == es[j].1,
                    decreases k - i,
                {
                    let (key, c) = object_map_get_index(m, i).unwrap();
                    members.push((key.clone(), c));
                    i = i + 1;
                }
                Shape::Object(members)
            },
        }
    }

    /// Copies the value of cell `n` into new cells, down to
    /// `recursion_limit` levels: a container at the last level is copied
    /// empty. Returns the reference to the copy. No cell that was there
    /// before changes, and the copy shares none of them.
    pub fn deep_clone(&mut self, n: usize, recursion_limit: usize) -> (g: GCValue)
        requires
            old(self).wf(),
            n < old(self)@.len(),
            limit_ok(old(self)@[n as int], recursion_limit as nat),
        ensures
            final(self).wf(),
            old(self)@.len() <= g.cell < final(self)@.len(),
            final(self)@.take(old(self)@.len() as int) == old(self)@,
            holds_tree(
                final(self)@,
                g.cell,
                unfold(old(self)@, n, recursion_limit as nat),
                old(self)@.len() as int,
            ),
        decreases recursion_limit,
    {
        let ghost h0 = self@;
        let ghost lo = h0.len() as int;
        let ghost target = unfold(h0, n, recursion_limit as nat);
        proof {
            assert(node_wf(h0[n as int], lo));
        }
        match self.shape_of(n) {
            Shape::Scalar(v) => self.allocate(v),
            Shape::Array(cs) => {
                assert(h0[n as int]->Array_0 == cs@);
                let mut cells: Vec<GCValue> = Vec::new();
                let k = cs.len();
                let mut i: usize = 0;
                while i < k
                    invariant
                        self.wf(),
                        heap_wf(h0),
                        n < h0.len(),
                        h0[n as int] == JsonNode::Array(cs@),
                        k == cs@.len(),
                        forall|j: int| 0 <= j < k ==> #[trigger] cs@[j] < lo,
                        k > 0 ==> recursion_limit >= 1,
                        0 <= i <= k,
                        lo == h0.len(),
                        lo <= self@.len(),
                        self@.take(lo) == h0,
                        recursion_limit >= 2 ==> cells@.len() == i,
                        recursion_limit < 2 ==> cells@.len() == 0,
                        forall|j: int| 0 <= j < cells@.len() ==> lo <= (#[trigger] cells@[j]).cell < self@.len(),
                        forall|j: int|
                            0 <= j < cells@.len() ==> holds_tree(
                                self@,
                                (#[trigger] cells@[j]).cell,
                                unfold(h0, cs@[j], (recursion_limit - 1) as nat),
                                lo,
                            ),
                    decreases k - i,
                {
                    if recursion_limit - 1 != 0 {
                        let ghost hb = self@;
                        proof {
                            assert(hb[cs@[i as int] as int] == hb.take(lo)[cs@[i as int] as int]);
                        }
                        let c = self.deep_clone(cs[i], recursion_limit - 1);
                        proof {
                            lemma_prefix_trans(h0, hb, self@);
                            lemma_unfold_extend(h0, hb, cs@[i as int], (recursion_limit - 1) as nat);
                            lemma_holds_tree_lower(
                                self@,
                                c.cell,
                                unfold(hb, cs@[i as int], (recursion_limit - 1) as nat),
                                hb.len() as int,
                                lo,
                            );
                            assert forall|j: int| 0 <= j < cells@.len() implies holds_tree(
                                self@,
                                (#[trigger] cells@[j]).cell,
                                unfold(h0, cs@[j], (recursion_limit - 1) as nat),
                                lo,
                            ) by {
                                lemma_holds_tree_extend(
                                    hb,
                                    self@,
                                    cells@[j].cell,
                                    unfold(h0, cs@[j], (recursion_limit - 1) as nat),
                                    lo,
                                );
                            }
                        }
                        cells.push(c);
                    }
                    i = i + 1;
                }
                let ghost hc = self@;
                let g = self.allocate(InnerValue::Array(cells));
                proof {
                    lemma_prefix_push(hc, JsonNode::Array(cells_of(cells@)));
                    lemma_prefix_trans(h0, hc, self@);
                    assert(self@[g.cell as int] == JsonNode::Array(cells_of(cells@)));
                    let items = target->Array_0;
                    assert forall|j: int| 0 <= j < cells@.len() implies holds_tree(
                        self@,
                        cells_of(cells@)[j],
                        #[trigger] items[j],
                        lo,
                    ) by {
                        lemma_holds_tree_extend(
                            hc,
                            self@,
                            cells@[j].cell,
                            unfold(h0, cs@[j], (recursion_limit - 1) as nat),
                            lo,
                        );
                    }
                    assert(cells_of(cells@).len() == items.len());
                }
                g
            },
            Shape::Object(ms) => {
                let ghost es = h0[n as int]->Object_0;
                let mut m = object_map_new();
                let k = ms.len();
                let mut i: usize = 0;
                while i < k
                    invariant
                        self.wf(),
                        heap_wf(h0),
                        n < h0.len(),
                        h0[n as int] == JsonNode::Object(es),
                        keys_unique(es),
                        k == ms@.len(),
                        k == es.len(),
                        forall|j: int| 0 <= j < k ==> (#[trigger] ms@[j]).0@ == es[j].0 && ms@[j].1 == es[j].1,
                        forall|j: int| 0 <= j < k ==> #[trigger] es[j].1 < lo,
                        k > 0 ==> recursion_limit >= 1,
                        0 <= i <= k,
                        lo == h0.len(),
                        lo <= self@.len(),
                        self@.take(lo) == h0,
                        keys_unique(object_entries(m)),
                        recursion_limit >= 2 ==> object_entries(m).len() == i,
                        recursion_limit < 2 ==> object_entries(m).len() == 0,
                        forall|j: int| 0 <= j < object_entries(m).len() ==> lo <= (#[trigger] object_entries(m)[j]).1 < self@.len(),
                        forall|j: int|
                            0 <= j < object_entries(m).len() ==> (#[trigger] object_entries(m)[j]).0 == es[j].0 && holds_tree(
                                self@,
                                object_entries(m)[j].1,
                                unfold(h0, es[j].1, (recursion_limit - 1) as nat),
                                lo,
                            ),
                    decreases k - i,
                {
                    if recursion_limit - 1 != 0 {
                        let ghost hb = self@;
                        let ghost eb = object_entries(m);
                        proof {
                            assert(hb[es[i as int].1 as int] == hb.take(lo)[es[i as int].1 as int]);
                        }
                        let c = self.deep_clone(ms[i].1, recursion_limit - 1);
                        let key = ms[i].0.clone();
                        let ghost kv = key@;
                        let _ = object_map_insert(&mut m, key, c.cell);
                        proof {
                            lemma_prefix_trans(h0, hb, self@);
                            lemma_unfold_extend(h0, hb, es[i as int].1, (recursion_limit - 1) as nat);
                            lemma_holds_tree_lower(
                                self@,
                                c.cell,
                                unfold(hb, es[i as int].1, (recursion_limit - 1) as nat),
                                hb.len() as int,
                                lo,
                            );
                            assert(member_index(eb, kv) is None) by {
                                if exists|q: int| 0 <= q < eb.len() && eb[q].0 == kv {
                                    let q = choose|q: int| 0 <= q < eb.len() && eb[q].0 == kv;
                                    assert(eb[q].0 == es[q].0);
                                    assert(es[q].0 == es[i as int].0);
                                }
                            }
                            let e2 = object_entries(m);
                            assert(e2 == eb.push((kv, c.cell)));
                            assert forall|j: int| 0 <= j < e2.len() implies (#[trigger] e2[j]).0 == es[j].0 && holds_tree(
                                self@,
                                e2[j].1,
                                unfold(h0, es[j].1, (recursion_limit - 1) as nat),
                                lo,
                            ) by {
                                if j < eb.len() {
                                    assert(e2[j] == eb[j]);
                                    lemma_holds_tree_extend(
                                        hb,
                                        self@,
                                        eb[j].1,
                                        unfold(h0, es[j].1, (recursion_limit - 1) as nat),
                                        lo,
                                    );
                                }
                            }
                            assert forall|j: int| 0 <= j < e2.len() implies lo <= (#[trigger] e2[j]).1 < self@.len() by {
                                if j < eb.len() {
                                    assert(e2[j] == eb[j]);
                                }
                            }
                        }
                    }
                    i = i + 1;
                }
                let ghost hc = self@;
                proof {
                    let e2 = object_entries(m);
                    assert forall|j: int| 0 <= j < e2.len() implies #[trigger] e2[j].1 < hc.len() by {
                        assert(lo <= e2[j].1);
                    }
                }
                let g = self.allocate(InnerValue::Object(m));
                proof {
                    lemma_prefix_push(hc, JsonNode::Object(object_entries(m)));
                    lemma_prefix_trans(h0, hc, self@);
                    let members = target->Object_0;
                    let e2 = object_entries(m);
                    assert forall|j: int| 0 <= j < e2.len() implies e2[j].0 == (#[trigger] members[j]).0 && holds_tree(
                        self@,
                        e2[j].1,
                        members[j].1,
                        lo,
                    ) by {
                        lemma_holds_tree_extend(
                            hc,
                            self@,
                            e2[j].1,
                            unfold(h0, es[j].1, (recursion_limit - 1) as nat),
                            lo,
                        );
                    }
                    assert(e2.len() == members.len());
                }
                g
            },
        }
    }

    /// Compares cells `a` and `b` with at most `fuel` levels of nesting; see
    /// `eq_outcome`.
    fn eq_cells(&self, a: usize, b: usize, fuel: usize) -> (r: Option<bool>)
        requires
            self.wf(),
            a < self@.len(),
            b < self@.len(),
        ensures
            r == eq_outcome(self@, a, b, fuel as nat),
        decreases fuel,
    {
        if fuel == 0 {
            return None;
        }
        proof {
            assert(node_wf(self@[a as int], self@.len() as int));
            assert(node_wf(self@[b as int], self@.len() as int));
        }
        match (&self.cells[a], &self.cells[b]) {
            (InnerValue::Null, InnerValue::Null) => Some(true),
            (InnerValue::Bool(x), InnerValue::Bool(y)) => Some(*x == *y),
            (InnerValue::Number(x), InnerValue::Number(y)) => Some(x.equals(y)),
            (InnerValue::String(x), InnerValue::String(y)) => {
                Some(*x == *y)
            },
            (InnerValue::Array(xs), InnerValue::Array(ys)) => {
                let ghost cx = cells_of(xs@);
                let ghost cy = cells_of(ys@);
                assert(self@[a as int]->Array_0 == cx);
                assert(self@[b as int]->Array_0 == cy);
                if xs.len() != ys.len() {
                    return Some(false);
                }
                let k = xs.len();
                let mut i: usize = 0;
                while i < k
                    invariant
                        self.wf(),
                        fuel >= 1,
                        k == xs@.len(),
                        k == ys@.len(),
                        cx == cells_of(xs@),
                        cy == cells_of(ys@),
                        a < self@.len(),
                        b < self@.len(),
                        self@[a as int] == JsonNode::Array(cx),
                        self@[b as int] == JsonNode::Array(cy),
                        forall|j: int| 0 <= j < k ==> #[trigger] cx[j] < self@.len(),
                        forall|j: int| 0 <= j < k ==> #[trigger] cy[j] < self@.len(),
                        0 <= i <= k,
                        items_eq(self@, cx, cy, 0, (fuel - 1) as nat) == items_eq(
                            self@,
                            cx,
                            cy,
                            i as nat,
                            (fuel - 1) as nat,
                        ),
                    decreases k - i,
                {
                    proof {
                        assert(cx[i as int] == xs@[i as int].cell);
                        assert(cy[i as int] == ys@[i as int].cell);
                    }
                    match self.eq_cells(xs[i].cell, ys[i].cell, fuel - 1) {
                        Some(true) => {},
                        other => {
                            return other;
                        },
                    }
                    i = i + 1;
                }
                Some(true)
            },
            (InnerValue::Object(xs), InnerValue::Object(ys)) => {
                let ghost ex = object_entries(*xs);
                let ghost ey = object_entries(*ys);
                assert(self@[a as int]->Object_0 == ex);
                assert(self@[b as int]->Object_0 == ey);
                let k = object_map_len(xs);
                if k != object_map_len(ys) {
                    return Some(false);
                }
                let mut i: usize = 0;
                while i < k
                    invariant
                        self.wf(),
                        fuel >= 1,
                        k == ex.len(),
                        k == ey.len(),
                        ex == object_entries(*xs),
                        ey == object_entries(*ys),
                        keys_unique(ey),
                        a < self@.len(),
                        b < self@.len(),
                        self@[a as int] == JsonNode::Object(ex),
                        self@[b as int] == JsonNode::Object(ey),
                        forall|j: int| 0 <= j < k ==> #[trigger] ex[j].1 < self@.len(),
                        forall|j: int| 0 <= j < k ==> #[trigger] ey[j].1 < self@.len(),
                        0 <= i <= k,
                        members_eq(self@, ex, ey, 0, (fuel - 1) as nat) == members_eq(
                            self@,
                            ex,
                            ey,
                            i as nat,
                            (fuel - 1) as nat,
                        ),
                    decreases k - i,
                {
                    let (key, x) = object_map_get_index(xs, i).unwrap();
                    match object_map_get(ys, key.as_str()) {
                        None => {
                            return Some(false);
                        },
                        Some(y) => {
                            proof {
                                let q = member_index(ey, key@)->0;
                                assert(ey[q].1 < self@.len());
                            }
                            match self.eq_cells(x, y, fuel - 1) {
                                Some(true) => {},
                                other => {
                                    return other;
                                },
                            }
                        },
                    }
                    i = i + 1;
                }
                Some(true)
            },
            _ => Some(false),
        }
    }

    /// How deep a comparison of two cells of this heap may nest: one more
    /// than the number of pairs of cells, or `usize::MAX` when that does not
    /// fit.
    pub open spec fn comparison_fuel(&self) -> nat {
        comparison_fuel(self@.len())
    }

    /// Whether cells `a` and `b` hold equal values, compared as `eq_outcome`
    /// says. `None` when the comparison nests deeper than
    /// `comparison_fuel()` levels; a comparison that deep meets some pair of
    /// cells again inside its own comparison, so a recursive comparison of
    /// the two would never end.
    pub fn equals(&self, a: GCValue, b: GCValue) -> (r: Option<bool>)
        requires
            self.wf(),
            a.cell < self@.len(),
            b.cell < self@.len(),
        ensures
            r == eq_outcome(self@, a.cell, b.cell, self.comparison_fuel()),
    {
        let n = self.cells.len();
        let fuel: usize = match n.checked_mul(n) {
            Some(sq) => if sq < usize::MAX {
                sq + 1
            } else {
                usize::MAX
            },
            None => usize::MAX,
        };
        proof {
            if n * n + 1 <= usize::MAX {
                assert(fuel == n * n + 1);
            } else {
                assert(fuel == usize::MAX);
            }
        }
        self.eq_cells(a.cell, b.cell, fuel)
    }

    /// Takes what cell `n` holds out of it, leaving `Null` in its place.
    fn take_cell(&mut self, n: usize) -> (v: InnerValue)
        requires
            old(self).wf(),
            n < old(self)@.len(),
        ensures
            final(self).wf(),
            v@ == old(self)@[n as int],
            final(self)@ == old(self)@.update(n as int, JsonNode::Null),
    {
        let ghost h = self@;
        let mut v = InnerValue::Null;
        std::mem::swap(&mut self.cells[n], &mut v);
        proof {
            assert(self@ =~= h.update(n as int, JsonNode::Null));
            assert forall|i: int| 0 <= i < self@.len() implies node_wf(
                #[trigger] self@[i],
                self@.len() as int,
            ) by {
                if i != n {
                    assert(node_wf(h[i], h.len() as int));
                }
            }
        }
        v
    }

    /// Makes cell `n` hold `v`.
    fn set_cell(&mut self, n: usize, v: InnerValue)
        requires
            old(self).wf(),
            n < old(self)@.len(),
            node_wf(v@, old(self)@.len() as int),
        ensures
            final(self).wf(),
            final(self)@ == old(self)@.update(n as int, v@),
    {
        let ghost h = self@;
        let ghost vv = v@;
        self.cells.set(n, v);
        proof {
            assert(self@ =~= h.update(n as int, vv));
            assert forall|i: int| 0 <= i < self@.len() implies node_wf(
                #[trigger] self@[i],
                self@.len() as int,
            ) by {
                if i != n {
                    assert(node_wf(h[i], h.len() as int));
                }
            }
        }
    }

    /// Appends a reference to cell `c` to the array in cell `a`.
    pub fn array_push(&mut self, a: usize, c: GCValue)
        requires
            old(self).wf(),
            a < old(self)@.len(),
            c.cell < old(self)@.len(),
            old(self)@[a as int] is Array,
        ensures
            final(self).wf(),
            final(self)@ == old(self)@.update(
                a as int,
                JsonNode::Array(old(self)@[a as int]->Array_0.push(c.cell)),
            ),
    {
        let ghost h = self@;
        proof {
            assert(node_wf(h[a as int], h.len() as int));
        }
        let v = self.take_cell(a);
        match v {
            InnerValue::Array(mut items) => {
                let ghost before = items@;
                items.push(c);
                proof {
                    assert(cells_of(items@) =~= cells_of(before).push(c.cell));
                    assert(h[a as int]->Array_0 == cells_of(before));
                }
                self.set_cell(a, InnerValue::Array(items));
                proof {
                    assert(self@ =~= h.update(a as int, JsonNode::Array(h[a as int]->Array_0.push(c.cell))));
                }
            },
            other => {
                self.set_cell(a, other);
            },
        }
    }

    /// Makes item `i` of the array in cell `a` refer to cell `c`.
    pub fn array_set(&mut self, a: usize, i: usize, c: GCValue)
        requires
            old(self).wf(),
            a < old(self)@.len(),
            c.cell < old(self)@.len(),
            old(self)@[a as int] is Array,
            i < old(self)@[a as int]->Array_0.len(),
        ensures
            final(self).wf(),
            final(self)@ == old(self)@.update(
                a as int,
                JsonNode::Array(old(self)@[a as int]->Array_0.update(i as int, c.cell)),
            ),
    {
        let ghost h = self@;
        proof {
            assert(node_wf(h[a as int], h.len() as int));
        }
        let v = self.take_cell(a);
        match v {
            InnerValue::Array(mut items) => {
                let ghost before = items@;
                proof {
                    assert(h[a as int]->Array_0 == cells_of(before));
                }
                items.set(i, c);
                proof {
                    assert(cells_of(items@) =~= cells_of(before).update(i as int, c.cell));
                }
                self.set_cell(a, InnerValue::Array(items));
                proof {
                    assert(self@ =~= h.update(a as int, JsonNode::Array(h[a as int]->Array_0.update(i as int, c.cell))));
                }
            },
            other => {
                self.set_cell(a, other);
            },
        }
    }

    /// Removes item `i` of the array in cell `a`, shifting the later items
    /// down.
    pub fn array_remove(&mut self, a: usize, i: usize)
        requires
            old(self).wf(),
            a < old(self)@.len(),
            old(self)@[a as int] is Array,
            i < old(self)@[a as int]->Array_0.len(),
        ensures
            final(self).wf(),
            final(self)@ == old(self)@.update(
                a as int,
                JsonNode::Array(old(self)@[a as int]->Array_0.remove(i as int)),
            ),
    {
        let ghost h = self@;
        proof {
            assert(node_wf(h[a as int], h.len() as int));
        }
        let v = self.take_cell(a);
        match v {
            InnerValue::Array(mut items) => {
                let ghost before = items@;
                proof {
                    assert(h[a as int]->Array_0 == cells_of(before));
                }
                let _ = items.remove(i);
                proof {
                    assert(cells_of(items@) =~= cells_of(before).remove(i as int));
                }
                self.set_cell(a, InnerValue::Array(items));
                proof {
                    assert(self@ =~= h.update(a as int, JsonNode::Array(h[a as int]->Array_0.remove(i as int))));
                }
            },
            other => {
                self.set_cell(a, other);
            },
        }
    }

    /// Removes every item of the array in cell `a`.
    pub fn array_clear(&mut self, a: usize)
        requires
            old(self).wf(),
            a < old(self)@.len(),
            old(self)@[a as int] is Array,
        ensures
            final(self).wf(),
            final(self)@ == old(self)@.update(a as int, JsonNode::Array(Seq::empty())),
    {
        let ghost h = self@;
        let _ = self.take_cell(a);
        let items: Vec<GCValue> = Vec::new();
        proof {
            assert(cells_of(items@) =~= Seq::<usize>::empty());
        }
        self.set_cell(a, InnerValue::Array(items));
        proof {
            assert(self@ =~= h.update(a as int, JsonNode::Array(Seq::empty())));
        }
    }

    /// Sets member `key` of the object in cell `o` to refer to cell `c`:
    /// an existing member keeps its place, a new one comes last.
    pub fn object_insert(&mut self, o: usize, key: String, c: GCValue)
        requires
            old(self).wf(),
            o < old(self)@.len(),
            c.cell < old(self)@.len(),
            old(self)@[o as int] is Object,
        ensures
            final(self).wf(),
            final(self)@ == old(self)@.update(
                o as int,
                JsonNode::Object(insert_member(old(self)@[o as int]->Object_0, key@, c.cell)),
            ),
    {
        let ghost h = self@;
        let ghost k = key@;
        proof {
            assert(node_wf(h[o as int], h.len() as int));
        }
        let v = self.take_cell(o);
        match v {
            InnerValue::Object(mut m) => {
                let ghost before = object_entries(m);
                let _ = object_map_insert(&mut m, key, c.cell);
                proof {
                    lemma_insert_member_wf(before, k, c.cell, h.len() as int);
                }
                self.set_cell(o, InnerValue::Object(m));
                proof {
                    assert(self@ =~= h.update(o as int, JsonNode::Object(insert_member(h[o as int]->Object_0, k, c.cell))));
                }
            },
            other => {
                self.set_cell(o, other);
            },
        }
    }

    /// Removes member `key`, if any, from the object in cell `o`, moving the
    /// last member into its place.
    pub fn object_remove(&mut self, o: usize, key: &str)
        requires
            old(self).wf(),
            o < old(self)@.len(),
            old(self)@[o as int] is Object,
        ensures
            final(self).wf(),
            final(self)@ == old(self)@.update(
                o as int,
                JsonNode::Object(swap_remove_member(old(self)@[o as int]->Object_0, key@)),
            ),
    {
        let ghost h = self@;
        proof {
            assert(node_wf(h[o as int], h.len() as int));
        }
        let v = self.take_cell(o);
        match v {
            InnerValue::Object(mut m) => {
                let ghost before = object_entries(m);
                let _ = object_map_remove(&mut m, key);
                proof {
                    lemma_swap_remove_member_wf(before, key@, h.len() as int);
                }
                self.set_cell(o, InnerValue::Object(m));
                proof {
                    assert(self@ =~= h.update(o as int, JsonNode::Object(swap_remove_member(h[o as int]->Object_0, key@))));
                }
            },
            other => {
                self.set_cell(o, other);
            },
        }
    }

    /// Removes every member of the object in cell `o`.
    pub fn object_clear(&mut self, o: usize)
        requires
            old(self).wf(),
            o < old(self)@.len(),
            old(self)@[o as int] is Object,
        ensures
            final(self).wf(),
            final(self)@ == old(self)@.update(o as int, JsonNode::Object(Seq::empty())),
    {
        let ghost h = self@;
        let v = self.take_cell(o);
        match v {
            InnerValue::Object(mut m) => {
                object_map_clear(&mut m);
                self.set_cell(o, InnerValue::Object(m));
                proof {
                    assert(self@ =~= h.update(o as int, JsonNode::Object(Seq::empty())));
                }
            },
            other => {
                self.set_cell(o, other);
            },
        }
    }

    /// Makes cell `n`, which holds a string, hold `s` instead. Every
    /// reference to the cell sees the new string.
    pub fn set_string(&mut self, n: usize, s: String)
        requires
            old(self).wf(),
            n < old(self)@.len(),
            old(self)@[n as int] is String,
        ensures
            final(self).wf(),
            final(self)@ == old(self)@.update(n as int, JsonNode::String(s@)),
    {
        self.set_cell(n, InnerValue::String(s));
    }

    /// Makes cell `n`, which holds a number, hold `x` instead. Every
    /// reference to the cell sees the new number.
    pub fn set_number(&mut self, n: usize, x: Number)
        requires
            old(self).wf(),
            n < old(self)@.len(),
            old(self)@[n as int] is Number,
        ensures
            final(self).wf(),
            final(self)@ == old(self)@.update(n as int, JsonNode::Number(x)),
    {
        self.set_cell(n, InnerValue::Number(x));
    }

    /// Marks the cell `d` if it is not marked yet, and then puts it on the
    /// stack of cells whose references are still to be followed.
    fn mark(&self, marked: &mut Vec<bool>, stack: &mut Vec<usize>, d: usize, Ghost(roots): Ghost<Set<usize>>)
        requires
            self.wf(),
            d < self@.len(),
            old(marked)@.len() == self@.len(),
            forall|k: int| 0 <= k < old(stack)@.len() ==> #[trigger] old(stack)@[k] < self@.len(),
            forall|k: int| 0 <= k < old(stack)@.len() ==> old(marked)@[#[trigger] old(stack)@[k] as int],
            forall|m2: Seq<bool>|
                marks_closed(self@, m2) && roots_marked(roots, m2) ==> m2[d as int],
            forall|m2: Seq<bool>|
                marks_closed(self@, m2) && roots_marked(roots, m2) ==> forall|c: int|
                    0 <= c < self@.len() && #[trigger] old(marked)@[c] ==> m2[c],
        ensures
            final(marked)@ == old(marked)@.update(d as int, true),
            old(marked)@[d as int] ==> final(stack)@ == old(stack)@,
            !old(marked)@[d as int] ==> final(stack)@ == old(stack)@.push(d),
            unmarked_count(final(marked)@) + final(stack)@.len() == unmarked_count(old(marked)@) + old(
                stack,
            )@.len(),
            forall|k: int| 0 <= k < final(stack)@.len() ==> #[trigger] final(stack)@[k] < self@.len(),
            forall|k: int| 0 <= k < final(stack)@.len() ==> final(marked)@[#[trigger] final(stack)@[k] as int],
            forall|m2: Seq<bool>|
                marks_closed(self@, m2) && roots_marked(roots, m2) ==> forall|c: int|
                    0 <= c < self@.len() && #[trigger] final(marked)@[c] ==> m2[c],
    {
        if !marked[d] {
            proof {
                lemma_mark_one(marked@, d as int);
            }
            marked.set(d, true);
            stack.push(d);
        } else {
            assert(marked@.update(d as int, true) =~= marked@);
        }
    }

    /// Empties to `null` every cell that cannot be reached from the cells
    /// `roots` along the references of arrays and objects; the cells that
    /// can be reached keep what they hold.
    pub fn sweep(&mut self, roots: &Vec<usize>)
        requires
            old(self).wf(),
            forall|i: int| 0 <= i < roots@.len() ==> #[trigger] roots@[i] < old(self)@.len(),
        ensures
            final(self).wf(),
            exists|marked: Seq<bool>|
                reachable_marks(old(self)@, roots@.to_set(), marked) && final(self)@ == swept(
                    old(self)@,
                    marked,
                ),
    {
        let ghost h0 = self@;
        let n = self.cells.len();
        let mut marked: Vec<bool> = Vec::new();
        let mut i: usize = 0;
        while i < n
            invariant
                0 <= i <= n,
                marked@.len() == i,
                forall|k: int| 0 <= k < i ==> !(#[trigger] marked@[k]),
            decreases n - i,
        {
            marked.push(false);
            i = i + 1;
        }
        let mut stack: Vec<usize> = Vec::new();
        let mut j: usize = 0;
        while j < roots.len()
            invariant
                self.wf(),
                self@ == h0,
                n == h0.len(),
                marked@.len() == n,
                0 <= j <= roots@.len(),
                forall|i: int| 0 <= i < roots@.len() ==> #[trigger] roots@[i] < h0.len(),
                forall|k: int| 0 <= k < j ==> #[trigger] marked@[roots@[k] as int],
                forall|k: int| 0 <= k < stack@.len() ==> #[trigger] stack@[k] < n,
                forall|k: int| 0 <= k < stack@.len() ==> marked@[#[trigger] stack@[k] as int],
                forall|c: int|
                    0 <= c < n && #[trigger] marked@[c] && !stack@.contains(c as usize) ==> refs_marked(
                        h0[c],
                        marked@,
                    ),
                forall|m2: Seq<bool>|
                    marks_closed(h0, m2) && roots_marked(roots@.to_set(), m2) ==> forall|c: int|
                        0 <= c < n && #[trigger] marked@[c] ==> m2[c],
            decreases roots@.len() - j,
        {
            let r = roots[j];
            let ghost before = marked@;
            let ghost stack0 = stack@;
            proof {
                assert forall|m2: Seq<bool>| marks_closed(h0, m2) && roots_marked(roots@.to_set(), m2) implies m2[r as int] by {
                    assert(roots@.contains(r));
                    assert(roots@.to_set().contains(r));
                }
            }
            self.mark(&mut marked, &mut stack, r, Ghost(roots@.to_set()));
            proof {
                assert forall|c: int|
                    0 <= c < n && #[trigger] marked@[c] && !stack@.contains(c as usize) implies refs_marked(
                    h0[c],
                    marked@,
                ) by {
                    if c != r {
                        assert(before[c]);
                        if stack0.contains(c as usize) {
                            let q = choose|q: int| 0 <= q < stack0.len() && stack0[q] == c as usize;
                            assert(stack@[q] == c as usize);
                        }
                        assert(refs_marked(h0[c], before));
                        lemma_refs_marked_grow(h0[c], before, marked@);
                    } else {
                        if !before[c] {
                            assert(stack@[stack@.len() - 1] == c as usize);
                        } else {
                            assert(marked@ == before);
                            if stack0.contains(c as usize) {
                                let q = choose|q: int| 0 <= q < stack0.len() && stack0[q] == c as usize;
                                assert(stack@[q] == c as usize);
                            }
                        }
                    }
                }
            }
            j = j + 1;
        }
        while stack.len() > 0
            invariant
                self.wf(),
                self@ == h0,
                n == h0.len(),
                marked@.len() == n,
                forall|i: int| 0 <= i < roots@.len() ==> #[trigger] roots@[i] < h0.len(),
                forall|i: int| 0 <= i < roots@.len() ==> #[trigger] marked@[roots@[i] as int],
                forall|k: int| 0 <= k < stack@.len() ==> #[trigger] stack@[k] < n,
                forall|k: int| 0 <= k < stack@.len() ==> marked@[#[trigger] stack@[k] as int],
                forall|c: int|
                    0 <= c < n && #[trigger] marked@[c] && !stack@.contains(c as usize) ==> refs_marked(
                        h0[c],
                        marked@,
                    ),
                forall|m2: Seq<bool>|
                    marks_closed(h0, m2) && roots_marked(roots@.to_set(), m2) ==> forall|c: int|
                        0 <= c < n && #[trigger] marked@[c] ==> m2[c],
            decreases unmarked_count(marked@), stack@.len(),
        {
            let ghost stack_before = stack@;
            let c = stack.pop().unwrap();
            let ghost count0 = unmarked_count(marked@);
            let ghost len0 = stack@.len();
            let ghost marked0 = marked@;
            proof {
                assert(node_wf(h0[c as int], n as int));
                assert(stack_before[stack_before.len() - 1] == c);
                assert(marked@[c as int]);
                assert forall|i: int| 0 <= i < roots@.len() implies marked0[roots@[i] as int] by {
                    assert(marked@[roots@[i] as int]);
                }
                assert forall|x: int|
                    0 <= x < n && #[trigger] marked@[x] && !stack@.contains(x as usize) && x != c implies refs_marked(
                    h0[x],
                    marked@,
                ) by {
                    if stack_before.contains(x as usize) {
                        let q = choose|q: int| 0 <= q < stack_before.len() && stack_before[q] == x as usize;
                        assert(q != stack_before.len() - 1);
                        assert(stack@[q] == x as usize);
                    }
                }
            }
            self.follow(c, &mut marked, &mut stack, Ghost(roots@.to_set()));
            proof {
                assert forall|i: int| 0 <= i < roots@.len() implies #[trigger] marked@[roots@[i] as int] by {
                    assert(marked0[roots@[i] as int]);
                    assert(roots@[i] < n);
                }
            }
            assert(unmarked_count(marked@) + stack@.len() == count0 + len0);
        }
        proof {
            assert(marks_closed(h0, marked@));
            assert forall|c: usize| #[trigger] roots@.to_set().contains(c) implies marked@[c as int] by {
                assert(roots@.contains(c));
                let i = choose|i: int| 0 <= i < roots@.len() && roots@[i] == c;
                assert(marked@[roots@[i] as int]);
            }
        }
        let mut c: usize = 0;
        while c < n
            invariant
                self.wf(),
                self@.len() == n,
                n == h0.len(),
                marked@.len() == n,
                0 <= c <= n,
                forall|x: int| 0 <= x < c ==> #[trigger] self@[x] == (if marked@[x] {
                    h0[x]
                } else {
                    JsonNode::Null
                }),
                forall|x: int| c <= x < n ==> #[trigger] self@[x] == h0[x],
            decreases n - c,
        {
            if !marked[c] {
                let _ = self.take_cell(c);
            }
            c = c + 1;
        }
        proof {
            assert(self@ =~= swept(h0, marked@));
            assert(reachable_marks(h0, roots@.to_set(), marked@));
        }
    }

    /// Follows the references of the marked cell `c`: each cell it refers
    /// to is marked, and pushed when it was not marked before.
    fn follow(&self, c: usize, marked: &mut Vec<bool>, stack: &mut Vec<usize>, Ghost(roots): Ghost<Set<usize>>)
        requires
            self.wf(),
            c < self@.len(),
            old(marked)@.len() == self@.len(),
            old(marked)@[c as int],
            forall|k: int| 0 <= k < old(stack)@.len() ==> #[trigger] old(stack)@[k] < self@.len(),
            forall|k: int| 0 <= k < old(stack)@.len() ==> old(marked)@[#[trigger] old(stack)@[k] as int],
            forall|x: int|
                0 <= x < self@.len() && #[trigger] old(marked)@[x] && !old(stack)@.contains(x as usize)
                    && x != c ==> refs_marked(self@[x], old(marked)@),
            forall|m2: Seq<bool>|
                marks_closed(self@, m2) && roots_marked(roots, m2) ==> forall|x: int|
                    0 <= x < self@.len() && #[trigger] old(marked)@[x] ==> m2[x],
        ensures
            final(marked)@.len() == self@.len(),
            forall|x: int| 0 <= x < self@.len() && old(marked)@[x] ==> #[trigger] final(marked)@[x],
            unmarked_count(final(marked)@) + final(stack)@.len() == unmarked_count(old(marked)@) + old(
                stack,
            )@.len(),
            final(stack)@.len() >= old(stack)@.len(),
            forall|k: int| 0 <= k < final(stack)@.len() ==> #[trigger] final(stack)@[k] < self@.len(),
            forall|k: int| 0 <= k < final(stack)@.len() ==> final(marked)@[#[trigger] final(stack)@[k] as int],
            forall|x: int|
                0 <= x < self@.len() && #[trigger] final(marked)@[x] && !final(stack)@.contains(x as usize)
                    ==> refs_marked(self@[x], final(marked)@),
            forall|m2: Seq<bool>|
                marks_closed(self@, m2) && roots_marked(roots, m2) ==> forall|x: int|
                    0 <= x < self@.len() && #[trigger] final(marked)@[x] ==> m2[x],
    {
        proof {
            assert(node_wf(self@[c as int], self@.len() as int));
        }
        let ghost m0 = marked@;
        let ghost s0 = stack@;
        match &self.cells[c] {
            InnerValue::Array(items) => {
                let ghost cells = cells_of(items@);
                assert(self@[c as int] == JsonNode::Array(cells));
                let k = items.len();
                assert(cells.len() == k);
                assert forall|q: int| 0 <= q < k implies #[trigger] cells[q] < self@.len() by {
                    assert(node_wf(self@[c as int], self@.len() as int));
                    assert(self@[c as int]->Array_0 == cells);
                    assert(self@[c as int]->Array_0[q] < self@.len());
                }
                let mut t: usize = 0;
                while t < k
                    invariant
                        self.wf(),
                        c < self@.len(),
                        k == items@.len(),
                        cells == cells_of(items@),
                        cells.len() == k,
                        self@[c as int] == JsonNode::Array(cells),
                        forall|q: int| 0 <= q < k ==> #[trigger] cells[q] < self@.len(),
                        0 <= t <= k,
                        marked@.len() == self@.len(),
                        m0.len() == self@.len(),
                        marked@[c as int],
                        forall|x: int| 0 <= x < self@.len() && m0[x] ==> #[trigger] marked@[x],
                        unmarked_count(marked@) + stack@.len() == unmarked_count(m0) + s0.len(),
                        stack@.len() >= s0.len(),
                        forall|q: int| 0 <= q < stack@.len() ==> #[trigger] stack@[q] < self@.len(),
                        forall|q: int| 0 <= q < stack@.len() ==> marked@[#[trigger] stack@[q] as int],
                        forall|q: int| 0 <= q < t ==> #[trigger] marked@[cells[q] as int],
                        forall|x: int|
                            0 <= x < self@.len() && #[trigger] marked@[x] && !stack@.contains(x as usize)
                                && x != c ==> refs_marked(self@[x], marked@),
                        forall|m2: Seq<bool>|
                            marks_closed(self@, m2) && roots_marked(roots, m2) ==> forall|x: int|
                                0 <= x < self@.len() && #[trigger] marked@[x] ==> m2[x],
                    decreases k - t,
                {
                    let d = items[t].cell;
                    let ghost before = marked@;
                    let ghost sb = stack@;
                    proof {
                        assert(cells[t as int] == d);
                        assert forall|m2: Seq<bool>| marks_closed(self@, m2) && roots_marked(roots, m2) implies m2[d as int] by {
                            assert(m2[c as int]);
                            assert(refs_marked(self@[c as int], m2));
                            assert(self@[c as int]->Array_0 == cells);
                            assert(m2[self@[c as int]->Array_0[t as int] as int]);
                        }
                    }
                    self.mark(marked, stack, d, Ghost(roots));
                    proof {
                        assert forall|x: int|
                            0 <= x < self@.len() && #[trigger] marked@[x] && !stack@.contains(x as usize) && x
                                != c implies refs_marked(self@[x], marked@) by {
                            if x == d && !before[x] {
                                assert(stack@[stack@.len() - 1] == x as usize);
                            } else {
                                assert(before[x]);
                                if sb.contains(x as usize) {
                                    let q = choose|q: int| 0 <= q < sb.len() && sb[q] == x as usize;
                                    assert(stack@[q] == x as usize);
                                }
                                assert(node_wf(self@[x], self@.len() as int));
                                lemma_refs_marked_grow(self@[x], before, marked@);
                            }
                        }
                    }
                    t = t + 1;
                }
                assert(refs_marked(self@[c as int], marked@));
            },
            InnerValue::Object(m) => {
                let ghost es = object_entries(*m);
                assert(self@[c as int] == JsonNode::Object(es));
                assert forall|q: int| 0 <= q < es.len() implies #[trigger] es[q].1 < self@.len() by {
                    assert(node_wf(self@[c as int], self@.len() as int));
                    assert(self@[c as int]->Object_0 == es);
                    assert(self@[c as int]->Object_0[q].1 < self@.len());
                }
                let k = object_len(m);
                let mut t: usize = 0;
                while t < k
                    invariant
                        self.wf(),
                        c < self@.len(),
                        k == es.len(),
                        es == object_entries(*m),
                        self@[c as int] == JsonNode::Object(es),
                        forall|q: int| 0 <= q < k ==> #[trigger] es[q].1 < self@.len(),
                        0 <= t <= k,
                        marked@.len() == self@.len(),
                        m0.len() == self@.len(),
                        marked@[c as int],
                        forall|x: int| 0 <= x < self@.len() && m0[x] ==> #[trigger] marked@[x],
                        unmarked_count(marked@) + stack@.len() == unmarked_count(m0) + s0.len(),
                        stack@.len() >= s0.len(),
                        forall|q: int| 0 <= q < stack@.len() ==> #[trigger] stack@[q] < self@.len(),
                        forall|q: int| 0 <= q < stack@.len() ==> marked@[#[trigger] stack@[q] as int],
                        forall|q: int| 0 <= q < t ==> #[trigger] marked@[es[q].1 as int],
                        forall|x: int|
                            0 <= x < self@.len() && #[trigger] marked@[x] && !stack@.contains(x as usize)
                                && x != c ==> refs_marked(self@[x], marked@),
                        forall|m2: Seq<bool>|
                            marks_closed(self@, m2) && roots_marked(roots, m2) ==> forall|x: int|
                                0 <= x < self@.len() && #[trigger] marked@[x] ==> m2[x],
                    decreases k - t,
                {
                    let d = object_member_at(m, t).unwrap().1;
                    let ghost before = marked@;
                    let ghost sb = stack@;
                    proof {
                        assert(es[t as int].1 == d);
                        assert forall|m2: Seq<bool>| marks_closed(self@, m2) && roots_marked(roots, m2) implies m2[d as int] by {
                            assert(m2[c as int]);
                            assert(refs_marked(self@[c as int], m2));
                            assert(self@[c as int]->Object_0 == es);
                            assert(m2[self@[c as int]->Object_0[t as int].1 as int]);
                        }
                    }
                    self.mark(marked, stack, d, Ghost(roots));
                    proof {
                        assert forall|x: int|
                            0 <= x < self@.len() && #[trigger] marked@[x] && !stack@.contains(x as usize) && x
                                != c implies refs_marked(self@[x], marked@) by {
                            if x == d && !before[x] {
                                assert(stack@[stack@.len() - 1] == x as usize);
                            } else {
                                assert(before[x]);
                                if sb.contains(x as usize) {
                                    let q = choose|q: int| 0 <= q < sb.len() && sb[q] == x as usize;
                                    assert(stack@[q] == x as usize);
                                }
                                assert(node_wf(self@[x], self@.len() as int));
                                lemma_refs_marked_grow(self@[x], before, marked@);
                            }
                        }
                    }
                    t = t + 1;
                }
                assert(refs_marked(self@[c as int], marked@));
            },
            _ => {},
        }
    }

    /// Indexes cell `from` with the member name `key`.
    fn index_key(&self, from: usize, key: &str) -> (r: Result<GCValue, Error>)
        requires
            self.wf(),
            from < self@.len(),
        ensures
            lookup_result(r, step(self@, from, key@), key@),
            r matches Ok(g) ==> g.cell < self@.len(),
    {
        proof {
            assert(node_wf(self@[from as int], self@.len() as int));
        }
        match &self.cells[from] {
            InnerValue::Object(m) => {
                match object_map_get(m, key) {
                    Some(c) => {
                        proof {
                            let es = object_entries(*m);
                            let i = member_index(es, key@)->0;
                            assert(es[i].1 < self@.len());
                        }
                        Ok(GCValue { cell: c })
                    },
                    None => {
                        let mut msg = String::from_str("Can't index json using `");
                        msg.append(key);
                        msg.append("`, because json doesn't contain it");
                        Err(msg_error(msg))
                    },
                }
            },
            _ => {
                let mut msg = String::from_str("Can't index json using `");
                msg.append(key);
                msg.append("` json stops is not object.");
                Err(msg_error(msg))
            },
        }
    }

    /// Follows the dot-separated parts of `name` from cell `from`. On
    /// success, also gives the object whose member was reached last and that
    /// member's name.
    fn dot_lookup(&self, from: usize, name: &str) -> (r: Result<(usize, String, GCValue), Error>)
        requires
            self.wf(),
            from < self@.len(),
        ensures
            match r {
                Ok((p, k, g)) => {
                    &&& walk(self@, from, split_dots(name@)) == Lookup::Found(g.cell)
                    &&& walk(self@, from, split_dots(name@).drop_last()) == Lookup::Found(p)
                    &&& k@ == split_dots(name@).last()
                    &&& g.cell < self@.len()
                    &&& p < self@.len()
                },
                Err(_) => lookup_fails(r, walk(self@, from, split_dots(name@)), name@),
            },
    {
        let mut cur: usize = from;
        let mut seg = String::new();
        for c in it: name.chars()
            invariant
                self.wf(),
                cur < self@.len(),
                it.seq() == name@,
                walk(self@, from, split_dots(name@.take(it.index() as int)).drop_last())
                    == Lookup::Found(cur),
                split_dots(name@.take(it.index() as int)).last() == seg@,
        {
            let ghost pre = name@.take(it.index() as int);
            proof {
                assert(name@.take(it.index() + 1) =~= pre.push(c));
                lemma_split_dots_push(pre, c);
            }
            if c == '.' {
                if seg.as_str().is_empty() {
                    let mut msg = String::from_str("Double/Empty separator in `");
                    msg.append(name);
                    msg.append("`");
                    proof {
                        lemma_walk_prefix_fails(self@, from, name@, it.index() as int + 1);
                    }
                    return Err(msg_error(msg));
                }
                match self.index_key(cur, seg.as_str()) {
                    Ok(g) => {
                        cur = g.cell;
                    },
                    Err(e) => {
                        proof {
                            lemma_walk_prefix_fails(self@, from, name@, it.index() as int + 1);
                        }
                        return Err(e);
                    },
                }
                seg = String::new();
            } else {
                string_push(&mut seg, c);
            }
        }
        proof {
            assert(name@.take(name@.len() as int) =~= name@);
            lemma_split_dots_len(name@);
        }
        if seg.as_str().is_empty() {
            let mut msg = String::from_str("Double/Empty separator in `");
            msg.append(name);
            msg.append("`");
            return Err(msg_error(msg));
        }
        match self.index_key(cur, seg.as_str()) {
            Ok(g) => Ok((cur, seg, g)),
            Err(e) => Err(e),
        }
    }

    /// Follows the dot-separated parts of `name` from cell `from`.
    fn dot_index(&self, from: usize, name: &str) -> (r: Result<GCValue, Error>)
        requires
            self.wf(),
            from < self@.len(),
        ensures
            lookup_result(r, walk(self@, from, split_dots(name@)), name@),
            r matches Ok(g) ==> g.cell < self@.len(),
    {
        match self.dot_lookup(from, name) {
            Ok((_, _, g)) => Ok(g),
            Err(e) => Err(e),
        }
    }

    /// Looks `name` up from cell `from`, part by part when `dot_notation` is
    /// set: the object whose member was reached last, that member's name and
    /// the cell it refers to.
    pub fn find_slot(&self, from: usize, name: &str, dot_notation: bool) -> (r: Result<
        (usize, String, usize),
        Error,
    >)
        requires
            self.wf(),
            from < self@.len(),
        ensures
            match r {
                Ok((p, k, c)) => {
                    &&& lookup(self@, from, name@, dot_notation) == Lookup::Found(c)
                    &&& member_slot(self@, from, name@, dot_notation) == (p, k@)
                    &&& c < self@.len()
                    &&& p < self@.len()
                },
                Err(_) => lookup_fails(r, lookup(self@, from, name@, dot_notation), name@),
            },
    {
        if dot_notation {
            match self.dot_lookup(from, name) {
                Ok((p, k, g)) => Ok((p, k, g.cell)),
                Err(e) => Err(e),
            }
        } else {
            match self.index_key(from, name) {
                Ok(g) => Ok((from, String::from_str(name), g.cell)),
                Err(e) => Err(e),
            }
        }
    }
}

/// A JSON value written out as a tree, as it is parsed from or serialised
/// to text.
#[derive(Debug)]
pub enum JsonTree {
    Null,
    Bool(bool),
    Number(Number),
    String(String),
    Array(Vec<JsonTree>),
    Object(Vec<(String, JsonTree)>),
}

/// The mathematical content of a `JsonTree`.
pub enum TreeView {
    Null,
    Bool(bool),
    Number(Number),
    String(Seq<char>),
    Array(Seq<TreeView>),
    Object(Seq<(Seq<char>, TreeView)>),
}

impl JsonTree {
    /// The content of the tree.
    pub open spec fn tree_view(&self) -> TreeView
        decreases self,
    {
        match self {
            JsonTree::Null => TreeView::Null,
            JsonTree::Bool(b) => TreeView::Bool(*b),
            JsonTree::Number(n) => TreeView::Number(*n),
            JsonTree::String(s) => TreeView::String(s@),
            JsonTree::Array(items) => TreeView::Array(
                Seq::new(
                    items@.len(),
                    |i: int|
                        if 0 <= i < items@.len() {
                            proof {
                                assert(decreases_to!(self => items));
                                assert(decreases_to!(items => items@));
                                assert(decreases_to!(items@ => items@[i]));
                            }
                            items@[i].tree_view()
                        } else {
                            TreeView::Null
                        },
                ),
            ),
            JsonTree::Object(members) => TreeView::Object(
                Seq::new(
                    members@.len(),
                    |i: int|
                        if 0 <= i < members@.len() {
                            proof {
                                assert(decreases_to!(self => members));
                                assert(decreases_to!(members => members@));
                                assert(decreases_to!(members@ => members@[i]));
                                assert(decreases_to!(members@[i] => members@[i].1));
                            }
                            (members@[i].0@, members@[i].1.tree_view())
                        } else {
                            (Seq::<char>::empty(), TreeView::Null)
                        },
                ),
            ),
        }
    }
}

/// No object in the tree has two members of the same name.
pub open spec fn tree_wf(t: TreeView) -> bool
    decreases t,
{
    match t {
        TreeView::Array(items) => forall|i: int|
            #![trigger items[i]]
            0 <= i < items.len() ==> tree_wf(items[i]),
        TreeView::Object(members) => {
            &&& forall|i: int, j: int|
                0 <= i < members.len() && 0 <= j < members.len() && i != j
                    ==> #[trigger] members[i].0 != #[trigger] members[j].0
            &&& forall|i: int| #![trigger members[i]] 0 <= i < members.len() ==> tree_wf(members[i].1)
        },
        _ => true,
    }
}

/// Cell `n` of heap `h` holds exactly the tree `t`: the tree's containers
/// are cells whose items or members, in order, hold the tree's items or
/// members. Every cell of it lies at or above `lo`, so with `lo` at the
/// heap's former length, the whole tree is made of new cells.
pub open spec fn holds_tree(h: Seq<JsonNode>, n: usize, t: TreeView, lo: int) -> bool
    decreases t,
{
    &&& lo <= n < h.len()
    &&& match (h[n as int], t) {
        (JsonNode::Null, TreeView::Null) => true,
        (JsonNode::Bool(a), TreeView::Bool(b)) => a == b,
        (JsonNode::Number(a), TreeView::Number(b)) => a == b,
        (JsonNode::String(a), TreeView::String(b)) => a == b,
        (JsonNode::Array(cells), TreeView::Array(items)) => {
            &&& cells.len() == items.len()
            &&& forall|i: int|
                #![trigger items[i]]
                0 <= i < cells.len() ==> holds_tree(h, cells[i], items[i], lo)
        },
        (JsonNode::Object(entries), TreeView::Object(members)) => {
            &&& entries.len() == members.len()
            &&& forall|i: int|
                #![trigger members[i]]
                0 <= i < entries.len() ==> entries[i].0 == members[i].0 && holds_tree(
                    h,
                    entries[i].1,
                    members[i].1,
                    lo,
                )
        },
        _ => false,
    }
}

/// The cell holds an array or object that is not empty.
pub open spec fn has_children(node: JsonNode) -> bool {
    match node {
        JsonNode::Array(items) => items.len() > 0,
        JsonNode::Object(entries) => entries.len() > 0,
        _ => false,
    }
}

/// A recursion limit can be applied to the cell: it is at least 1, or the
/// cell has nothing below it. (Below 1, counting down the limit for the
/// first item would underflow.)
pub open spec fn limit_ok(node: JsonNode, limit: nat) -> bool {
    limit >= 1 || !has_children(node)
}

/// The value of `node` written out as a tree, down to `limit` levels: a
/// container at the last level is written out empty, and each item or
/// member below it gets one level less.
pub open spec fn unfold_node(h: Seq<JsonNode>, node: JsonNode, limit: nat) -> TreeView
    decreases limit,
{
    match node {
        JsonNode::Null => TreeView::Null,
        JsonNode::Bool(b) => TreeView::Bool(b),
        JsonNode::Number(x) => TreeView::Number(x),
        JsonNode::String(s) => TreeView::String(s),
        JsonNode::Array(items) => TreeView::Array(
            if limit >= 2 {
                Seq::new(
                    items.len(),
                    |i: int| unfold_node(h, h[items[i] as int], (limit - 1) as nat),
                )
            } else {
                Seq::empty()
            },
        ),
        JsonNode::Object(entries) => TreeView::Object(
            if limit >= 2 {
                Seq::new(
                    entries.len(),
                    |i: int| (entries[i].0, unfold_node(h, h[entries[i].1 as int], (limit - 1) as nat)),
                )
            } else {
                Seq::empty()
            },
        ),
    }
}

/// The value of cell `n` written out as a tree, down to `limit` levels.
pub open spec fn unfold(h: Seq<JsonNode>, n: usize, limit: nat) -> TreeView {
    unfold_node(h, h[n as int], limit)
}

/// A tree whose cells all lie at or above `lo1` has them all at or above
/// any lower bound.
pub proof fn lemma_holds_tree_lower(h: Seq<JsonNode>, n: usize, t: TreeView, lo1: int, lo2: int)
    requires
        holds_tree(h, n, t, lo1),
        lo2 <= lo1,
    ensures
        holds_tree(h, n, t, lo2),
    decreases t,
{
    match (h[n as int], t) {
        (JsonNode::Array(cells), TreeView::Array(items)) => {
            assert forall|i: int| 0 <= i < cells.len() implies holds_tree(
                h,
                cells[i],
                #[trigger] items[i],
                lo2,
            ) by {
                lemma_holds_tree_lower(h, cells[i], items[i], lo1, lo2);
            }
        },
        (JsonNode::Object(entries), TreeView::Object(members)) => {
            assert forall|i: int| 0 <= i < entries.len() implies entries[i].0 == (
            #[trigger] members[i]).0 && holds_tree(h, entries[i].1, members[i].1, lo2) by {
                lemma_holds_tree_lower(h, entries[i].1, members[i].1, lo1, lo2);
            }
        },
        _ => {},
    }
}

/// Comparing cells `a` and `b` for equality the way a recursive comparison
/// does it, with at most `fuel` levels of nesting: `None` when that is not
/// enough. Values of different kinds differ; arrays are equal when they are
/// as long and their items are equal in order, the first unequal item
/// ending the comparison; objects are equal when they have as many members
/// and each member of `a`, in `a`'s order, is found in `b` under the same
/// name with an equal value (the order of members does not matter).
pub open spec fn eq_outcome(h: Seq<JsonNode>, a: usize, b: usize, fuel: nat) -> Option<bool>
    decreases fuel, 0nat, 0nat,
{
    if fuel == 0 {
        None
    } else {
        match (h[a as int], h[b as int]) {
            (JsonNode::Null, JsonNode::Null) => Some(true),
            (JsonNode::Bool(x), JsonNode::Bool(y)) => Some(x == y),
            (JsonNode::Number(x), JsonNode::Number(y)) => Some(number_eq(x, y)),
            (JsonNode::String(x), JsonNode::String(y)) => Some(x == y),
            (JsonNode::Array(xs), JsonNode::Array(ys)) => if xs.len() != ys.len() {
                Some(false)
            } else {
                items_eq(h, xs, ys, 0, (fuel - 1) as nat)
            },
            (JsonNode::Object(xs), JsonNode::Object(ys)) => if xs.len() != ys.len() {
                Some(false)
            } else {
                members_eq(h, xs, ys, 0, (fuel - 1) as nat)
            },
            _ => Some(false),
        }
    }
}

/// Comparing the items of two arrays of the same length from position `i`
/// on; see `eq_outcome`.
pub open spec fn items_eq(h: Seq<JsonNode>, xs: Seq<usize>, ys: Seq<usize>, i: nat, fuel: nat) -> Option<
    bool,
>
    decreases fuel, 1nat, xs.len() - i,
{
    if i >= xs.len() {
        Some(true)
    } else {
        match eq_outcome(h, xs[i as int], ys[i as int], fuel) {
            Some(true) => items_eq(h, xs, ys, i + 1, fuel),
            other => other,
        }
    }
}

/// Comparing the members of two objects of the same size from position `i`
/// of the first on; see `eq_outcome`.
pub open spec fn members_eq(
    h: Seq<JsonNode>,
    xs: Seq<(Seq<char>, usize)>,
    ys: Seq<(Seq<char>, usize)>,
    i: nat,
    fuel: nat,
) -> Option<bool>
    decreases fuel, 1nat, xs.len() - i,
{
    if i >= xs.len() {
        Some(true)
    } else {
        match find_member(ys, xs[i as int].0) {
            None => Some(false),
            Some(c) => match eq_outcome(h, xs[i as int].1, c, fuel) {
                Some(true) => members_eq(h, xs, ys, i + 1, fuel),
                other => other,
            },
        }
    }
}

/// Setting a member keeps names distinct and references within bounds.
pub proof fn lemma_insert_member_wf(entries: Seq<(Seq<char>, usize)>, key: Seq<char>, value: usize, len: int)
    requires
        node_wf(JsonNode::Object(entries), len),
        value < len,
    ensures
        node_wf(JsonNode::Object(insert_member(entries, key, value)), len),
{
    let r = insert_member(entries, key, value);
    match member_index(entries, key) {
        Some(i) => {
            assert forall|p: int, q: int|
                0 <= p < r.len() && 0 <= q < r.len() && p != q implies #[trigger] r[p].0 != #[trigger] r[q].0 by {
                assert(entries[p].0 == r[p].0);
                assert(entries[q].0 == r[q].0);
            }
            assert forall|p: int| 0 <= p < r.len() implies #[trigger] r[p].1 < len by {
                if p != i {
                    assert(r[p] == entries[p]);
                }
            }
        },
        None => {
            assert forall|p: int, q: int|
                0 <= p < r.len() && 0 <= q < r.len() && p != q implies #[trigger] r[p].0 != #[trigger] r[q].0 by {
                if p < entries.len() && q < entries.len() {
                    assert(r[p] == entries[p]);
                    assert(r[q] == entries[q]);
                } else if p < entries.len() {
                    assert(r[p] == entries[p]);
                } else if q < entries.len() {
                    assert(r[q] == entries[q]);
                }
            }
            assert forall|p: int| 0 <= p < r.len() implies #[trigger] r[p].1 < len by {
                if p < entries.len() {
                    assert(r[p] == entries[p]);
                }
            }
        },
    }
}

/// Swap-removing a member keeps names distinct and references within
/// bounds.
pub proof fn lemma_swap_remove_member_wf(entries: Seq<(Seq<char>, usize)>, key: Seq<char>, len: int)
    requires
        node_wf(JsonNode::Object(entries), len),
    ensures
        node_wf(JsonNode::Object(swap_remove_member(entries, key)), len),
{
    let r = swap_remove_member(entries, key);
    match member_index(entries, key) {
        Some(i) => {
            let last = entries.len() - 1;
            assert forall|p: int| 0 <= p < r.len() implies #[trigger] r[p] == (if p == i {
                entries[last]
            } else {
                entries[p]
            }) by {}
            assert forall|p: int, q: int|
                0 <= p < r.len() && 0 <= q < r.len() && p != q implies #[trigger] r[p].0 != #[trigger] r[q].0 by {
                let pp = if p == i { last } else { p };
                let qq = if q == i { last } else { q };
                assert(r[p] == entries[pp]);
                assert(r[q] == entries[qq]);
            }
            assert forall|p: int| 0 <= p < r.len() implies #[trigger] r[p].1 < len by {
                let pp = if p == i { last } else { p };
                assert(r[p] == entries[pp]);
            }
        },
        None => {},
    }
}

/// Unfolding a cell of a well-formed heap gives the same tree after cells
/// are added to the heap.
pub proof fn lemma_unfold_extend(h: Seq<JsonNode>, h2: Seq<JsonNode>, n: usize, limit: nat)
    requires
        heap_wf(h),
        n < h.len(),
        h.len() <= h2.len(),
        h2.take(h.len() as int) == h,
    ensures
        unfold(h2, n, limit) == unfold(h, n, limit),
    decreases limit,
{
    assert(h2[n as int] == h.take(h.len() as int)[n as int]);
    assert(h2[n as int] == h[n as int]);
    assert(node_wf(h[n as int], h.len() as int));
    match h[n as int] {
        JsonNode::Array(items) => {
            if limit >= 2 {
                assert forall|i: int| 0 <= i < items.len() implies unfold(
                    h2,
                    #[trigger] items[i],
                    (limit - 1) as nat,
                ) == unfold(h, items[i], (limit - 1) as nat) by {
                    lemma_unfold_extend(h, h2, items[i], (limit - 1) as nat);
                }
                assert(unfold(h2, n, limit)->Array_0 =~= unfold(h, n, limit)->Array_0);
            }
        },
        JsonNode::Object(entries) => {
            if limit >= 2 {
                assert forall|i: int| 0 <= i < entries.len() implies unfold(
                    h2,
                    (#[trigger] entries[i]).1,
                    (limit - 1) as nat,
                ) == unfold(h, entries[i].1, (limit - 1) as nat) by {
                    lemma_unfold_extend(h, h2, entries[i].1, (limit - 1) as nat);
                }
                assert(unfold(h2, n, limit)->Object_0 =~= unfold(h, n, limit)->Object_0);
            }
        },
        _ => {},
    }
}

/// Being a prefix is transitive.
pub proof fn lemma_prefix_trans<A>(a: Seq<A>, b: Seq<A>, c: Seq<A>)
    requires
        a.len() <= b.len() <= c.len(),
        b.take(a.len() as int) == a,
        c.take(b.len() as int) == b,
    ensures
        c.take(a.len() as int) == a,
{
    assert forall|k: int| 0 <= k < a.len() implies c.take(a.len() as int)[k] == a[k] by {
        assert(c.take(b.len() as int)[k] == c[k]);
        assert(b.take(a.len() as int)[k] == b[k]);
    }
    assert(c.take(a.len() as int) =~= a);
}

/// A sequence is a prefix of itself with one more element.
pub proof fn lemma_prefix_push<A>(a: Seq<A>, x: A)
    ensures
        a.push(x).take(a.len() as int) == a,
{
    assert(a.push(x).take(a.len() as int) =~= a);
}

/// A tree held in a heap stays held when cells are added to the heap.
pub proof fn lemma_holds_tree_extend(h: Seq<JsonNode>, h2: Seq<JsonNode>, n: usize, t: TreeView, lo: int)
    requires
        holds_tree(h, n, t, lo),
        h.len() <= h2.len(),
        h2.take(h.len() as int) == h,
    ensures
        holds_tree(h2, n, t, lo),
    decreases t,
{
    assert(h2[n as int] == h.take(h.len() as int)[n as int]);
    match (h[n as int], t) {
        (JsonNode::Array(cells), TreeView::Array(items)) => {
            assert forall|i: int| 0 <= i < cells.len() implies holds_tree(
                h2,
                cells[i],
                #[trigger] items[i],
                lo,
            ) by {
                lemma_holds_tree_extend(h, h2, cells[i], items[i], lo);
            }
        },
        (JsonNode::Object(entries), TreeView::Object(members)) => {
            assert forall|i: int| 0 <= i < entries.len() implies entries[i].0 == (
            #[trigger] members[i]).0 && holds_tree(h2, entries[i].1, members[i].1, lo) by {
                lemma_holds_tree_extend(h, h2, entries[i].1, members[i].1, lo);
            }
        },
        _ => {},
    }
}

/// The number of members of an object map.
pub fn object_len(m: &ObjectMap) -> (r: usize)
    ensures
        r == object_entries(*m).len(),
{
    object_map_len(m)
}

/// Member `i` of an object map, in its order: the name and the cell.
pub fn object_member_at(m: &ObjectMap, i: usize) -> (r: Option<(&String, usize)>)
    ensures
        r.is_some() == (i < object_entries(*m).len()),
        r.is_some() ==> r.unwrap().0@ == object_entries(*m)[i as int].0 && r.unwrap().1
            == object_entries(*m)[i as int].1,
{
    object_map_get_index(m, i)
}

/// A new empty object.
pub fn empty_object() -> (v: InnerValue)
    ensures
        v@ == JsonNode::Object(Seq::empty()),
{
    InnerValue::Object(object_map_new())
}

/// The tree `t` survives being written out down to `limit` levels: every
/// container that is not empty lies at least two levels above the limit, so
/// that its items or members are written out too.
pub open spec fn within_limit(t: TreeView, limit: nat) -> bool
    decreases t,
{
    match t {
        TreeView::Array(items) => items.len() == 0 || (limit >= 2 && forall|i: int|
            #![trigger items[i]]
            0 <= i < items.len() ==> within_limit(items[i], (limit - 1) as nat)),
        TreeView::Object(members) => members.len() == 0 || (limit >= 2 && forall|i: int|
            #![trigger members[i]]
            0 <= i < members.len() ==> within_limit(members[i].1, (limit - 1) as nat)),
        _ => true,
    }
}

/// A cell that holds the tree `t` reads back as `t` when written out down to
/// a limit that `t` lies within.
pub proof fn lemma_unfold_holds_tree(h: Seq<JsonNode>, n: usize, t: TreeView, lo: int, limit: nat)
    requires
        holds_tree(h, n, t, lo),
        within_limit(t, limit),
    ensures
        unfold(h, n, limit) == t,
    decreases t,
{
    match (h[n as int], t) {
        (JsonNode::Array(cells), TreeView::Array(items)) => {
            if items.len() == 0 {
                assert(unfold(h, n, limit)->Array_0 =~= items);
            } else {
                assert forall|i: int| 0 <= i < items.len() implies unfold(
                    h,
                    cells[i],
                    (limit - 1) as nat,
                ) == #[trigger] items[i] by {
                    lemma_unfold_holds_tree(h, cells[i], items[i], lo, (limit - 1) as nat);
                }
                assert(unfold(h, n, limit)->Array_0 =~= items);
            }
        },
        (JsonNode::Object(entries), TreeView::Object(members)) => {
            if members.len() == 0 {
                assert(unfold(h, n, limit)->Object_0 =~= members);
            } else {
                assert forall|i: int| 0 <= i < members.len() implies (
                entries[i].0,
                unfold(h, entries[i].1, (limit - 1) as nat),
                ) == #[trigger] members[i] by {
                    lemma_unfold_holds_tree(h, entries[i].1, members[i].1, lo, (limit - 1) as nat);
                }
                assert(unfold(h, n, limit)->Object_0 =~= members);
            }
        },
        _ => {},
    }
}

/// What a value written out down to `limit` levels gives lies within that
/// limit.
pub proof fn lemma_unfold_within_limit(h: Seq<JsonNode>, node: JsonNode, limit: nat)
    ensures
        within_limit(unfold_node(h, node, limit), limit),
    decreases limit,
{
    match node {
        JsonNode::Array(items) => {
            if limit >= 2 {
                let t = unfold_node(h, node, limit)->Array_0;
                assert forall|i: int| 0 <= i < t.len() implies within_limit(
                    #[trigger] t[i],
                    (limit - 1) as nat,
                ) by {
                    lemma_unfold_within_limit(h, h[items[i] as int], (limit - 1) as nat);
                }
            }
        },
        JsonNode::Object(entries) => {
            if limit >= 2 {
                let t = unfold_node(h, node, limit)->Object_0;
                assert forall|i: int| 0 <= i < t.len() implies within_limit(
                    (#[trigger] t[i]).1,
                    (limit - 1) as nat,
                ) by {
                    lemma_unfold_within_limit(h, h[entries[i].1 as int], (limit - 1) as nat);
                }
            }
        },
        _ => {},
    }
}

/// Writing a tree into new cells and writing those cells out again gives the
/// tree back, when the limit is enough for it.
pub proof fn law_tree_round_trip(h: Seq<JsonNode>, n: usize, t: TreeView, lo: int, limit: nat)
    requires
        holds_tree(h, n, t, lo),
        within_limit(t, limit),
    ensures
        unfold(h, n, limit) == t,
{
    lemma_unfold_holds_tree(h, n, t, lo, limit);
}

/// A deep copy made down to `limit` levels reads back, at that limit, as the
/// copied value did when it was copied.
pub proof fn law_deep_copy_reads_back(h0: Seq<JsonNode>, n: usize, h: Seq<JsonNode>, copy: usize, limit: nat)
    requires
        holds_tree(h, copy, unfold(h0, n, limit), h0.len() as int),
    ensures
        unfold(h, copy, limit) == unfold(h0, n, limit),
{
    lemma_unfold_within_limit(h0, h0[n as int], limit);
    lemma_unfold_holds_tree(h, copy, unfold(h0, n, limit), h0.len() as int, limit);
}

/// Cells added after a value's cells, or changed after them, do not change
/// how the value reads: a deep copy lives in cells of its own, and what is
/// done to it leaves the copied value as it was.
pub proof fn law_source_unaffected_by_later_cells(h0: Seq<JsonNode>, h: Seq<JsonNode>, n: usize, limit: nat)
    requires
        heap_wf(h0),
        n < h0.len(),
        h0.len() <= h.len(),
        h.take(h0.len() as int) == h0,
    ensures
        unfold(h, n, limit) == unfold(h0, n, limit),
{
    lemma_unfold_extend(h0, h, n, limit);
}

/// A tree held in cells at or above `lo` stays held when only cells below
/// `lo` change, or cells are added: a deep copy is not changed by what is
/// done to the value it was copied from.
pub proof fn law_copy_unaffected_by_earlier_cells(h: Seq<JsonNode>, h2: Seq<JsonNode>, n: usize, t: TreeView, lo: int)
    requires
        holds_tree(h, n, t, lo),
        h.len() <= h2.len(),
        forall|i: int| lo <= i < h.len() ==> #[trigger] h2[i] == h[i],
    ensures
        holds_tree(h2, n, t, lo),
    decreases t,
{
    match (h[n as int], t) {
        (JsonNode::Array(cells), TreeView::Array(items)) => {
            assert forall|i: int| 0 <= i < cells.len() implies holds_tree(
                h2,
                cells[i],
                #[trigger] items[i],
                lo,
            ) by {
                law_copy_unaffected_by_earlier_cells(h, h2, cells[i], items[i], lo);
            }
        },
        (JsonNode::Object(entries), TreeView::Object(members)) => {
            assert forall|i: int| 0 <= i < entries.len() implies entries[i].0 == (
            #[trigger] members[i]).0 && holds_tree(h2, entries[i].1, members[i].1, lo) by {
                law_copy_unaffected_by_earlier_cells(h, h2, entries[i].1, members[i].1, lo);
            }
        },
        _ => {},
    }
}

/// A value is never found unequal to itself (the comparison can only fail
/// to end, on a value that contains itself).
pub proof fn law_equals_reflexive(h: Seq<JsonNode>, a: usize, fuel: nat)
    requires
        heap_wf(h),
        a < h.len(),
    ensures
        eq_outcome(h, a, a, fuel) != Some(false),
    decreases fuel, 0nat, 0nat,
{
    if fuel > 0 {
        assert(node_wf(h[a as int], h.len() as int));
        match h[a as int] {
            JsonNode::Array(xs) => {
                lemma_items_reflexive(h, xs, 0, (fuel - 1) as nat);
            },
            JsonNode::Object(xs) => {
                lemma_members_reflexive(h, xs, 0, (fuel - 1) as nat);
            },
            _ => {},
        }
    }
}

proof fn lemma_items_reflexive(h: Seq<JsonNode>, xs: Seq<usize>, i: nat, fuel: nat)
    requires
        heap_wf(h),
        forall|j: int| 0 <= j < xs.len() ==> #[trigger] xs[j] < h.len(),
    ensures
        items_eq(h, xs, xs, i, fuel) != Some(false),
    decreases fuel, 1nat, xs.len() - i,
{
    if i < xs.len() {
        law_equals_reflexive(h, xs[i as int], fuel);
        lemma_items_reflexive(h, xs, i + 1, fuel);
    }
}

proof fn lemma_members_reflexive(h: Seq<JsonNode>, xs: Seq<(Seq<char>, usize)>, i: nat, fuel: nat)
    requires
        heap_wf(h),
        keys_unique(xs),
        forall|j: int| 0 <= j < xs.len() ==> #[trigger] xs[j].1 < h.len(),
    ensures
        members_eq(h, xs, xs, i, fuel) != Some(false),
    decreases fuel, 1nat, xs.len() - i,
{
    if i < xs.len() {
        let k = xs[i as int].0;
        assert(member_index(xs, k) == Some(i as int)) by {
            let q = choose|q: int| 0 <= q < xs.len() && xs[q].0 == k;
            assert(0 <= q < xs.len() && xs[q].0 == k);
            if q != i {
                assert(xs[q].0 != xs[i as int].0);
            }
        }
        law_equals_reflexive(h, xs[i as int].1, fuel);
        lemma_members_reflexive(h, xs, i + 1, fuel);
    }
}

/// Two values found equal are found equal the other way round: where both
/// comparisons come to an answer, they give the same one.
pub proof fn law_equals_symmetric(h: Seq<JsonNode>, a: usize, b: usize, fuel: nat)
    requires
        heap_wf(h),
        a < h.len(),
        b < h.len(),
        eq_outcome(h, a, b, fuel) is Some,
        eq_outcome(h, b, a, fuel) is Some,
    ensures
        eq_outcome(h, a, b, fuel) == eq_outcome(h, b, a, fuel),
{
    if eq_outcome(h, a, b, fuel) == Some(true) {
        lemma_equal_both_ways(h, a, b, fuel);
    } else if eq_outcome(h, b, a, fuel) == Some(true) {
        lemma_equal_both_ways(h, b, a, fuel);
    }
}

/// A member name of a well-formed object finds that member.
proof fn lemma_find_own_member(es: Seq<(Seq<char>, usize)>, j: int)
    requires
        keys_unique(es),
        0 <= j < es.len(),
    ensures
        find_member(es, es[j].0) == Some(es[j].1),
{
    let k = es[j].0;
    let q = choose|q: int| 0 <= q < es.len() && es[q].0 == k;
    assert(0 <= q < es.len() && es[q].0 == k);
    if q != j {
        assert(es[q].0 != es[j].0);
    }
}

/// Two arrays compare equal from position `i` on exactly when each pair of
/// items from there on does.
proof fn lemma_items_eq_all(h: Seq<JsonNode>, xs: Seq<usize>, ys: Seq<usize>, i: nat, fuel: nat)
    ensures
        items_eq(h, xs, ys, i, fuel) == Some(true) <==> forall|j: int|
            i <= j < xs.len() ==> #[trigger] eq_outcome(h, xs[j], ys[j], fuel) == Some(true),
    decreases xs.len() - i,
{
    if i < xs.len() {
        lemma_items_eq_all(h, xs, ys, i + 1, fuel);
        if items_eq(h, xs, ys, i, fuel) != Some(true) {
            assert(eq_outcome(h, xs[i as int], ys[i as int], fuel) != Some(true) || items_eq(
                h,
                xs,
                ys,
                i + 1,
                fuel,
            ) != Some(true));
        }
    }
}

/// Two objects compare equal from member `i` of the first on exactly when
/// each of those members has a namesake in the second that compares equal.
proof fn lemma_members_eq_all(
    h: Seq<JsonNode>,
    xs: Seq<(Seq<char>, usize)>,
    ys: Seq<(Seq<char>, usize)>,
    i: nat,
    fuel: nat,
)
    ensures
        members_eq(h, xs, ys, i, fuel) == Some(true) <==> forall|j: int|
            i <= j < xs.len() ==> #[trigger] find_member(ys, xs[j].0) is Some && eq_outcome(
                h,
                xs[j].1,
                find_member(ys, xs[j].0)->Some_0,
                fuel,
            ) == Some(true),
    decreases xs.len() - i,
{
    if i < xs.len() {
        lemma_members_eq_all(h, xs, ys, i + 1, fuel);
    }
}

/// Two well-formed objects of the same size, where every name of the first
/// is a name of the second, have the same names: every name of the second
/// is a name of the first.
proof fn lemma_same_names(xs: Seq<(Seq<char>, usize)>, ys: Seq<(Seq<char>, usize)>, j: int)
    requires
        keys_unique(xs),
        keys_unique(ys),
        xs.len() == ys.len(),
        forall|i: int| 0 <= i < xs.len() ==> #[trigger] find_member(ys, xs[i].0) is Some,
        0 <= j < ys.len(),
    ensures
        exists|i: int| 0 <= i < xs.len() && xs[i].0 == ys[j].0,
{
    let nx = xs.map_values(|p: (Seq<char>, usize)| p.0);
    let ny = ys.map_values(|p: (Seq<char>, usize)| p.0);
    assert(nx.no_duplicates()) by {
        assert forall|a: int, b: int| 0 <= a < nx.len() && 0 <= b < nx.len() && a != b implies nx[a]
            != nx[b] by {
            assert(xs[a].0 != xs[b].0);
        }
    }
    assert(ny.no_duplicates()) by {
        assert forall|a: int, b: int| 0 <= a < ny.len() && 0 <= b < ny.len() && a != b implies ny[a]
            != ny[b] by {
            assert(ys[a].0 != ys[b].0);
        }
    }
    nx.unique_seq_to_set();
    ny.unique_seq_to_set();
    assert(nx.to_set().subset_of(ny.to_set())) by {
        assert forall|k: Seq<char>| nx.to_set().contains(k) implies ny.to_set().contains(k) by {
            let i = choose|i: int| 0 <= i < nx.len() && nx[i] == k;
            assert(find_member(ys, xs[i].0) is Some);
            let q = choose|q: int| 0 <= q < ys.len() && ys[q].0 == xs[i].0;
            assert(ny[q] == k);
        }
    }
    vstd::seq_lib::seq_to_set_is_finite(nx);
    vstd::seq_lib::seq_to_set_is_finite(ny);
    vstd::set_lib::lemma_subset_equality(nx.to_set(), ny.to_set());
    assert(ny.to_set().contains(ny[j]));
    assert(nx.to_set().contains(ys[j].0));
    let i = choose|i: int| 0 <= i < nx.len() && nx[i] == ys[j].0;
    assert(xs[i].0 == ys[j].0);
}

/// A comparison that finds two values equal finds them equal the other way
/// round too.
proof fn lemma_equal_both_ways(h: Seq<JsonNode>, a: usize, b: usize, fuel: nat)
    requires
        heap_wf(h),
        a < h.len(),
        b < h.len(),
        eq_outcome(h, a, b, fuel) == Some(true),
    ensures
        eq_outcome(h, b, a, fuel) == Some(true),
    decreases fuel,
{
    assert(node_wf(h[a as int], h.len() as int));
    assert(node_wf(h[b as int], h.len() as int));
    let f = (fuel - 1) as nat;
    match (h[a as int], h[b as int]) {
        (JsonNode::Array(xs), JsonNode::Array(ys)) => {
            lemma_items_eq_all(h, xs, ys, 0, f);
            lemma_items_eq_all(h, ys, xs, 0, f);
            assert forall|j: int| 0 <= j < ys.len() implies #[trigger] eq_outcome(h, ys[j], xs[j], f)
                == Some(true) by {
                assert(eq_outcome(h, xs[j], ys[j], f) == Some(true));
                assert(xs[j] < h.len());
                assert(ys[j] < h.len());
                lemma_equal_both_ways(h, xs[j], ys[j], f);
            }
        },
        (JsonNode::Object(xs), JsonNode::Object(ys)) => {
            lemma_members_eq_all(h, xs, ys, 0, f);
            lemma_members_eq_all(h, ys, xs, 0, f);
            assert forall|j: int| 0 <= j < ys.len() implies #[trigger] find_member(xs, ys[j].0) is Some
                && eq_outcome(h, ys[j].1, find_member(xs, ys[j].0)->Some_0, f) == Some(true) by {
                assert forall|i: int| 0 <= i < xs.len() implies #[trigger] find_member(ys, xs[i].0) is Some by {
                    assert(find_member(ys, xs[i].0) is Some && eq_outcome(
                        h,
                        xs[i].1,
                        find_member(ys, xs[i].0)->Some_0,
                        f,
                    ) == Some(true));
                }
                lemma_same_names(xs, ys, j);
                let i = choose|i: int| 0 <= i < xs.len() && xs[i].0 == ys[j].0;
                lemma_find_own_member(xs, i);
                lemma_find_own_member(ys, j);
                assert(find_member(ys, xs[i].0) is Some && eq_outcome(
                    h,
                    xs[i].1,
                    find_member(ys, xs[i].0)->Some_0,
                    f,
                ) == Some(true));
                assert(xs[i].1 < h.len());
                assert(ys[j].1 < h.len());
                lemma_equal_both_ways(h, xs[i].1, ys[j].1, f);
            }
        },
        _ => {},
    }
}

/// Cell `p` holds cell `c` as one of its items or member values.
pub open spec fn holds_cell(h: Seq<JsonNode>, p: usize, c: usize) -> bool {
    match h[p as int] {
        JsonNode::Array(xs) => exists|i: int| 0 <= i < xs.len() && xs[i] == c,
        JsonNode::Object(ms) => exists|i: int| 0 <= i < ms.len() && ms[i].1 == c,
        _ => false,
    }
}

/// `s` is a chain of containment: each of its cells holds the next.
pub open spec fn is_chain(h: Seq<JsonNode>, s: Seq<usize>) -> bool {
    forall|i: int| 0 <= i < s.len() - 1 ==> #[trigger] holds_cell(h, s[i], s[i + 1])
}

/// The value in cell `a` holds no value that contains itself (itself
/// included): no chain of containment from `a` passes a cell twice.
pub open spec fn self_free(h: Seq<JsonNode>, a: usize) -> bool {
    forall|s: Seq<usize>| #[trigger] is_chain(h, s) && s.len() > 0 && s[0] == a ==> s.no_duplicates()
}

/// Every chain of containment from cell `n` has fewer than `k` steps.
pub open spec fn nests_below(h: Seq<JsonNode>, n: usize, k: nat) -> bool
    decreases k,
{
    if k == 0 {
        false
    } else {
        match h[n as int] {
            JsonNode::Array(xs) => forall|i: int|
                #![trigger xs[i]]
                0 <= i < xs.len() ==> nests_below(h, xs[i], (k - 1) as nat),
            JsonNode::Object(ms) => forall|i: int|
                #![trigger ms[i]]
                0 <= i < ms.len() ==> nests_below(h, ms[i].1, (k - 1) as nat),
            _ => true,
        }
    }
}

/// A cell that does not nest `k` deep starts a chain of `k + 1` cells.
proof fn lemma_deep_chain(h: Seq<JsonNode>, a: usize, k: nat) -> (s: Seq<usize>)
    requires
        heap_wf(h),
        a < h.len(),
        !nests_below(h, a, k),
    ensures
        is_chain(h, s),
        s.len() == k + 1,
        s[0] == a,
    decreases k,
{
    if k == 0 {
        seq![a]
    } else {
        assert(node_wf(h[a as int], h.len() as int));
        let c: usize = match h[a as int] {
            JsonNode::Array(xs) => {
                let i = choose|i: int| 0 <= i < xs.len() && !nests_below(h, xs[i], (k - 1) as nat);
                xs[i]
            },
            JsonNode::Object(ms) => {
                let i = choose|i: int| 0 <= i < ms.len() && !nests_below(h, ms[i].1, (k - 1) as nat);
                ms[i].1
            },
            _ => a,
        };
        assert(holds_cell(h, a, c) && c < h.len() && !nests_below(h, c, (k - 1) as nat)) by {
            match h[a as int] {
                JsonNode::Array(xs) => {
                    let i = choose|i: int| 0 <= i < xs.len() && !nests_below(h, xs[i], (k - 1) as nat);
                    assert(xs[i] == c);
                },
                JsonNode::Object(ms) => {
                    let i = choose|i: int| 0 <= i < ms.len() && !nests_below(h, ms[i].1, (k - 1) as nat);
                    assert(ms[i].1 == c);
                },
                _ => {},
            }
        }
        let rest = lemma_deep_chain(h, c, (k - 1) as nat);
        let s = seq![a] + rest;
        assert forall|i: int| 0 <= i < s.len() - 1 implies #[trigger] holds_cell(h, s[i], s[i + 1]) by {
            if i > 0 {
                assert(s[i] == rest[i - 1]);
                assert(s[i + 1] == rest[(i - 1) + 1]);
                assert(holds_cell(h, rest[i - 1], rest[(i - 1) + 1]));
            }
        }
        s
    }
}

/// Cells of a heap of `n` cells that are all different number at most `n`.
proof fn lemma_distinct_cells_fit(s: Seq<usize>, n: nat)
    requires
        s.no_duplicates(),
        forall|i: int| 0 <= i < s.len() ==> #[trigger] s[i] < n,
    ensures
        s.len() <= n,
{
    let t = s.map_values(|x: usize| x as int);
    assert(t.no_duplicates()) by {
        assert forall|i: int, j: int| 0 <= i < t.len() && 0 <= j < t.len() && i != j implies t[i]
            != t[j] by {
            assert(s[i] != s[j]);
        }
    }
    t.unique_seq_to_set();
    vstd::set_lib::lemma_int_range(0, n as int);
    assert(t.to_set().subset_of(vstd::set_lib::set_int_range(0, n as int))) by {
        assert forall|x: int| t.to_set().contains(x) implies vstd::set_lib::set_int_range(
            0,
            n as int,
        ).contains(x) by {
            let i = choose|i: int| 0 <= i < t.len() && t[i] == x;
            assert(s[i] < n);
        }
    }
    vstd::set_lib::lemma_len_subset(t.to_set(), vstd::set_lib::set_int_range(0, n as int));
}

/// A value that holds no value containing itself nests less deep than the
/// heap has cells.
pub proof fn lemma_self_free_nests_below(h: Seq<JsonNode>, a: usize)
    requires
        heap_wf(h),
        a < h.len(),
        self_free(h, a),
    ensures
        nests_below(h, a, h.len()),
{
    if !nests_below(h, a, h.len()) {
        let s = lemma_deep_chain(h, a, h.len());
        assert(s.no_duplicates());
        assert forall|i: int| 0 <= i < s.len() implies #[trigger] s[i] < h.len() by {
            lemma_chain_in_heap(h, s, i);
        }
        lemma_distinct_cells_fit(s, h.len());
    }
}

/// Every cell of a chain from a cell of a well-formed heap is a cell of it.
proof fn lemma_chain_in_heap(h: Seq<JsonNode>, s: Seq<usize>, i: int)
    requires
        heap_wf(h),
        is_chain(h, s),
        s.len() > 0,
        s[0] < h.len(),
        0 <= i < s.len(),
    ensures
        s[i] < h.len(),
    decreases i,
{
    if i > 0 {
        lemma_chain_in_heap(h, s, i - 1);
        assert(holds_cell(h, s[i - 1], s[(i - 1) + 1]));
        assert(node_wf(h[s[i - 1] as int], h.len() as int));
        match h[s[i - 1] as int] {
            JsonNode::Array(xs) => {
                let j = choose|j: int| 0 <= j < xs.len() && xs[j] == s[i];
                assert(xs[j] < h.len());
            },
            JsonNode::Object(ms) => {
                let j = choose|j: int| 0 <= j < ms.len() && ms[j].1 == s[i];
                assert(ms[j].1 < h.len());
            },
            _ => {},
        }
    }
}

/// Items compared one by one, each comparison answering, answer.
proof fn lemma_items_answer(h: Seq<JsonNode>, xs: Seq<usize>, ys: Seq<usize>, i: nat, fuel: nat)
    requires
        forall|j: int| i <= j < xs.len() ==> #[trigger] eq_outcome(h, xs[j], ys[j], fuel) is Some,
    ensures
        items_eq(h, xs, ys, i, fuel) is Some,
    decreases xs.len() - i,
{
    if i < xs.len() {
        assert(eq_outcome(h, xs[i as int], ys[i as int], fuel) is Some);
        lemma_items_answer(h, xs, ys, i + 1, fuel);
    }
}

/// Members compared one by one, each comparison with a namesake
/// answering, answer.
proof fn lemma_members_answer(
    h: Seq<JsonNode>,
    xs: Seq<(Seq<char>, usize)>,
    ys: Seq<(Seq<char>, usize)>,
    i: nat,
    fuel: nat,
)
    requires
        forall|j: int|
            i <= j < xs.len() && #[trigger] find_member(ys, xs[j].0) is Some ==> eq_outcome(
                h,
                xs[j].1,
                find_member(ys, xs[j].0)->Some_0,
                fuel,
            ) is Some,
    ensures
        members_eq(h, xs, ys, i, fuel) is Some,
    decreases xs.len() - i,
{
    if i < xs.len() {
        assert(find_member(ys, xs[i as int].0) is Some ==> eq_outcome(
            h,
            xs[i as int].1,
            find_member(ys, xs[i as int].0)->Some_0,
            fuel,
        ) is Some);
        lemma_members_answer(h, xs, ys, i + 1, fuel);
    }
}

/// Comparing cell `a`, which nests less than `k` deep, with any cell
/// answers when the fuel is at least `k`.
proof fn lemma_nesting_answers(h: Seq<JsonNode>, a: usize, b: usize, k: nat, fuel: nat)
    requires
        heap_wf(h),
        a < h.len(),
        b < h.len(),
        nests_below(h, a, k),
        k <= fuel,
    ensures
        eq_outcome(h, a, b, fuel) is Some,
    decreases fuel,
{
    assert(node_wf(h[a as int], h.len() as int));
    assert(node_wf(h[b as int], h.len() as int));
    let f = (fuel - 1) as nat;
    let k1 = (k - 1) as nat;
    match (h[a as int], h[b as int]) {
        (JsonNode::Array(xs), JsonNode::Array(ys)) => {
            if xs.len() == ys.len() {
                assert forall|j: int| 0 <= j < xs.len() implies #[trigger] eq_outcome(h, xs[j], ys[j], f)
                    is Some by {
                    assert(nests_below(h, xs[j], k1));
                    lemma_nesting_answers(h, xs[j], ys[j], k1, f);
                }
                lemma_items_answer(h, xs, ys, 0, f);
            }
        },
        (JsonNode::Object(xs), JsonNode::Object(ys)) => {
            if xs.len() == ys.len() {
                assert forall|j: int|
                    0 <= j < xs.len() && #[trigger] find_member(ys, xs[j].0) is Some implies eq_outcome(
                    h,
                    xs[j].1,
                    find_member(ys, xs[j].0)->Some_0,
                    f,
                ) is Some by {
                    let q = choose|q: int| 0 <= q < ys.len() && ys[q].0 == xs[j].0;
                    assert(ys[q].1 < h.len());
                    assert(nests_below(h, xs[j].1, k1));
                    lemma_nesting_answers(h, xs[j].1, ys[q].1, k1, f);
                }
                lemma_members_answer(h, xs, ys, 0, f);
            }
        },
        _ => {},
    }
}

/// Comparing a value that holds no value containing itself always comes to
/// an answer, with any fuel at least the number of cells (as the fuel of
/// `comparison_fuel` is); and such a value is found equal to itself.
pub proof fn law_equals_answers(h: Seq<JsonNode>, a: usize, b: usize, fuel: nat)
    requires
        heap_wf(h),
        a < h.len(),
        b < h.len(),
        self_free(h, a),
        fuel >= h.len(),
    ensures
        eq_outcome(h, a, b, fuel) is Some,
        eq_outcome(h, a, a, fuel) == Some(true),
{
    lemma_self_free_nests_below(h, a);
    lemma_nesting_answers(h, a, b, h.len(), fuel);
    lemma_nesting_answers(h, a, a, h.len(), fuel);
    law_equals_reflexive(h, a, fuel);
}

/// The fuel of `comparison_fuel` is at least the number of cells of any
/// heap that a `Vec` can hold.
pub proof fn lemma_comparison_fuel_covers_cells(len: nat)
    requires
        len <= usize::MAX,
    ensures
        comparison_fuel(len) >= len,
{
    assert(len <= len * len + 1) by (nonlinear_arith);
}

/// How numbers compare: every number equals itself, and the comparison is
/// symmetric; numbers of different kinds are never equal; two unsigned
/// (or two negative) integers are equal exactly when they are the same
/// integer; two floats with the same bits are equal, a float that is not
/// zero equals only the float with its very bits (so 1.5 and -1.5 differ),
/// and 0.0 equals -0.0.
pub proof fn law_number_equality(a: Number, b: Number)
    ensures
        number_eq(a, a),
        number_eq(a, b) == number_eq(b, a),
        (a is PosInt && !(b is PosInt)) ==> !number_eq(a, b),
        (a is NegInt && !(b is NegInt)) ==> !number_eq(a, b),
        (a is Float && !(b is Float)) ==> !number_eq(a, b),
        (a is PosInt && b is PosInt) ==> (number_eq(a, b) <==> a->PosInt_0 == b->PosInt_0),
        (a is NegInt && b is NegInt) ==> (number_eq(a, b) <==> a->NegInt_0 == b->NegInt_0),
        (a is Float && b is Float && a->Float_0 & 0x7fff_ffff_ffff_ffffu64 != 0) ==> (number_eq(a, b)
            <==> a->Float_0 == b->Float_0),
        (a is Float && b is Float && a->Float_0 == b->Float_0) ==> number_eq(a, b),
        number_eq(Number::Float(0), Number::Float(0x8000_0000_0000_0000u64)),
{
    assert(0u64 & 0x7fff_ffff_ffff_ffffu64 == 0) by (bit_vector);
    assert(0x8000_0000_0000_0000u64 & 0x7fff_ffff_ffff_ffffu64 == 0) by (bit_vector);
    assert(f64_magnitude_mask() == 0x7fff_ffff_ffff_ffffu64);
}

/// Comparing two cells that hold no container answers at once: two
/// strings are equal exactly when they are the same text, two numbers as
/// `law_number_equality` says, two booleans when they are the same, nulls
/// always, and values of different kinds never.
pub proof fn law_equals_scalars(h: Seq<JsonNode>, a: usize, b: usize, fuel: nat)
    requires
        a < h.len(),
        b < h.len(),
        fuel > 0,
    ensures
        h[a as int] matches JsonNode::String(x) ==> (h[b as int] matches JsonNode::String(y)
            ==> eq_outcome(h, a, b, fuel) == Some(x == y)),
        h[a as int] matches JsonNode::String(x) ==> (h[b as int] matches JsonNode::String(y) ==> (
        x.len() != y.len() ==> eq_outcome(h, a, b, fuel) == Some(false))),
        h[a as int] matches JsonNode::Number(x) ==> (h[b as int] matches JsonNode::Number(y)
            ==> eq_outcome(h, a, b, fuel) == Some(number_eq(x, y))),
        ({
            let x = h[a as int]->Number_0;
            let y = h[b as int]->Number_0;
            h[a as int] is Number && h[b as int] is Number && x is Float && y is Float && (x->Float_0
                & 0x7fff_ffff_ffff_ffffu64) != 0 ==> eq_outcome(h, a, b, fuel) == Some(
                x->Float_0 == y->Float_0,
            )
        }),
        h[a as int] matches JsonNode::Bool(x) ==> (h[b as int] matches JsonNode::Bool(y)
            ==> eq_outcome(h, a, b, fuel) == Some(x == y)),
        (h[a as int] is Null && h[b as int] is Null) ==> eq_outcome(h, a, b, fuel) == Some(true),
        type_code(h[a as int]) != type_code(h[b as int]) ==> eq_outcome(h, a, b, fuel) == Some(false),
{
    match (h[a as int], h[b as int]) {
        (JsonNode::Number(x), JsonNode::Number(y)) => {
            law_number_equality(x, y);
            assert(eq_outcome(h, a, b, fuel) == Some(number_eq(x, y)));
        },
        (JsonNode::String(x), JsonNode::String(y)) => {
            assert(eq_outcome(h, a, b, fuel) == Some(x == y));
        },
        _ => {},
    }
}

/// The type codes that scripts see: 1 null, 2 string, 3 number, 4 object,
/// 5 array, 6 boolean; values of different kinds have different codes.
pub proof fn law_type_codes(a: JsonNode, b: JsonNode)
    ensures
        a is Null ==> type_code(a) == 1,
        a is String ==> type_code(a) == 2,
        a is Number ==> type_code(a) == 3,
        a is Object ==> type_code(a) == 4,
        a is Array ==> type_code(a) == 5,
        a is Bool ==> type_code(a) == 6,
        type_code(a) == type_code(b) ==> (a is Null <==> b is Null) && (a is String <==> b is String)
            && (a is Number <==> b is Number) && (a is Object <==> b is Object) && (a is Array
            <==> b is Array) && (a is Bool <==> b is Bool),
{
}

/// A number made from an integer is that integer, of the kind serde_json
/// gives it: an unsigned integer for 0 and up, a negative one below 0. So
/// the number made from 0 equals the unsigned 0 that parsing "0" gives.
pub proof fn law_number_from_integer(n: isize)
    ensures
        n >= 0 ==> Number::spec_from_isize(n) == Number::PosInt(n as u64),
        n < 0 ==> Number::spec_from_isize(n) == Number::NegInt(n as i64),
        n >= 0 ==> number_eq(Number::spec_from_isize(n), Number::PosInt(n as u64)),
        Number::spec_from_isize(n).spec_as_i64() == Some(n as i64),
{
}

/// A name with no dot is a single part.
pub proof fn lemma_split_dots_no_dot(name: Seq<char>)
    requires
        forall|i: int| 0 <= i < name.len() ==> #[trigger] name[i] != '.',
    ensures
        split_dots(name) == seq![name],
    decreases name.len(),
{
    if name.len() > 0 {
        let p = name.drop_last();
        assert forall|i: int| 0 <= i < p.len() implies #[trigger] p[i] != '.' by {
            assert(p[i] == name[i]);
        }
        lemma_split_dots_no_dot(p);
        assert(name[name.len() - 1] != '.');
        assert(p.push(name.last()) =~= name);
        let parts = split_dots(p);
        assert(parts.len() == 1 && parts.last() == p);
        assert(split_dots(name) == parts.update(0, p.push(name.last())));
        assert(seq![p].update(0, p.push(name.last())) =~= seq![name]);
    } else {
        assert(name =~= Seq::<char>::empty());
    }
}

/// Splitting `a`, a dot and `b` gives the parts of `a` followed by the parts
/// of `b`.
pub proof fn lemma_split_dots_concat(a: Seq<char>, b: Seq<char>)
    ensures
        split_dots(a + seq!['.'] + b) == split_dots(a) + split_dots(b),
    decreases b.len(),
{
    let s = a + seq!['.'] + b;
    lemma_split_dots_len(a);
    if b.len() == 0 {
        assert(s.drop_last() =~= a);
        assert(split_dots(a).push(Seq::<char>::empty()) =~= split_dots(a) + seq![Seq::<char>::empty()]);
    } else {
        let b0 = b.drop_last();
        assert(s.drop_last() =~= a + seq!['.'] + b0);
        lemma_split_dots_concat(a, b0);
        lemma_split_dots_len(b0);
        let pa = split_dots(a);
        let pb = split_dots(b0);
        if b.last() == '.' {
            assert((pa + pb).push(Seq::<char>::empty()) =~= pa + pb.push(Seq::<char>::empty()));
        } else {
            let q = pa + pb;
            assert(q.update(q.len() - 1, q.last().push(b.last())) =~= pa + pb.update(
                pb.len() - 1,
                pb.last().push(b.last()),
            ));
        }
    }
}

/// Following `s1` and then `s2` from a cell is following `s2` from where
/// `s1` ends, if `s1` ends at a cell; otherwise it fails as `s1` does.
pub proof fn lemma_walk_concat(h: Seq<JsonNode>, n: usize, s1: Seq<Seq<char>>, s2: Seq<Seq<char>>)
    ensures
        walk(h, n, s1 + s2) == match walk(h, n, s1) {
            Lookup::Found(m) => walk(h, m, s2),
            other => other,
        },
    decreases s2.len(),
{
    if s2.len() == 0 {
        assert(s1 + s2 =~= s1);
    } else {
        assert((s1 + s2).drop_last() =~= s1 + s2.drop_last());
        lemma_walk_concat(h, n, s1, s2.drop_last());
    }
}

/// A dotted name is looked up part by part: `a.b` is `b` looked up in what
/// `a` finds, and a failure on the way to it is the failure of the whole.
pub proof fn law_dot_path(h: Seq<JsonNode>, n: usize, a: Seq<char>, b: Seq<char>)
    ensures
        lookup(h, n, a + seq!['.'] + b, true) == match lookup(h, n, a, true) {
            Lookup::Found(m) => lookup(h, m, b, true),
            other => other,
        },
{
    lemma_split_dots_concat(a, b);
    lemma_walk_concat(h, n, split_dots(a), split_dots(b));
}

/// With dot notation, a name that holds no dot is looked up as one member
/// name, as without it.
pub proof fn law_dotless_name(h: Seq<JsonNode>, n: usize, name: Seq<char>)
    requires
        name.len() > 0,
        forall|i: int| 0 <= i < name.len() ==> #[trigger] name[i] != '.',
    ensures
        lookup(h, n, name, true) == lookup(h, n, name, false),
{
    lemma_split_dots_no_dot(name);
    let segs = seq![name];
    assert(segs.drop_last() =~= Seq::<Seq<char>>::empty());
    assert(walk(h, n, segs.drop_last()) == Lookup::Found(n));
    assert(segs.last() == name);
    assert(walk(h, n, segs) == step(h, n, name));
}

/// Setting a member that exists makes it refer to the new cell, keeps every
/// member's name and place, and leaves the other members as they were.
pub proof fn law_set_member(entries: Seq<(Seq<char>, usize)>, key: Seq<char>, c: usize)
    requires
        keys_unique(entries),
        find_member(entries, key) is Some,
    ensures
        find_member(insert_member(entries, key, c), key) == Some(c),
        insert_member(entries, key, c).len() == entries.len(),
        forall|i: int| 0 <= i < entries.len() ==> (#[trigger] insert_member(entries, key, c)[i]).0 == entries[i].0,
        forall|k: Seq<char>| k != key ==> find_member(insert_member(entries, key, c), k) == find_member(entries, k),
{
    let i = member_index(entries, key)->0;
    let r = insert_member(entries, key, c);
    assert(r == entries.update(i, (key, c)));
    assert(r[i].0 == key);
    assert(member_index(r, key) == Some(i)) by {
        let q = choose|q: int| 0 <= q < r.len() && r[q].0 == key;
        assert(0 <= q < r.len() && r[q].0 == key);
        if q != i {
            assert(r[q] == entries[q]);
            assert(entries[q].0 != entries[i].0);
        }
    }
    assert forall|k: Seq<char>| k != key implies find_member(r, k) == find_member(entries, k) by {
        assert forall|q: int| 0 <= q < r.len() implies (r[q].0 == k) == (entries[q].0 == k) by {
            if q == i {
                assert(r[q].0 == key);
            }
        }
        if exists|q: int| 0 <= q < entries.len() && entries[q].0 == k {
            let q1 = choose|q: int| 0 <= q < r.len() && r[q].0 == k;
            let q2 = choose|q: int| 0 <= q < entries.len() && entries[q].0 == k;
            assert(0 <= q2 < entries.len() && entries[q2].0 == k);
            assert(r[q2].0 == k);
            assert(0 <= q1 < r.len() && r[q1].0 == k);
            if q1 != q2 {
                assert(entries[q1].0 == k);
                assert(entries[q1].0 != entries[q2].0);
            }
            assert(q1 != i);
            assert(r[q1] == entries[q1]);
        } else {
            assert(!exists|q: int| 0 <= q < r.len() && r[q].0 == k);
        }
    }
}

/// After the member named `key` is swap-removed, no member has that name,
/// and one member fewer is left if there was one.
pub proof fn law_removed_member_gone(entries: Seq<(Seq<char>, usize)>, key: Seq<char>)
    requires
        keys_unique(entries),
    ensures
        find_member(swap_remove_member(entries, key), key) is None,
        swap_remove_member(entries, key).len() == if find_member(entries, key) is Some {
            entries.len() - 1
        } else {
            entries.len() as int
        },
{
    let r = swap_remove_member(entries, key);
    match member_index(entries, key) {
        Some(i) => {
            let last = entries.len() - 1;
            assert(0 <= i < entries.len() && entries[i].0 == key);
            assert forall|q: int| 0 <= q < r.len() implies r[q].0 != key by {
                if q == i {
                    assert(r[q] == entries[last]);
                    if last != i {
                        assert(entries[last].0 != entries[i].0);
                    }
                } else {
                    assert(r[q] == entries[q]);
                    assert(entries[q].0 != entries[i].0);
                }
            }
        },
        None => {},
    }
}

/// In a well-formed heap, a walk from one of its cells ends at one of its
/// cells.
pub proof fn lemma_walk_in_bounds(h: Seq<JsonNode>, n: usize, segs: Seq<Seq<char>>)
    requires
        heap_wf(h),
        n < h.len(),
    ensures
        walk(h, n, segs) matches Lookup::Found(m) ==> m < h.len(),
    decreases segs.len(),
{
    if segs.len() > 0 {
        lemma_walk_in_bounds(h, n, segs.drop_last());
        match walk(h, n, segs.drop_last()) {
            Lookup::Found(m) => {
                assert(node_wf(h[m as int], h.len() as int));
                match h[m as int] {
                    JsonNode::Object(entries) => {
                        match member_index(entries, segs.last()) {
                            Some(i) => {
                                assert(entries[i].1 < h.len());
                            },
                            None => {},
                        }
                    },
                    _ => {},
                }
            },
            _ => {},
        }
    }
}

/// Following `segs` from cell `n` never leaves cell `p` through the member
/// named `k`.
pub open spec fn avoids_member(h: Seq<JsonNode>, n: usize, segs: Seq<Seq<char>>, p: usize, k: Seq<char>) -> bool {
    forall|j: int|
        0 <= j < segs.len() && #[trigger] walk(h, n, segs.take(j)) == Lookup::Found(p) ==> segs[j] != k
}

/// Changing only which cell member `k` of the object in cell `p` refers to
/// leaves every walk that never leaves `p` through `k` as it was.
pub proof fn lemma_walk_after_set_member(
    h: Seq<JsonNode>,
    n: usize,
    segs: Seq<Seq<char>>,
    p: usize,
    k: Seq<char>,
    c: usize,
)
    requires
        heap_wf(h),
        n < h.len(),
        0 <= p < h.len(),
        h[p as int] is Object,
        find_member(h[p as int]->Object_0, k) is Some,
        avoids_member(h, n, segs, p, k),
    ensures
        walk(h.update(p as int, JsonNode::Object(insert_member(h[p as int]->Object_0, k, c))), n, segs)
            == walk(h, n, segs),
    decreases segs.len(),
{
    let h2 = h.update(p as int, JsonNode::Object(insert_member(h[p as int]->Object_0, k, c)));
    if segs.len() > 0 {
        let front = segs.drop_last();
        assert forall|j: int|
            0 <= j < front.len() && #[trigger] walk(h, n, front.take(j)) == Lookup::Found(p) implies front[j]
            != k by {
            assert(front.take(j) =~= segs.take(j));
            assert(walk(h, n, segs.take(j)) == Lookup::Found(p));
        }
        lemma_walk_after_set_member(h, n, front, p, k, c);
        lemma_walk_in_bounds(h, n, front);
        assert(node_wf(h[p as int], h.len() as int));
        match walk(h, n, front) {
            Lookup::Found(m) => {
                if m == p && segs.last().len() != 0 {
                    assert(front =~= segs.take(segs.len() - 1));
                    assert(segs[segs.len() - 1] != k);
                    law_set_member(h[p as int]->Object_0, k, c);
                }
            },
            _ => {},
        }
    }
}

/// Every cell that `node` refers to is marked in `marked`.
pub open spec fn refs_marked(node: JsonNode, marked: Seq<bool>) -> bool {
    match node {
        JsonNode::Array(items) => forall|i: int| #![trigger items[i]] 0 <= i < items.len() ==> marked[items[i] as int],
        JsonNode::Object(entries) => forall|i: int|
            #![trigger entries[i]]
            0 <= i < entries.len() ==> marked[entries[i].1 as int],
        _ => true,
    }
}

/// The marks cover the heap, and a marked cell refers only to marked cells.
pub open spec fn marks_closed(h: Seq<JsonNode>, marked: Seq<bool>) -> bool {
    &&& marked.len() == h.len()
    &&& forall|c: int| 0 <= c < h.len() && #[trigger] marked[c] ==> refs_marked(h[c], marked)
}

/// Every root is marked.
pub open spec fn roots_marked(roots: Set<usize>, marked: Seq<bool>) -> bool {
    forall|c: usize| #[trigger] roots.contains(c) ==> marked[c as int]
}

/// `marked` marks exactly the cells that can be reached from the roots:
/// it is closed and marks every root, and any other closed marking of the
/// roots marks at least as much.
pub open spec fn reachable_marks(h: Seq<JsonNode>, roots: Set<usize>, marked: Seq<bool>) -> bool {
    &&& marks_closed(h, marked)
    &&& roots_marked(roots, marked)
    &&& forall|m2: Seq<bool>|
        marks_closed(h, m2) && roots_marked(roots, m2) ==> forall|c: int|
            0 <= c < h.len() && #[trigger] marked[c] ==> m2[c]
}

/// The heap with every cell that is not marked emptied to `null`.
pub open spec fn swept(h: Seq<JsonNode>, marked: Seq<bool>) -> Seq<JsonNode> {
    Seq::new(h.len(), |c: int| if marked[c] { h[c] } else { JsonNode::Null })
}

/// How many cells are not marked.
pub open spec fn unmarked_count(marked: Seq<bool>) -> nat
    decreases marked.len(),
{
    if marked.len() == 0 {
        0
    } else {
        unmarked_count(marked.drop_last()) + if marked.last() {
            0nat
        } else {
            1nat
        }
    }
}

/// Marking a cell that was not marked leaves one fewer unmarked.
pub proof fn lemma_mark_one(marked: Seq<bool>, i: int)
    requires
        0 <= i < marked.len(),
        !marked[i],
    ensures
        unmarked_count(marked.update(i, true)) + 1 == unmarked_count(marked),
    decreases marked.len(),
{
    let m2 = marked.update(i, true);
    if i == marked.len() - 1 {
        assert(m2.drop_last() =~= marked.drop_last());
    } else {
        assert(m2.drop_last() =~= marked.drop_last().update(i, true));
        lemma_mark_one(marked.drop_last(), i);
    }
}

/// Marking more cells keeps a node's references marked.
pub proof fn lemma_refs_marked_grow(node: JsonNode, m1: Seq<bool>, m2: Seq<bool>)
    requires
        refs_marked(node, m1),
        m1.len() == m2.len(),
        forall|x: int| 0 <= x < m1.len() && #[trigger] m1[x] ==> m2[x],
        node_wf(node, m1.len() as int),
    ensures
        refs_marked(node, m2),
{
}

/// A value read from a marked cell of a closed marking reads the same in a
/// heap that agrees on every marked cell.
pub proof fn lemma_unfold_marked(h: Seq<JsonNode>, h2: Seq<JsonNode>, marked: Seq<bool>, n: usize, limit: nat)
    requires
        marks_closed(h, marked),
        h2.len() == h.len(),
        forall|c: int| 0 <= c < h.len() && #[trigger] marked[c] ==> h2[c] == h[c],
        n < h.len(),
        marked[n as int],
        heap_wf(h),
    ensures
        unfold(h2, n, limit) == unfold(h, n, limit),
    decreases limit,
{
    assert(node_wf(h[n as int], h.len() as int));
    assert(refs_marked(h[n as int], marked));
    match h[n as int] {
        JsonNode::Array(items) => {
            if limit >= 2 {
                assert forall|i: int| 0 <= i < items.len() implies unfold(
                    h2,
                    #[trigger] items[i],
                    (limit - 1) as nat,
                ) == unfold(h, items[i], (limit - 1) as nat) by {
                    lemma_unfold_marked(h, h2, marked, items[i], (limit - 1) as nat);
                }
                assert(unfold(h2, n, limit)->Array_0 =~= unfold(h, n, limit)->Array_0);
            }
        },
        JsonNode::Object(entries) => {
            if limit >= 2 {
                assert forall|i: int| 0 <= i < entries.len() implies unfold(
                    h2,
                    (#[trigger] entries[i]).1,
                    (limit - 1) as nat,
                ) == unfold(h, entries[i].1, (limit - 1) as nat) by {
                    lemma_unfold_marked(h, h2, marked, entries[i].1, (limit - 1) as nat);
                }
                assert(unfold(h2, n, limit)->Object_0 =~= unfold(h, n, limit)->Object_0);
            }
        },
        _ => {},
    }
}

/// A lookup from a marked cell of a closed marking ends the same in a heap
/// that agrees on every marked cell.
pub proof fn lemma_walk_marked(h: Seq<JsonNode>, h2: Seq<JsonNode>, marked: Seq<bool>, n: usize, segs: Seq<Seq<char>>)
    requires
        marks_closed(h, marked),
        h2.len() == h.len(),
        forall|c: int| 0 <= c < h.len() && #[trigger] marked[c] ==> h2[c] == h[c],
        n < h.len(),
        marked[n as int],
        heap_wf(h),
    ensures
        walk(h2, n, segs) == walk(h, n, segs),
        walk(h, n, segs) matches Lookup::Found(m) ==> m < h.len() && marked[m as int],
    decreases segs.len(),
{
    if segs.len() > 0 {
        lemma_walk_marked(h, h2, marked, n, segs.drop_last());
        match walk(h, n, segs.drop_last()) {
            Lookup::Found(m) => {
                assert(node_wf(h[m as int], h.len() as int));
                assert(refs_marked(h[m as int], marked));
                match h[m as int] {
                    JsonNode::Object(entries) => {
                        match member_index(entries, segs.last()) {
                            Some(i) => {
                                assert(entries[i].1 < h.len());
                                assert(marked[entries[i].1 as int]);
                            },
                            None => {},
                        }
                    },
                    _ => {},
                }
            },
            _ => {},
        }
    }
}

/// A comparison between marked cells of a closed marking comes out the same
/// in a heap that agrees on every marked cell.
pub proof fn lemma_eq_marked(h: Seq<JsonNode>, h2: Seq<JsonNode>, marked: Seq<bool>, a: usize, b: usize, fuel: nat)
    requires
        marks_closed(h, marked),
        h2.len() == h.len(),
        forall|c: int| 0 <= c < h.len() && #[trigger] marked[c] ==> h2[c] == h[c],
        a < h.len(),
        b < h.len(),
        marked[a as int],
        marked[b as int],
        heap_wf(h),
    ensures
        eq_outcome(h2, a, b, fuel) == eq_outcome(h, a, b, fuel),
    decreases fuel, 0nat, 0nat,
{
    if fuel > 0 {
        assert(node_wf(h[a as int], h.len() as int));
        assert(node_wf(h[b as int], h.len() as int));
        assert(refs_marked(h[a as int], marked));
        assert(refs_marked(h[b as int], marked));
        match (h[a as int], h[b as int]) {
            (JsonNode::Array(xs), JsonNode::Array(ys)) => {
                if xs.len() == ys.len() {
                    lemma_items_marked(h, h2, marked, xs, ys, 0, (fuel - 1) as nat);
                }
            },
            (JsonNode::Object(xs), JsonNode::Object(ys)) => {
                if xs.len() == ys.len() {
                    lemma_members_marked(h, h2, marked, xs, ys, 0, (fuel - 1) as nat);
                }
            },
            _ => {},
        }
    }
}

proof fn lemma_items_marked(
    h: Seq<JsonNode>,
    h2: Seq<JsonNode>,
    marked: Seq<bool>,
    xs: Seq<usize>,
    ys: Seq<usize>,
    i: nat,
    fuel: nat,
)
    requires
        marks_closed(h, marked),
        h2.len() == h.len(),
        forall|c: int| 0 <= c < h.len() && #[trigger] marked[c] ==> h2[c] == h[c],
        heap_wf(h),
        xs.len() == ys.len(),
        forall|j: int| 0 <= j < xs.len() ==> #[trigger] xs[j] < h.len() && marked[xs[j] as int],
        forall|j: int| 0 <= j < ys.len() ==> #[trigger] ys[j] < h.len() && marked[ys[j] as int],
    ensures
        items_eq(h2, xs, ys, i, fuel) == items_eq(h, xs, ys, i, fuel),
    decreases fuel, 1nat, xs.len() - i,
{
    if i < xs.len() {
        lemma_eq_marked(h, h2, marked, xs[i as int], ys[i as int], fuel);
        lemma_items_marked(h, h2, marked, xs, ys, i + 1, fuel);
    }
}

proof fn lemma_members_marked(
    h: Seq<JsonNode>,
    h2: Seq<JsonNode>,
    marked: Seq<bool>,
    xs: Seq<(Seq<char>, usize)>,
    ys: Seq<(Seq<char>, usize)>,
    i: nat,
    fuel: nat,
)
    requires
        marks_closed(h, marked),
        h2.len() == h.len(),
        forall|c: int| 0 <= c < h.len() && #[trigger] marked[c] ==> h2[c] == h[c],
        heap_wf(h),
        forall|j: int| 0 <= j < xs.len() ==> #[trigger] xs[j].1 < h.len() && marked[xs[j].1 as int],
        forall|j: int| 0 <= j < ys.len() ==> #[trigger] ys[j].1 < h.len() && marked[ys[j].1 as int],
    ensures
        members_eq(h2, xs, ys, i, fuel) == members_eq(h, xs, ys, i, fuel),
    decreases fuel, 1nat, xs.len() - i,
{
    if i < xs.len() {
        match member_index(ys, xs[i as int].0) {
            Some(q) => {
                assert(ys[q].1 < h.len() && marked[ys[q].1 as int]);
                lemma_eq_marked(h, h2, marked, xs[i as int].1, ys[q].1, fuel);
            },
            None => {},
        }
        lemma_members_marked(h, h2, marked, xs, ys, i + 1, fuel);
    }
}

impl InnerValue {
    /// This value written out as a tree, down to `recursion_limit` levels:
    /// a container at the last level is written out empty.
    pub fn into_with_recursion_limit(&self, heap: &JsonHeap, recursion_limit: usize) -> (r: JsonTree)
        requires
            heap.wf(),
            node_wf(self@, heap@.len() as int),
            limit_ok(self@, recursion_limit as nat),
        ensures
            r.tree_view() == unfold_node(heap@, self@, recursion_limit as nat),
        decreases recursion_limit,
    {
        match self {
            InnerValue::Null => JsonTree::Null,
            InnerValue::Bool(b) => JsonTree::Bool(*b),
            InnerValue::Number(x) => JsonTree::Number(*x),
            InnerValue::String(s) => JsonTree::String(s.clone()),
            InnerValue::Array(items) => {
                let ghost cells = cells_of(items@);
                assert(self@->Array_0 == cells);
                let mut out: Vec<JsonTree> = Vec::new();
                let n = items.len();
                let mut i: usize = 0;
                while i < n
                    invariant
                        heap.wf(),
                        n == items@.len(),
                        cells == cells_of(items@),
                        forall|j: int| 0 <= j < n ==> #[trigger] cells[j] < heap@.len(),
                        n > 0 ==> recursion_limit >= 1,
                        0 <= i <= n,
                        recursion_limit >= 2 ==> out@.len() == i,
                        recursion_limit < 2 ==> out@.len() == 0,
                        forall|j: int|
                            0 <= j < out@.len() ==> (#[trigger] out@[j]).tree_view() == unfold_node(
                                heap@,
                                heap@[cells[j] as int],
                                (recursion_limit - 1) as nat,
                            ),
                    decreases n - i,
                {
                    if recursion_limit - 1 != 0 {
                        proof {
                            assert(cells[i as int] == items@[i as int].cell);
                            assert(node_wf(heap@[cells[i as int] as int], heap@.len() as int));
                        }
                        let child = heap.get(items[i]);
                        let t = child.into_with_recursion_limit(heap, recursion_limit - 1);
                        out.push(t);
                    }
                    i = i + 1;
                }
                let r = JsonTree::Array(out);
                proof {
                    if recursion_limit >= 2 {
                        assert(r.tree_view()->Array_0 =~= unfold_node(heap@, self@, recursion_limit as nat)->Array_0);
                    } else {
                        assert(r.tree_view()->Array_0 =~= Seq::<TreeView>::empty());
                    }
                    assert(self@ == JsonNode::Array(cells));
                    assert(r.tree_view() == unfold_node(heap@, self@, recursion_limit as nat));
                }
                r
            },
            InnerValue::Object(m) => {
                let ghost es = object_entries(*m);
                assert(self@->Object_0 == es);
                let mut out: Vec<(String, JsonTree)> = Vec::new();
                let n = object_map_len(m);
                let mut i: usize = 0;
                while i < n
                    invariant
                        heap.wf(),
                        n == es.len(),
                        es == object_entries(*m),
                        forall|j: int| 0 <= j < n ==> #[trigger] es[j].1 < heap@.len(),
                        n > 0 ==> recursion_limit >= 1,
                        0 <= i <= n,
                        recursion_limit >= 2 ==> out@.len() == i,
                        recursion_limit < 2 ==> out@.len() == 0,
                        forall|j: int|
                            0 <= j < out@.len() ==> (#[trigger] out@[j]).0@ == es[j].0 && out@[j].1.tree_view() == unfold_node(
                                heap@,
                                heap@[es[j].1 as int],
                                (recursion_limit - 1) as nat,
                            ),
                    decreases n - i,
                {
                    if recursion_limit - 1 != 0 {
                        let (key, c) = object_map_get_index(m, i).unwrap();
                        proof {
                            assert(node_wf(heap@[c as int], heap@.len() as int));
                        }
                        let child = heap.get(GCValue { cell: c });
                        let t = child.into_with_recursion_limit(heap, recursion_limit - 1);
                        out.push((key.clone(), t));
                    }
                    i = i + 1;
                }
                let r = JsonTree::Object(out);
                proof {
                    if recursion_limit >= 2 {
                        assert(r.tree_view()->Object_0 =~= unfold_node(heap@, self@, recursion_limit as nat)->Object_0);
                    } else {
                        assert(r.tree_view()->Object_0 =~= Seq::<(Seq<char>, TreeView)>::empty());
                    }
                    assert(self@ == JsonNode::Object(es));
                    assert(r.tree_view() == unfold_node(heap@, self@, recursion_limit as nat));
                }
                r
            },
        }
    }
}

impl GCValue {
    /// A new cell holding `v`, and the reference to it.
    pub fn new(heap: &mut JsonHeap, v: InnerValue) -> (g: GCValue)
        requires
            old(heap).wf(),
            node_wf(v@, old(heap)@.len() as int),
        ensures
            final(heap).wf(),
            final(heap)@ == old(heap)@.push(v@),
            g.cell == old(heap)@.len(),
    {
        heap.allocate(v)
    }

    /// What the referenced cell holds.
    pub fn borrow_inner_ref<'a>(&self, heap: &'a JsonHeap) -> (r: &'a InnerValue)
        requires
            self.cell < heap@.len(),
        ensures
            r@ == heap@[self.cell as int],
    {
        heap.get(*self)
    }

    /// What the referenced cell holds, for changing in place: whatever is
    /// written through the returned reference is what the cell then holds.
    /// (The heap is well-formed again once what is written refers only to
    /// cells of the heap.)
    pub fn borrow_inner_ref_mut<'a>(&self, heap: &'a mut JsonHeap) -> (r: &'a mut InnerValue)
        requires
            self.cell < old(heap)@.len(),
        ensures
            r@ == old(heap)@[self.cell as int],
            final(heap)@ == old(heap)@.update(self.cell as int, final(r)@),
    {
        let ghost cells = heap.cells@;
        let ghost i = self.cell as int;
        assert forall|v: InnerValue| #[trigger] cells_view(cells.update(i, v)) == cells_view(
            cells,
        ).update(i, v@) by {
            assert(cells_view(cells.update(i, v)) =~= cells_view(cells).update(i, v@));
        }
        &mut heap.cells[self.cell]
    }

    /// The referenced value written out as a tree, down to
    /// `recursion_limit` levels: a container at the last level is written
    /// out empty.
    pub fn into_with_recursion_limit(self, heap: &JsonHeap, recursion_limit: usize) -> (r: JsonTree)
        requires
            heap.wf(),
            self.cell < heap@.len(),
            limit_ok(heap@[self.cell as int], recursion_limit as nat),
        ensures
            r.tree_view() == unfold(heap@, self.cell, recursion_limit as nat),
    {
        proof {
            assert(node_wf(heap@[self.cell as int], heap@.len() as int));
        }
        heap.get(self).into_with_recursion_limit(heap, recursion_limit)
    }

    /// A copy of the referenced value in new cells, down to
    /// `recursion_limit` levels: a container at the last level is copied
    /// empty. No cell that was there before changes, and the copy shares
    /// none of them.
    pub fn deep_clone_with_recursion_limit(&self, heap: &mut JsonHeap, recursion_limit: usize) -> (g: GCValue)
        requires
            old(heap).wf(),
            self.cell < old(heap)@.len(),
            limit_ok(old(heap)@[self.cell as int], recursion_limit as nat),
        ensures
            final(heap).wf(),
            old(heap)@.len() <= g.cell < final(heap)@.len(),
            final(heap)@.take(old(heap)@.len() as int) == old(heap)@,
            holds_tree(
                final(heap)@,
                g.cell,
                unfold(old(heap)@, self.cell, recursion_limit as nat),
                old(heap)@.len() as int,
            ),
    {
        heap.deep_clone(self.cell, recursion_limit)
    }

    /// A new value holding the tree `t`, each of its values in a new cell.
    pub fn from_tree(heap: &mut JsonHeap, t: &JsonTree) -> (g: GCValue)
        requires
            old(heap).wf(),
        ensures
            final(heap).wf(),
            old(heap)@.len() <= g.cell < final(heap)@.len(),
            final(heap)@.take(old(heap)@.len() as int) == old(heap)@,
            tree_wf(t.tree_view()) ==> holds_tree(
                final(heap)@,
                g.cell,
                t.tree_view(),
                old(heap)@.len() as int,
            ),
    {
        heap.insert_tree(t)
    }
}

/// Indexing a JSON value by member name, with or without dot notation.
pub trait ValueExt<'a>: Sized {
    /// The cell that this value refers to.
    spec fn target(&self) -> usize;

    /// Follows the dot-separated parts of `name`.
    fn dot_index_safe(&self, heap: &JsonHeap, name: &str) -> (r: Result<GCValue, Error>)
        requires
            heap.wf(),
            self.target() < heap@.len(),
        ensures
            lookup_result(r, walk(heap@, self.target(), split_dots(name@)), name@),
            r matches Ok(g) ==> g.cell < heap@.len(),
    ;

    /// Follows the dot-separated parts of `name`; the same as
    /// `dot_index_safe`, nothing changes.
    fn dot_index_safe_mut(&mut self, heap: &mut JsonHeap, name: &str) -> (r: Result<GCValue, Error>)
        requires
            old(heap).wf(),
            old(self).target() < old(heap)@.len(),
        ensures
            *final(self) == *old(self),
            final(heap)@ == old(heap)@,
            final(heap).wf(),
            lookup_result(r, walk(old(heap)@, old(self).target(), split_dots(name@)), name@),
            r matches Ok(g) ==> g.cell < old(heap)@.len(),
    ;

    /// Indexes with `name`: part by part when `dot_notation` is set, as one
    /// member name otherwise.
    fn index_selective_safe(&self, heap: &JsonHeap, name: &'a str, dot_notation: bool) -> (r: Result<
        GCValue,
        Error,
    >)
        requires
            heap.wf(),
            self.target() < heap@.len(),
        ensures
            lookup_result(r, lookup(heap@, self.target(), name@, dot_notation), name@),
            r matches Ok(g) ==> g.cell < heap@.len(),
    ;

    /// The same as `index_selective_safe`; nothing changes.
    fn index_selective_safe_mut(&mut self, heap: &mut JsonHeap, name: &'a str, dot_notation: bool) -> (r:
        Result<GCValue, Error>)
        requires
            old(heap).wf(),
            old(self).target() < old(heap)@.len(),
        ensures
            *final(self) == *old(self),
            final(heap)@ == old(heap)@,
            final(heap).wf(),
            lookup_result(r, lookup(old(heap)@, old(self).target(), name@, dot_notation), name@),
            r matches Ok(g) ==> g.cell < old(heap)@.len(),
    ;
}

impl<'a> ValueExt<'a> for GCValue {
    open spec fn target(&self) -> usize {
        self.cell
    }

    fn dot_index_safe(&self, heap: &JsonHeap, name: &str) -> (r: Result<GCValue, Error>) {
        heap.dot_index(self.cell, name)
    }

    fn dot_index_safe_mut(&mut self, heap: &mut JsonHeap, name: &str) -> (r: Result<GCValue, Error>) {
        heap.dot_index(self.cell, name)
    }

    fn index_selective_safe(&self, heap: &JsonHeap, name: &'a str, dot_notation: bool) -> (r: Result<
        GCValue,
        Error,
    >) {
        if dot_notation {
            self.dot_index_safe(heap, name)
        } else {
            heap.index_key(self.cell, name)
        }
    }

    fn index_selective_safe_mut(&mut self, heap: &mut JsonHeap, name: &'a str, dot_notation: bool) -> (r:
        Result<GCValue, Error>) {
        if dot_notation {
            self.dot_index_safe_mut(heap, name)
        } else {
            heap.index_key(self.cell, name)
        }
    }
}

/// `split_dots` always gives at least one part.
pub proof fn lemma_split_dots_len(p: Seq<char>)
    ensures
        split_dots(p).len() >= 1,
    decreases p.len(),
{
    if p.len() > 0 {
        lemma_split_dots_len(p.drop_last());
    }
}

/// How `split_dots` grows by one character: a dot starts a new empty part,
/// any other character extends the last part.
pub proof fn lemma_split_dots_push(p: Seq<char>, c: char)
    ensures
        split_dots(p).len() >= 1,
        c == '.' ==> split_dots(p.push(c)) == split_dots(p).push(Seq::<char>::empty()),
        c != '.' ==> split_dots(p.push(c)) == split_dots(p).update(
            split_dots(p).len() - 1,
            split_dots(p).last().push(c),
        ),
        split_dots(p.push(c)).drop_last() == (if c == '.' {
            split_dots(p)
        } else {
            split_dots(p).drop_last()
        }),
{
    assert(p.push(c).drop_last() =~= p);
    lemma_split_dots_len(p);
    if c == '.' {
        assert(split_dots(p).push(Seq::<char>::empty()).drop_last() =~= split_dots(p));
    } else {
        let parts = split_dots(p);
        assert(parts.update(parts.len() - 1, parts.last().push(c)).drop_last() =~= parts.drop_last());
    }
}

/// Once the walk along the finished parts of a prefix of `name` fails, the
/// walk along all the parts of `name` fails the same way.
pub proof fn lemma_walk_prefix_fails(h: Seq<JsonNode>, n: usize, name: Seq<char>, k: int)
    requires
        0 <= k <= name.len(),
        !(walk(h, n, split_dots(name.take(k)).drop_last()) is Found),
    ensures
        walk(h, n, split_dots(name)) == walk(h, n, split_dots(name.take(k)).drop_last()),
    decreases name.len() - k,
{
    let p = name.take(k);
    lemma_split_dots_len(p);
    if k == name.len() {
        assert(p =~= name);
    } else {
        let c = name[k];
        assert(name.take(k + 1) =~= p.push(c));
        lemma_split_dots_push(p, c);
        if c == '.' {
            assert(split_dots(p).drop_last() =~= split_dots(p).drop_last());
        }
        lemma_walk_prefix_fails(h, n, name, k + 1);
    }
}

/// Appends `c` to `s`.
pub fn push_char(s: &mut String, c: char)
    ensures
        final(s)@ == old(s)@.push(c),
{
    string_push(s, c)
}

/// Calls `String::push` of std: `c` is appended.
#[verifier::external_body]
fn string_push(s: &mut String, c: char)
    ensures
        final(s)@ == old(s)@.push(c),
{
    s.push(c)
}

} // verus!
