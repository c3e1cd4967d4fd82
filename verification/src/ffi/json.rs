//! The JSON values that scripts hold by numeric handles, and what scripts
//! can do with them.

use crate::cell_map::CellMap;
use crate::errors::{fails_with, Error, ErrorKind};
use crate::ffi::ext::{
    copy_outcome, copy_unsafe_string, decimal, is_ffi_utf8_error, is_utf8_error, push_decimal,
    str_from_ptr, str_from_ptr_or,
};
use crate::ffi::Cell;
use crate::gc_json::{
    eq_outcome, fails_with_msg, find_member, heap_wf, holds_tree, insert_member, limit_ok, lookup,
    lookup_fails, member_slot, node_wf, reachable_marks, step, swap_remove_member, swept, tree_wf,
    type_code, unfold, GCValue, InnerValue, JsonHeap, JsonNode, JsonTree, Lookup, Number,
};
use libc::c_char;
use vstd::prelude::*;
use vstd::string::StringExecFns;

verus! {

/// The JSON heap together with the table of handles that scripts hold.
#[derive(Debug)]
pub struct JsonStore {
    heap: JsonHeap,
    handles: CellMap<GCValue>,
}

/// The name of the kind of value a cell holds, as error messages give it.
pub open spec fn kind_name(n: JsonNode) -> Seq<char> {
    match n {
        JsonNode::Null => "Null"@,
        JsonNode::Bool(_) => "Bool"@,
        JsonNode::Number(_) => "Number"@,
        JsonNode::String(_) => "String"@,
        JsonNode::Array(_) => "Array"@,
        JsonNode::Object(_) => "Object"@,
    }
}

/// The message for a handle that refers to no JSON value.
pub open spec fn invalid_handle_message(h: int) -> Seq<char> {
    "Invalid JSON value handle "@ + decimal(h)
}

/// `prefix` followed by the kind of `n`.
pub open spec fn kind_message(prefix: Seq<char>, n: JsonNode) -> Seq<char> {
    prefix + kind_name(n)
}

fn kind_error(prefix: &str, v: &InnerValue) -> (e: Error)
    ensures
        e.causes@.len() == 0,
        e.kind matches ErrorKind::FFIError(m) && m@ == kind_message(prefix@, v@),
{
    proof {
        reveal_strlit("Null");
        reveal_strlit("Bool");
        reveal_strlit("Number");
        reveal_strlit("String");
        reveal_strlit("Array");
        reveal_strlit("Object");
    }
    let mut m = String::from_str(prefix);
    match v {
        InnerValue::Null => m.append("Null"),
        InnerValue::Bool(_) => m.append("Bool"),
        InnerValue::Number(_) => m.append("Number"),
        InnerValue::String(_) => m.append("String"),
        InnerValue::Array(_) => m.append("Array"),
        InnerValue::Object(_) => m.append("Object"),
    }
    Error::from_kind(ErrorKind::FFIError(m))
}

fn message_with_number(prefix: &str, n: isize, suffix: &str) -> (e: Error)
    ensures
        e.causes@.len() == 0,
        e.kind matches ErrorKind::FFIError(m) && m@ == prefix@ + decimal(n as int) + suffix@,
{
    let mut m = String::from_str(prefix);
    push_decimal(&mut m, n);
    m.append(suffix);
    Error::from_kind(ErrorKind::FFIError(m))
}

fn message_ending_in_number(prefix: &str, n: isize) -> (e: Error)
    ensures
        e.causes@.len() == 0,
        e.kind matches ErrorKind::FFIError(m) && m@ == prefix@ + decimal(n as int),
{
    let mut m = String::from_str(prefix);
    push_decimal(&mut m, n);
    Error::from_kind(ErrorKind::FFIError(m))
}

/// The message for an array index past the end.
pub open spec fn out_of_bounds_message(i: int) -> Seq<char> {
    "Index "@ + decimal(i) + " is out of bounds"@
}

/// `r` is a number read as an integer: the value when it is an integer
/// that fits an `i64` (as a cell), and an error otherwise.
pub open spec fn integer_result(r: Result<Cell, Error>, x: Number) -> bool {
    match x.spec_as_i64() {
        Some(i) => r == Ok::<Cell, Error>(i as isize),
        None => fails_with(r, "Number is not integer"@),
    }
}

/// `r` is what reading `n` as an integer gives; a value that is not a
/// number is an error: `prefix` and its kind.
pub open spec fn number_read(r: Result<Cell, Error>, n: JsonNode, prefix: Seq<char>) -> bool {
    match n {
        JsonNode::Number(x) => integer_result(r, x),
        _ => fails_with(r, kind_message(prefix, n)),
    }
}

/// `r` is what reading `n` as a number gives; a value that is not a number
/// is an error: `prefix` and its kind.
pub open spec fn number_value_read(r: Result<Number, Error>, n: JsonNode, prefix: Seq<char>) -> bool {
    match n {
        JsonNode::Number(x) => r == Ok::<Number, Error>(x),
        _ => fails_with(r, kind_message(prefix, n)),
    }
}

/// `r` is what reading `n` as a boolean gives: 1 for true, 0 for false; a
/// value that is not a boolean is an error: `prefix` and its kind.
pub open spec fn bool_read(r: Result<Cell, Error>, n: JsonNode, prefix: Seq<char>) -> bool {
    match n {
        JsonNode::Bool(b) => r == Ok::<Cell, Error>(if b {
            1
        } else {
            0
        }),
        _ => fails_with(r, kind_message(prefix, n)),
    }
}

/// `r` and the buffer going from `before` to `after` are what reading `n` as
/// a string into a buffer of `maxlen` characters gives (see
/// `copy_outcome`); a value that is not a string is an error: `prefix` and
/// its kind, and the buffer is untouched.
pub open spec fn string_read(
    r: Result<Cell, Error>,
    before: Seq<c_char>,
    after: Seq<c_char>,
    n: JsonNode,
    prefix: Seq<char>,
    maxlen: Cell,
) -> bool {
    match n {
        JsonNode::String(s) => copy_outcome(r, before, after, s, maxlen),
        _ => after == before && fails_with(r, kind_message(prefix, n)),
    }
}

fn read_number(v: &InnerValue, prefix: &str) -> (r: Result<Cell, Error>)
    ensures
        number_read(r, v@, prefix@),
{
    match v {
        InnerValue::Number(x) => match x.as_i64() {
            Some(i) => Ok(i as isize),
            None => Err(Error::from_kind(ErrorKind::FFIError(String::from_str("Number is not integer")))),
        },
        _ => Err(kind_error(prefix, v)),
    }
}

fn read_number_value(v: &InnerValue, prefix: &str) -> (r: Result<Number, Error>)
    ensures
        number_value_read(r, v@, prefix@),
{
    match v {
        InnerValue::Number(x) => Ok(*x),
        _ => Err(kind_error(prefix, v)),
    }
}

fn read_bool(v: &InnerValue, prefix: &str) -> (r: Result<Cell, Error>)
    ensures
        bool_read(r, v@, prefix@),
{
    match v {
        InnerValue::Bool(b) => if *b {
            Ok(1)
        } else {
            Ok(0)
        },
        _ => Err(kind_error(prefix, v)),
    }
}

fn read_string(v: &InnerValue, prefix: &str, dest: &mut [c_char], maxlen: Cell) -> (r: Result<
    Cell,
    Error,
>)
    requires
        maxlen >= 0 ==> maxlen < old(dest)@.len(),
    ensures
        string_read(r, old(dest)@, final(dest)@, v@, prefix@, maxlen),
{
    match v {
        InnerValue::String(s) => copy_unsafe_string(dest, s.as_str(), maxlen),
        _ => Err(kind_error(prefix, v)),
    }
}

fn code_of(v: &InnerValue) -> (r: Cell)
    ensures
        r == type_code(v@),
{
    match v {
        InnerValue::Null => 1,
        InnerValue::String(_) => 2,
        InnerValue::Number(_) => 3,
        InnerValue::Object(_) => 4,
        InnerValue::Array(_) => 5,
        InnerValue::Bool(_) => 6,
    }
}

impl JsonStore {
    /// The cells of the heap.
    pub closed spec fn heap(&self) -> Seq<JsonNode> {
        self.heap@
    }

    /// The cell that each handle refers to.
    pub closed spec fn handles(&self) -> Map<isize, usize> {
        self.handles.view().map_values(|g: GCValue| g.cell)
    }

    /// The handle that the next new value gets.
    pub closed spec fn next_handle(&self) -> isize {
        self.handles.next_id()
    }

    /// The heap is well-formed, the handle table is, and every handle
    /// refers to a cell of the heap.
    pub closed spec fn wf(&self) -> bool {
        &&& self.heap.wf()
        &&& self.handles.wf()
        &&& forall|h: isize| #[trigger] self.handles.view().contains_key(h) ==> self.handles.view()[h].cell < self.heap@.len()
    }

    /// Room is left for another handle.
    pub open spec fn has_room(&self) -> bool {
        self.next_handle() < isize::MAX
    }

    /// The store after a new handle to `cell` was handed out, with the heap
    /// `heap`. The new handle is greater than 1 and was not a handle before.
    pub open spec fn added_handle(&self, old: &JsonStore, heap: Seq<JsonNode>, cell: usize) -> bool {
        &&& old.next_handle() > 1
        &&& !old.handles().contains_key(old.next_handle())
        &&& self.heap() == heap
        &&& self.handles() == old.handles().insert(old.next_handle(), cell)
        &&& self.next_handle() == old.next_handle() + 1
    }

    /// The store after the heap became `heap`, with the same handles.
    pub open spec fn same_handles(&self, old: &JsonStore, heap: Seq<JsonNode>) -> bool {
        &&& self.heap() == heap
        &&& self.handles() == old.handles()
        &&& self.next_handle() == old.next_handle()
    }

    /// An empty store; the first handle is 2.
    pub fn new() -> (s: JsonStore)
        ensures
            s.wf(),
            s.heap() == Seq::<JsonNode>::empty(),
            s.handles() == Map::<isize, usize>::empty(),
            s.next_handle() == 2,
    {
        let s = JsonStore { heap: JsonHeap::new(), handles: CellMap::new() };
        assert(s.handles() =~= Map::<isize, usize>::empty());
        s
    }

    /// Whether another handle can be handed out.
    pub fn has_room_for_handle(&self) -> (r: bool)
        ensures
            r == self.has_room(),
    {
        self.handles.peek_id() < isize::MAX
    }

    /// The value that handle `h` refers to.
    fn value(&self, h: Cell) -> (r: Result<GCValue, Error>)
        requires
            self.wf(),
        ensures
            self.handles().contains_key(h) ==> (r matches Ok(g) && g.cell == self.handles()[h]),
            !self.handles().contains_key(h) ==> fails_with(r, invalid_handle_message(h as int)),
            r matches Ok(g) ==> g.cell < self.heap().len(),
    {
        match self.handles.get_with_id(h) {
            Some(g) => Ok(*g),
            None => Err(message_ending_in_number("Invalid JSON value handle ", h)),
        }
    }

    /// Hands out a new handle to cell `g`.
    fn add_handle(&mut self, g: GCValue) -> (h: Cell)
        requires
            old(self).wf(),
            old(self).has_room(),
            g.cell < old(self).heap().len(),
        ensures
            final(self).wf(),
            h == old(self).next_handle(),
            final(self).added_handle(old(self), old(self).heap(), g.cell),
    {
        let ghost old_handles = self.handles.view();
        let h = self.handles.insert_with_unique_id(g);
        proof {
            assert(!old_handles.map_values(|v: GCValue| v.cell).contains_key(h));
            assert(self.handles.view().map_values(|v: GCValue| v.cell) =~= old_handles.map_values(
                |v: GCValue| v.cell,
            ).insert(h, g.cell));
        }
        h
    }

    /// Adds a cell holding `v` and hands out a handle to it.
    fn add_value(&mut self, v: InnerValue) -> (h: Cell)
        requires
            old(self).wf(),
            old(self).has_room(),
            crate::gc_json::node_wf(v@, old(self).heap().len() as int),
        ensures
            final(self).wf(),
            h == old(self).next_handle(),
            final(self).added_handle(old(self), old(self).heap().push(v@), old(self).heap().len() as usize),
    {
        let g = self.heap.allocate(v);
        self.add_handle(g)
    }

    /// Destroys handle `h`; the value stays in the heap for the other
    /// references to it.
    pub fn destroy_json_value(&mut self, h: Cell) -> (r: Result<Cell, Error>)
        requires
            old(self).wf(),
        ensures
            final(self).wf(),
            final(self).heap() == old(self).heap(),
            final(self).next_handle() == old(self).next_handle(),
            old(self).handles().contains_key(h) ==> r == Ok::<Cell, Error>(1)
                && final(self).handles() == old(self).handles().remove(h),
            !old(self).handles().contains_key(h) ==> fails_with(
                r,
                "Invalid json value handle "@ + decimal(h as int),
            ) && final(self).handles() == old(self).handles(),
    {
        let ghost old_handles = self.handles.view();
        match self.handles.remove_with_id(h) {
            Some(_) => {
                proof {
                    assert(self.handles.view().map_values(|v: GCValue| v.cell) =~= old_handles.map_values(
                        |v: GCValue| v.cell,
                    ).remove(h));
                }
                Ok(1)
            },
            None => {
                proof {
                    assert(self.handles.view().map_values(|v: GCValue| v.cell) =~= old_handles.map_values(
                        |v: GCValue| v.cell,
                    ));
                }
                Err(message_ending_in_number("Invalid json value handle ", h))
            },
        }
    }

    /// `h` is a handle.
    pub open spec fn valid(&self, h: Cell) -> bool {
        self.handles().contains_key(h)
    }

    /// The cell that handle `h` refers to.
    pub open spec fn cell(&self, h: Cell) -> usize {
        self.handles()[h]
    }

    /// What the cell that handle `h` refers to holds.
    pub open spec fn node(&self, h: Cell) -> JsonNode {
        self.heap()[self.cell(h) as int]
    }

    /// A well-formed store has a well-formed heap, and each handle refers to
    /// one of its cells.
    pub proof fn lemma_wf(&self)
        requires
            self.wf(),
        ensures
            heap_wf(self.heap()),
            forall|h: Cell| #[trigger] self.valid(h) ==> self.cell(h) < self.heap().len(),
    {
        assert forall|h: Cell| #[trigger] self.valid(h) implies self.cell(h) < self.heap().len() by {
            assert(self.handles.view().contains_key(h));
        }
    }

    /// The type code of the value that handle `h` refers to.
    pub fn json_get_type(&self, h: Cell) -> (r: Result<Cell, Error>)
        requires
            self.wf(),
        ensures
            self.valid(h) ==> r == Ok::<Cell, Error>(type_code(self.node(h))),
            !self.valid(h) ==> fails_with(r, invalid_handle_message(h as int)),
    {
        let g = match self.value(h) {
            Ok(g) => g,
            Err(e) => {
                return Err(e);
            },
        };
        match self.heap.get(g) {
            InnerValue::Null => Ok(1),
            InnerValue::String(_) => Ok(2),
            InnerValue::Number(_) => Ok(3),
            InnerValue::Object(_) => Ok(4),
            InnerValue::Array(_) => Ok(5),
            InnerValue::Bool(_) => Ok(6),
        }
    }

    /// Whether the values of handles `value1` and `value2` are equal, as
    /// `eq_outcome` compares them (the second against the first). `None`
    /// when that comparison would never end.
    pub fn json_equals(&self, value1: Cell, value2: Cell) -> (r: Result<Option<bool>, Error>)
        requires
            self.wf(),
        ensures
            !self.valid(value1) ==> fails_with(r, "value1 handle "@ + decimal(value1 as int) + " is invalid"@),
            self.valid(value1) && !self.valid(value2) ==> fails_with(
                r,
                "value2 "@ + decimal(value2 as int) + " handle is invalid"@,
            ),
            self.valid(value1) && self.valid(value2) ==> r == Ok::<Option<bool>, Error>(
                eq_outcome(
                    self.heap(),
                    self.cell(value2),
                    self.cell(value1),
                    crate::gc_json::comparison_fuel(self.heap().len()),
                ),
            ),
    {
        let g1 = match self.handles.get_with_id(value1) {
            Some(g) => *g,
            None => {
                return Err(message_with_number("value1 handle ", value1, " is invalid"));
            },
        };
        let g2 = match self.handles.get_with_id(value2) {
            Some(g) => *g,
            None => {
                return Err(message_with_number("value2 ", value2, " handle is invalid"));
            },
        };
        Ok(self.heap.equals(g2, g1))
    }

    /// A new handle to a new empty object.
    pub fn json_init_object(&mut self) -> (h: Cell)
        requires
            old(self).wf(),
            old(self).has_room(),
        ensures
            final(self).wf(),
            h == old(self).next_handle(),
            final(self).added_handle(
                old(self),
                old(self).heap().push(JsonNode::Object(Seq::empty())),
                old(self).heap().len() as usize,
            ),
    {
        let m = crate::gc_json::empty_object();
        self.add_value(m)
    }

    /// A new handle to a new empty array.
    pub fn json_init_array(&mut self) -> (h: Cell)
        requires
            old(self).wf(),
            old(self).has_room(),
        ensures
            final(self).wf(),
            h == old(self).next_handle(),
            final(self).added_handle(
                old(self),
                old(self).heap().push(JsonNode::Array(Seq::empty())),
                old(self).heap().len() as usize,
            ),
    {
        let v: Vec<GCValue> = Vec::new();
        assert(crate::gc_json::cells_of(v@) =~= Seq::<usize>::empty());
        self.add_value(InnerValue::Array(v))
    }

    /// A new handle to a new string: the text of the C string `bytes`.
    pub fn json_init_string(&mut self, bytes: &[u8]) -> (r: Result<Cell, Error>)
        requires
            old(self).wf(),
            old(self).has_room(),
        ensures
            final(self).wf(),
            vstd::utf8::valid_utf8(bytes@) ==> r == Ok::<Cell, Error>(old(self).next_handle())
                && final(self).added_handle(
                old(self),
                old(self).heap().push(JsonNode::String(vstd::utf8::decode_utf8(bytes@))),
                old(self).heap().len() as usize,
            ),
            !vstd::utf8::valid_utf8(bytes@) ==> *final(self) == *old(self) && (r matches Err(e)
                && is_ffi_utf8_error(e, "Invalid string. Can't create UTF-8 string"@, bytes@)),
    {
        let s = match str_from_ptr_or(bytes, "Invalid string. Can't create UTF-8 string") {
            Ok(s) => s,
            Err(e) => {
                return Err(e);
            },
        };
        Ok(self.add_value(InnerValue::String(String::from_str(s))))
    }

    /// A new handle to a new number, `value`.
    pub fn json_init_number(&mut self, value: Cell) -> (h: Cell)
        requires
            old(self).wf(),
            old(self).has_room(),
        ensures
            final(self).wf(),
            h == old(self).next_handle(),
            final(self).added_handle(
                old(self),
                old(self).heap().push(JsonNode::Number(Number::spec_from_isize(value))),
                old(self).heap().len() as usize,
            ),
    {
        self.add_value(InnerValue::Number(Number::from_isize(value)))
    }

    /// A new handle to a new number, `value` as it is.
    pub fn json_init_number_value(&mut self, value: Number) -> (h: Cell)
        requires
            old(self).wf(),
            old(self).has_room(),
        ensures
            final(self).wf(),
            h == old(self).next_handle(),
            final(self).added_handle(
                old(self),
                old(self).heap().push(JsonNode::Number(value)),
                old(self).heap().len() as usize,
            ),
    {
        self.add_value(InnerValue::Number(value))
    }

    /// A new handle to a new boolean, `value`.
    pub fn json_init_bool(&mut self, value: bool) -> (h: Cell)
        requires
            old(self).wf(),
            old(self).has_room(),
        ensures
            final(self).wf(),
            h == old(self).next_handle(),
            final(self).added_handle(
                old(self),
                old(self).heap().push(JsonNode::Bool(value)),
                old(self).heap().len() as usize,
            ),
    {
        self.add_value(InnerValue::Bool(value))
    }

    /// A new handle to a new null.
    pub fn json_init_null(&mut self) -> (h: Cell)
        requires
            old(self).wf(),
            old(self).has_room(),
        ensures
            final(self).wf(),
            h == old(self).next_handle(),
            final(self).added_handle(
                old(self),
                old(self).heap().push(JsonNode::Null),
                old(self).heap().len() as usize,
            ),
    {
        self.add_value(InnerValue::Null)
    }

    /// A new handle to a new value that holds the tree `t` (as parsed from
    /// text), each of its values in a new cell.
    pub fn json_add_tree(&mut self, t: &JsonTree) -> (h: Cell)
        requires
            old(self).wf(),
            old(self).has_room(),
        ensures
            final(self).wf(),
            h == old(self).next_handle(),
            h > 1,
            !old(self).handles().contains_key(h),
            final(self).next_handle() == old(self).next_handle() + 1,
            final(self).valid(h),
            final(self).handles() == old(self).handles().insert(h, final(self).cell(h)),
            old(self).heap().len() <= final(self).cell(h),
            final(self).heap().take(old(self).heap().len() as int) == old(self).heap(),
            tree_wf(t.tree_view()) ==> holds_tree(
                final(self).heap(),
                final(self).cell(h),
                t.tree_view(),
                old(self).heap().len() as int,
            ),
    {
        let ghost h0 = self.heap@;
        let g = self.heap.insert_tree(t);
        proof {
            assert forall|k: isize| #[trigger] self.handles.view().contains_key(k) implies self.handles.view()[k].cell < self.heap@.len() by {
                assert(self.heap@.len() >= h0.len());
            }
        }
        self.add_handle(g)
    }

    /// The error, if any, for `h` taken as a handle.
    pub open spec fn handle_error(&self, h: Cell) -> Option<Seq<char>> {
        if self.valid(h) {
            None
        } else {
            Some(invalid_handle_message(h as int))
        }
    }

    /// The error, if any, for `a` taken as a handle to an array.
    pub open spec fn array_error(&self, a: Cell) -> Option<Seq<char>> {
        if !self.valid(a) {
            Some(invalid_handle_message(a as int))
        } else if !(self.node(a) is Array) {
            Some(kind_message("JSON Handle is not array. "@, self.node(a)))
        } else {
            None
        }
    }

    /// The cells that the items of array `a` refer to.
    pub open spec fn items(&self, a: Cell) -> Seq<usize> {
        self.node(a)->Array_0
    }

    /// The error, if any, for item `i` of array `a`.
    pub open spec fn item_error(&self, a: Cell, i: Cell) -> Option<Seq<char>> {
        if self.array_error(a) is Some {
            self.array_error(a)
        } else if i < 0 {
            Some(crate::ffi::ext::negative_size_message(i as int))
        } else if i >= self.items(a).len() {
            Some(out_of_bounds_message(i as int))
        } else {
            None
        }
    }

    /// The cell that item `i` of array `a` refers to.
    pub open spec fn item_cell(&self, a: Cell, i: Cell) -> usize {
        self.items(a)[i as int]
    }

    /// What item `i` of array `a` holds.
    pub open spec fn item_node(&self, a: Cell, i: Cell) -> JsonNode {
        self.heap()[self.item_cell(a, i) as int]
    }

    /// The array that handle `a` refers to, by its cell.
    fn array(&self, a: Cell) -> (r: Result<usize, Error>)
        requires
            self.wf(),
        ensures
            match self.array_error(a) {
                Some(m) => fails_with(r, m),
                None => r == Ok::<usize, Error>(self.cell(a)),
            },
            r matches Ok(c) ==> c < self.heap().len(),
    {
        let g = match self.value(a) {
            Ok(g) => g,
            Err(e) => {
                return Err(e);
            },
        };
        let v = self.heap.get(g);
        match v {
            InnerValue::Array(_) => Ok(g.cell),
            _ => Err(kind_error("JSON Handle is not array. ", v)),
        }
    }

    /// Item `i` of array `a`: the array's cell, the index and the item's
    /// cell.
    fn array_item(&self, a: Cell, i: Cell) -> (r: Result<(usize, usize, usize), Error>)
        requires
            self.wf(),
        ensures
            match self.item_error(a, i) {
                Some(m) => fails_with(r, m),
                None => r == Ok::<(usize, usize, usize), Error>(
                    (self.cell(a), i as usize, self.item_cell(a, i)),
                ),
            },
            r matches Ok((c, k, d)) ==> c < self.heap().len() && d < self.heap().len() && k
                < self.items(a).len(),
    {
        let c = match self.array(a) {
            Ok(c) => c,
            Err(e) => {
                return Err(e);
            },
        };
        let k = match crate::ffi::ext::try_as_usize(i) {
            Ok(k) => k,
            Err(e) => {
                return Err(e);
            },
        };
        proof {
            self.lemma_wf();
            assert(node_wf(self.heap()[c as int], self.heap().len() as int));
        }
        match self.heap.get(GCValue { cell: c }) {
            InnerValue::Array(items) => {
                if k < items.len() {
                    proof {
                        assert(self.items(a)[k as int] == items@[k as int].cell);
                    }
                    Ok((c, k, items[k].cell))
                } else {
                    Err(message_with_number("Index ", i, " is out of bounds"))
                }
            },
            _ => Err(message_with_number("Index ", i, " is out of bounds")),
        }
    }

    /// Copies the string of handle `h` into `dest`, a buffer of `maxlen`
    /// characters and a NUL.
    pub fn json_get_string(&self, h: Cell, dest: &mut [c_char], maxlen: Cell) -> (r: Result<
        Cell,
        Error,
    >)
        requires
            self.wf(),
            maxlen >= 0 ==> maxlen < old(dest)@.len(),
        ensures
            match self.handle_error(h) {
                Some(m) => fails_with(r, m) && final(dest)@ == old(dest)@,
                None => string_read(
                    r,
                    old(dest)@,
                    final(dest)@,
                    self.node(h),
                    "JSON Handle is not string. "@,
                    maxlen,
                ),
            },
    {
        let g = match self.value(h) {
            Ok(g) => g,
            Err(e) => {
                return Err(e);
            },
        };
        read_string(self.heap.get(g), "JSON Handle is not string. ", dest, maxlen)
    }

    /// The number of handle `h` as an integer.
    pub fn json_get_number(&self, h: Cell) -> (r: Result<Cell, Error>)
        requires
            self.wf(),
        ensures
            match self.handle_error(h) {
                Some(m) => fails_with(r, m),
                None => number_read(r, self.node(h), "JSON Handle is not number. "@),
            },
    {
        let g = match self.value(h) {
            Ok(g) => g,
            Err(e) => {
                return Err(e);
            },
        };
        read_number(self.heap.get(g), "JSON Handle is not number. ")
    }

    /// The number of handle `h` as it is.
    pub fn json_get_number_value(&self, h: Cell) -> (r: Result<Number, Error>)
        requires
            self.wf(),
        ensures
            match self.handle_error(h) {
                Some(m) => fails_with(r, m),
                None => number_value_read(r, self.node(h), "JSON Handle is not number. "@),
            },
    {
        let g = match self.value(h) {
            Ok(g) => g,
            Err(e) => {
                return Err(e);
            },
        };
        read_number_value(self.heap.get(g), "JSON Handle is not number. ")
    }

    /// The boolean of handle `h`: 1 for true, 0 for false.
    pub fn json_get_bool(&self, h: Cell) -> (r: Result<Cell, Error>)
        requires
            self.wf(),
        ensures
            match self.handle_error(h) {
                Some(m) => fails_with(r, m),
                None => bool_read(r, self.node(h), "JSON Handle is not bool. "@),
            },
    {
        let g = match self.value(h) {
            Ok(g) => g,
            Err(e) => {
                return Err(e);
            },
        };
        read_bool(self.heap.get(g), "JSON Handle is not bool. ")
    }

    /// A new handle to item `i` of array `a`: it refers to the same cell as
    /// the item, so a change made through one is seen through the other.
    pub fn json_array_get_value(&mut self, a: Cell, i: Cell) -> (r: Result<Cell, Error>)
        requires
            old(self).wf(),
            old(self).has_room(),
        ensures
            final(self).wf(),
            match old(self).item_error(a, i) {
                Some(m) => fails_with(r, m) && *final(self) == *old(self),
                None => r == Ok::<Cell, Error>(old(self).next_handle()) && final(self).added_handle(
                    old(self),
                    old(self).heap(),
                    old(self).item_cell(a, i),
                ),
            },
    {
        let (_, _, d) = match self.array_item(a, i) {
            Ok(t) => t,
            Err(e) => {
                return Err(e);
            },
        };
        Ok(self.add_handle(GCValue { cell: d }))
    }

    /// Copies the string of item `i` of array `a` into `dest`, a buffer of
    /// `maxlen` characters and a NUL.
    pub fn json_array_get_string(&self, a: Cell, i: Cell, dest: &mut [c_char], maxlen: Cell) -> (r:
        Result<Cell, Error>)
        requires
            self.wf(),
            maxlen >= 0 ==> maxlen < old(dest)@.len(),
        ensures
            match self.item_error(a, i) {
                Some(m) => fails_with(r, m) && final(dest)@ == old(dest)@,
                None => string_read(
                    r,
                    old(dest)@,
                    final(dest)@,
                    self.item_node(a, i),
                    "JSON Handle is not string. "@,
                    maxlen,
                ),
            },
    {
        let (_, _, d) = match self.array_item(a, i) {
            Ok(t) => t,
            Err(e) => {
                return Err(e);
            },
        };
        read_string(self.heap.get(GCValue { cell: d }), "JSON Handle is not string. ", dest, maxlen)
    }

    /// The number of item `i` of array `a` as an integer.
    pub fn json_array_get_number(&self, a: Cell, i: Cell) -> (r: Result<Cell, Error>)
        requires
            self.wf(),
        ensures
            match self.item_error(a, i) {
                Some(m) => fails_with(r, m),
                None => number_read(r, self.item_node(a, i), "JSON Handle is not number. "@),
            },
    {
        let (_, _, d) = match self.array_item(a, i) {
            Ok(t) => t,
            Err(e) => {
                return Err(e);
            },
        };
        read_number(self.heap.get(GCValue { cell: d }), "JSON Handle is not number. ")
    }

    /// The number of item `i` of array `a` as it is.
    pub fn json_array_get_number_value(&self, a: Cell, i: Cell) -> (r: Result<Number, Error>)
        requires
            self.wf(),
        ensures
            match self.item_error(a, i) {
                Some(m) => fails_with(r, m),
                None => number_value_read(r, self.item_node(a, i), "JSON Handle is not number. "@),
            },
    {
        let (_, _, d) = match self.array_item(a, i) {
            Ok(t) => t,
            Err(e) => {
                return Err(e);
            },
        };
        read_number_value(self.heap.get(GCValue { cell: d }), "JSON Handle is not number. ")
    }

    /// The boolean of item `i` of array `a`: 1 for true, 0 for false. (A
    /// value that is not a boolean is reported as "not number".)
    pub fn json_array_get_bool(&self, a: Cell, i: Cell) -> (r: Result<Cell, Error>)
        requires
            self.wf(),
        ensures
            match self.item_error(a, i) {
                Some(m) => fails_with(r, m),
                None => bool_read(r, self.item_node(a, i), "JSON Handle is not number. "@),
            },
    {
        let (_, _, d) = match self.array_item(a, i) {
            Ok(t) => t,
            Err(e) => {
                return Err(e);
            },
        };
        read_bool(self.heap.get(GCValue { cell: d }), "JSON Handle is not number. ")
    }

    /// The number of items of array `a`.
    pub fn json_array_get_count(&self, a: Cell) -> (r: Result<Cell, Error>)
        requires
            self.wf(),
        ensures
            match self.array_error(a) {
                Some(m) => fails_with(r, m),
                None => r == Ok::<Cell, Error>(self.items(a).len() as isize),
            },
    {
        let c = match self.array(a) {
            Ok(c) => c,
            Err(e) => {
                return Err(e);
            },
        };
        match self.heap.get(GCValue { cell: c }) {
            InnerValue::Array(items) => Ok(items.len() as isize),
            _ => Ok(0),
        }
    }

    /// Adds a cell holding `v`; the handles stay as they are.
    fn add_cell(&mut self, v: InnerValue) -> (g: GCValue)
        requires
            old(self).wf(),
            node_wf(v@, old(self).heap().len() as int),
        ensures
            final(self).wf(),
            final(self).same_handles(old(self), old(self).heap().push(v@)),
            g.cell == old(self).heap().len(),
    {
        let g = self.heap.allocate(v);
        proof {
            assert forall|k: isize| #[trigger] self.handles.view().contains_key(k) implies self.handles.view()[k].cell < self.heap@.len() by {}
        }
        g
    }

    /// Makes item `k` of the array in cell `a` refer to cell `c`.
    fn set_item(&mut self, a: usize, k: usize, c: usize)
        requires
            old(self).wf(),
            a < old(self).heap().len(),
            c < old(self).heap().len(),
            old(self).heap()[a as int] is Array,
            k < old(self).heap()[a as int]->Array_0.len(),
        ensures
            final(self).wf(),
            final(self).same_handles(
                old(self),
                old(self).heap().update(
                    a as int,
                    JsonNode::Array(old(self).heap()[a as int]->Array_0.update(k as int, c)),
                ),
            ),
    {
        self.heap.array_set(a, k, GCValue { cell: c });
        proof {
            assert forall|h: isize| #[trigger] self.handles.view().contains_key(h) implies self.handles.view()[h].cell < self.heap@.len() by {}
        }
    }

    /// Appends a reference to cell `c` to the array in cell `a`.
    fn push_item(&mut self, a: usize, c: usize)
        requires
            old(self).wf(),
            a < old(self).heap().len(),
            c < old(self).heap().len(),
            old(self).heap()[a as int] is Array,
        ensures
            final(self).wf(),
            final(self).same_handles(
                old(self),
                old(self).heap().update(
                    a as int,
                    JsonNode::Array(old(self).heap()[a as int]->Array_0.push(c)),
                ),
            ),
    {
        self.heap.array_push(a, GCValue { cell: c });
        proof {
            assert forall|h: isize| #[trigger] self.handles.view().contains_key(h) implies self.handles.view()[h].cell < self.heap@.len() by {}
        }
    }

    /// The heap after item `i` of array `a` is made to refer to cell `c`.
    pub open spec fn heap_with_item(&self, a: Cell, i: Cell, c: usize) -> Seq<JsonNode> {
        self.heap().update(self.cell(a) as int, JsonNode::Array(self.items(a).update(i as int, c)))
    }

    /// The heap after a new cell holding `n` is added and item `i` of array
    /// `a` is made to refer to it.
    pub open spec fn heap_with_new_item(&self, a: Cell, i: Cell, n: JsonNode) -> Seq<JsonNode> {
        self.heap().push(n).update(
            self.cell(a) as int,
            JsonNode::Array(self.items(a).update(i as int, self.heap().len() as usize)),
        )
    }

    /// The heap after a reference to cell `c` is appended to array `a`.
    pub open spec fn heap_with_pushed(&self, a: Cell, c: usize) -> Seq<JsonNode> {
        self.heap().update(self.cell(a) as int, JsonNode::Array(self.items(a).push(c)))
    }

    /// The heap after a new cell holding `n` is added and a reference to it
    /// appended to array `a`.
    pub open spec fn heap_with_new_pushed(&self, a: Cell, n: JsonNode) -> Seq<JsonNode> {
        self.heap().push(n).update(
            self.cell(a) as int,
            JsonNode::Array(self.items(a).push(self.heap().len() as usize)),
        )
    }

    /// Adds a cell holding `v` and makes item `k` of the array in cell `a`
    /// refer to it.
    fn put_new_item(&mut self, a: usize, k: usize, v: InnerValue)
        requires
            old(self).wf(),
            a < old(self).heap().len(),
            old(self).heap()[a as int] is Array,
            k < old(self).heap()[a as int]->Array_0.len(),
            node_wf(v@, old(self).heap().len() as int),
        ensures
            final(self).wf(),
            final(self).same_handles(
                old(self),
                old(self).heap().push(v@).update(
                    a as int,
                    JsonNode::Array(
                        old(self).heap()[a as int]->Array_0.update(
                            k as int,
                            old(self).heap().len() as usize,
                        ),
                    ),
                ),
            ),
    {
        let ghost h0 = self.heap();
        let g = self.add_cell(v);
        assert(self.heap()[a as int] == h0[a as int]);
        self.set_item(a, k, g.cell);
    }

    /// Adds a cell holding `v` and appends a reference to it to the array in
    /// cell `a`.
    fn push_new_item(&mut self, a: usize, v: InnerValue)
        requires
            old(self).wf(),
            a < old(self).heap().len(),
            old(self).heap()[a as int] is Array,
            node_wf(v@, old(self).heap().len() as int),
        ensures
            final(self).wf(),
            final(self).same_handles(
                old(self),
                old(self).heap().push(v@).update(
                    a as int,
                    JsonNode::Array(
                        old(self).heap()[a as int]->Array_0.push(old(self).heap().len() as usize),
                    ),
                ),
            ),
    {
        let ghost h0 = self.heap();
        let g = self.add_cell(v);
        assert(self.heap()[a as int] == h0[a as int]);
        self.push_item(a, g.cell);
    }

    /// Makes item `i` of array `a` refer to the same cell as handle `v`.
    pub fn json_array_replace_value(&mut self, a: Cell, i: Cell, v: Cell) -> (r: Result<Cell, Error>)
        requires
            old(self).wf(),
        ensures
            final(self).wf(),
            old(self).handle_error(v) matches Some(m) ==> fails_with(r, m) && *final(self) == *old(self),
            old(self).handle_error(v) is None ==> match old(self).item_error(a, i) {
                Some(m) => fails_with(r, m) && *final(self) == *old(self),
                None => r == Ok::<Cell, Error>(1) && final(self).same_handles(
                    old(self),
                    old(self).heap_with_item(a, i, old(self).cell(v)),
                ),
            },
    {
        let g = match self.value(v) {
            Ok(g) => g,
            Err(e) => {
                return Err(e);
            },
        };
        let (c, k, _) = match self.array_item(a, i) {
            Ok(t) => t,
            Err(e) => {
                return Err(e);
            },
        };
        self.set_item(c, k, g.cell);
        Ok(1)
    }

    /// Makes item `i` of array `a` refer to a new string: the text of the C
    /// string `bytes`.
    pub fn json_array_replace_string(&mut self, a: Cell, i: Cell, bytes: &[u8]) -> (r: Result<
        Cell,
        Error,
    >)
        requires
            old(self).wf(),
        ensures
            final(self).wf(),
            !vstd::utf8::valid_utf8(bytes@) ==> *final(self) == *old(self) && (r matches Err(e)
                && is_ffi_utf8_error(e, "Invalid string. Can't create UTF-8 string"@, bytes@)),
            vstd::utf8::valid_utf8(bytes@) ==> match old(self).item_error(a, i) {
                Some(m) => fails_with(r, m) && *final(self) == *old(self),
                None => r == Ok::<Cell, Error>(1) && final(self).same_handles(
                    old(self),
                    old(self).heap_with_new_item(
                        a,
                        i,
                        JsonNode::String(vstd::utf8::decode_utf8(bytes@)),
                    ),
                ),
            },
    {
        let s = match str_from_ptr_or(bytes, "Invalid string. Can't create UTF-8 string") {
            Ok(s) => s,
            Err(e) => {
                return Err(e);
            },
        };
        let (c, k, _) = match self.array_item(a, i) {
            Ok(t) => t,
            Err(e) => {
                return Err(e);
            },
        };
        self.put_new_item(c, k, InnerValue::String(String::from_str(s)));
        Ok(1)
    }

    /// Makes item `i` of array `a` refer to a new cell holding `v`, a value
    /// that refers to no cell.
    fn replace_item_with(&mut self, a: Cell, i: Cell, v: InnerValue) -> (r: Result<Cell, Error>)
        requires
            old(self).wf(),
            node_wf(v@, 0),
        ensures
            final(self).wf(),
            match old(self).item_error(a, i) {
                Some(m) => fails_with(r, m) && *final(self) == *old(self),
                None => r == Ok::<Cell, Error>(1) && final(self).same_handles(
                    old(self),
                    old(self).heap_with_new_item(a, i, v@),
                ),
            },
    {
        let (c, k, _) = match self.array_item(a, i) {
            Ok(t) => t,
            Err(e) => {
                return Err(e);
            },
        };
        self.put_new_item(c, k, v);
        Ok(1)
    }

    /// Makes item `i` of array `a` refer to a new number, `value`.
    pub fn json_array_replace_number(&mut self, a: Cell, i: Cell, value: Cell) -> (r: Result<
        Cell,
        Error,
    >)
        requires
            old(self).wf(),
        ensures
            final(self).wf(),
            match old(self).item_error(a, i) {
                Some(m) => fails_with(r, m) && *final(self) == *old(self),
                None => r == Ok::<Cell, Error>(1) && final(self).same_handles(
                    old(self),
                    old(self).heap_with_new_item(
                        a,
                        i,
                        JsonNode::Number(Number::spec_from_isize(value)),
                    ),
                ),
            },
    {
        self.replace_item_with(a, i, InnerValue::Number(Number::from_isize(value)))
    }

    /// Makes item `i` of array `a` refer to a new number, `value` as it is.
    pub fn json_array_replace_number_value(&mut self, a: Cell, i: Cell, value: Number) -> (r: Result<
        Cell,
        Error,
    >)
        requires
            old(self).wf(),
        ensures
            final(self).wf(),
            match old(self).item_error(a, i) {
                Some(m) => fails_with(r, m) && *final(self) == *old(self),
                None => r == Ok::<Cell, Error>(1) && final(self).same_handles(
                    old(self),
                    old(self).heap_with_new_item(a, i, JsonNode::Number(value)),
                ),
            },
    {
        self.replace_item_with(a, i, InnerValue::Number(value))
    }

    /// Makes item `i` of array `a` refer to a new boolean, `value`.
    pub fn json_array_replace_bool(&mut self, a: Cell, i: Cell, value: bool) -> (r: Result<
        Cell,
        Error,
    >)
        requires
            old(self).wf(),
        ensures
            final(self).wf(),
            match old(self).item_error(a, i) {
                Some(m) => fails_with(r, m) && *final(self) == *old(self),
                None => r == Ok::<Cell, Error>(1) && final(self).same_handles(
                    old(self),
                    old(self).heap_with_new_item(a, i, JsonNode::Bool(value)),
                ),
            },
    {
        self.replace_item_with(a, i, InnerValue::Bool(value))
    }

    /// Makes item `i` of array `a` refer to a new null.
    pub fn json_array_replace_null(&mut self, a: Cell, i: Cell) -> (r: Result<Cell, Error>)
        requires
            old(self).wf(),
        ensures
            final(self).wf(),
            match old(self).item_error(a, i) {
                Some(m) => fails_with(r, m) && *final(self) == *old(self),
                None => r == Ok::<Cell, Error>(1) && final(self).same_handles(
                    old(self),
                    old(self).heap_with_new_item(a, i, JsonNode::Null),
                ),
            },
    {
        self.replace_item_with(a, i, InnerValue::Null)
    }

    /// Appends a reference to the same cell as handle `v` to array `a`.
    pub fn json_array_append_value(&mut self, a: Cell, v: Cell) -> (r: Result<Cell, Error>)
        requires
            old(self).wf(),
        ensures
            final(self).wf(),
            old(self).array_error(a) matches Some(m) ==> fails_with(r, m) && *final(self) == *old(self),
            old(self).array_error(a) is None ==> match old(self).handle_error(v) {
                Some(m) => fails_with(r, m) && *final(self) == *old(self),
                None => r == Ok::<Cell, Error>(1) && final(self).same_handles(
                    old(self),
                    old(self).heap_with_pushed(a, old(self).cell(v)),
                ),
            },
    {
        let c = match self.array(a) {
            Ok(c) => c,
            Err(e) => {
                return Err(e);
            },
        };
        let g = match self.value(v) {
            Ok(g) => g,
            Err(e) => {
                return Err(e);
            },
        };
        self.push_item(c, g.cell);
        Ok(1)
    }

    /// Appends a new string to array `a`: the text of the C string `bytes`.
    pub fn json_array_append_string(&mut self, a: Cell, bytes: &[u8]) -> (r: Result<Cell, Error>)
        requires
            old(self).wf(),
        ensures
            final(self).wf(),
            old(self).array_error(a) matches Some(m) ==> fails_with(r, m) && *final(self) == *old(self),
            old(self).array_error(a) is None && !vstd::utf8::valid_utf8(bytes@) ==> *final(self)
                == *old(self) && (r matches Err(e) && is_ffi_utf8_error(
                e,
                "Invalid string. Can't create UTF-8 string"@,
                bytes@,
            )),
            old(self).array_error(a) is None && vstd::utf8::valid_utf8(bytes@) ==> r == Ok::<
                Cell,
                Error,
            >(1) && final(self).same_handles(
                old(self),
                old(self).heap_with_new_pushed(a, JsonNode::String(vstd::utf8::decode_utf8(bytes@))),
            ),
    {
        let c = match self.array(a) {
            Ok(c) => c,
            Err(e) => {
                return Err(e);
            },
        };
        let s = match str_from_ptr_or(bytes, "Invalid string. Can't create UTF-8 string") {
            Ok(s) => s,
            Err(e) => {
                return Err(e);
            },
        };
        self.push_new_item(c, InnerValue::String(String::from_str(s)));
        Ok(1)
    }

    /// Appends a new cell holding `v`, a value that refers to no cell, to
    /// array `a`.
    fn append_item_with(&mut self, a: Cell, v: InnerValue) -> (r: Result<Cell, Error>)
        requires
            old(self).wf(),
            node_wf(v@, 0),
        ensures
            final(self).wf(),
            match old(self).array_error(a) {
                Some(m) => fails_with(r, m) && *final(self) == *old(self),
                None => r == Ok::<Cell, Error>(1) && final(self).same_handles(
                    old(self),
                    old(self).heap_with_new_pushed(a, v@),
                ),
            },
    {
        let c = match self.array(a) {
            Ok(c) => c,
            Err(e) => {
                return Err(e);
            },
        };
        self.push_new_item(c, v);
        Ok(1)
    }

    /// Appends a new number, `value`, to array `a`.
    pub fn json_array_append_number(&mut self, a: Cell, value: Cell) -> (r: Result<Cell, Error>)
        requires
            old(self).wf(),
        ensures
            final(self).wf(),
            match old(self).array_error(a) {
                Some(m) => fails_with(r, m) && *final(self) == *old(self),
                None => r == Ok::<Cell, Error>(1) && final(self).same_handles(
                    old(self),
                    old(self).heap_with_new_pushed(a, JsonNode::Number(Number::spec_from_isize(value))),
                ),
            },
    {
        self.append_item_with(a, InnerValue::Number(Number::from_isize(value)))
    }

    /// Appends a new number, `value` as it is, to array `a`.
    pub fn json_array_append_number_value(&mut self, a: Cell, value: Number) -> (r: Result<Cell, Error>)
        requires
            old(self).wf(),
        ensures
            final(self).wf(),
            match old(self).array_error(a) {
                Some(m) => fails_with(r, m) && *final(self) == *old(self),
                None => r == Ok::<Cell, Error>(1) && final(self).same_handles(
                    old(self),
                    old(self).heap_with_new_pushed(a, JsonNode::Number(value)),
                ),
            },
    {
        self.append_item_with(a, InnerValue::Number(value))
    }

    /// Appends a new boolean, `value`, to array `a`.
    pub fn json_array_append_bool(&mut self, a: Cell, value: bool) -> (r: Result<Cell, Error>)
        requires
            old(self).wf(),
        ensures
            final(self).wf(),
            match old(self).array_error(a) {
                Some(m) => fails_with(r, m) && *final(self) == *old(self),
                None => r == Ok::<Cell, Error>(1) && final(self).same_handles(
                    old(self),
                    old(self).heap_with_new_pushed(a, JsonNode::Bool(value)),
                ),
            },
    {
        self.append_item_with(a, InnerValue::Bool(value))
    }

    /// Appends a new null to array `a`.
    pub fn json_array_append_null(&mut self, a: Cell) -> (r: Result<Cell, Error>)
        requires
            old(self).wf(),
        ensures
            final(self).wf(),
            match old(self).array_error(a) {
                Some(m) => fails_with(r, m) && *final(self) == *old(self),
                None => r == Ok::<Cell, Error>(1) && final(self).same_handles(
                    old(self),
                    old(self).heap_with_new_pushed(a, JsonNode::Null),
                ),
            },
    {
        self.append_item_with(a, InnerValue::Null)
    }

    /// Removes item `i` of array `a`, shifting the later items down. An index
    /// past the end is not allowed (the removal would panic).
    pub fn json_array_remove(&mut self, a: Cell, i: Cell) -> (r: Result<Cell, Error>)
        requires
            old(self).wf(),
            old(self).array_error(a) is None && i >= 0 ==> i < old(self).items(a).len(),
        ensures
            final(self).wf(),
            old(self).array_error(a) matches Some(m) ==> fails_with(r, m) && *final(self) == *old(self),
            old(self).array_error(a) is None && i < 0 ==> *final(self) == *old(self) && fails_with(
                r,
                crate::ffi::ext::negative_size_message(i as int),
            ),
            old(self).array_error(a) is None && i >= 0 ==> r == Ok::<Cell, Error>(1)
                && final(self).same_handles(
                old(self),
                old(self).heap().update(
                    old(self).cell(a) as int,
                    JsonNode::Array(old(self).items(a).remove(i as int)),
                ),
            ),
    {
        let c = match self.array(a) {
            Ok(c) => c,
            Err(e) => {
                return Err(e);
            },
        };
        let k = match crate::ffi::ext::try_as_usize(i) {
            Ok(k) => k,
            Err(e) => {
                return Err(e);
            },
        };
        self.heap.array_remove(c, k);
        proof {
            assert forall|h: isize| #[trigger] self.handles.view().contains_key(h) implies self.handles.view()[h].cell < self.heap@.len() by {}
        }
        Ok(1)
    }

    /// Removes every item of array `a`.
    pub fn json_array_clear(&mut self, a: Cell) -> (r: Result<Cell, Error>)
        requires
            old(self).wf(),
        ensures
            final(self).wf(),
            match old(self).array_error(a) {
                Some(m) => fails_with(r, m) && *final(self) == *old(self),
                None => r == Ok::<Cell, Error>(1) && final(self).same_handles(
                    old(self),
                    old(self).heap().update(old(self).cell(a) as int, JsonNode::Array(Seq::empty())),
                ),
            },
    {
        let c = match self.array(a) {
            Ok(c) => c,
            Err(e) => {
                return Err(e);
            },
        };
        self.heap.array_clear(c);
        proof {
            assert forall|h: isize| #[trigger] self.handles.view().contains_key(h) implies self.handles.view()[h].cell < self.heap@.len() by {}
        }
        Ok(1)
    }

    /// Looking the C string `name` up in the value of handle `o`, part by
    /// part when `dot_notation` is set.
    pub open spec fn lookup_of(&self, o: Cell, name: Seq<u8>, dot_notation: bool) -> Lookup {
        lookup(self.heap(), self.cell(o), vstd::utf8::decode_utf8(name), dot_notation)
    }

    /// The lookup of `name` in the value of handle `o` finds a value.
    pub open spec fn member_found(&self, o: Cell, name: Seq<u8>, dot_notation: bool) -> bool {
        &&& self.valid(o)
        &&& vstd::utf8::valid_utf8(name)
        &&& self.lookup_of(o, name, dot_notation) is Found
    }

    /// The cell that the lookup of `name` in the value of handle `o` finds.
    pub open spec fn member_cell(&self, o: Cell, name: Seq<u8>, dot_notation: bool) -> usize {
        self.lookup_of(o, name, dot_notation)->Found_0
    }

    /// What the cell that the lookup finds holds.
    pub open spec fn member_node(&self, o: Cell, name: Seq<u8>, dot_notation: bool) -> JsonNode {
        self.heap()[self.member_cell(o, name, dot_notation) as int]
    }

    /// `r` is the failure of the lookup of `name` in the value of handle `o`:
    /// a handle that is not one, a name that is not UTF-8, or the lookup's
    /// own failure, in that order.
    pub open spec fn member_fails<T>(&self, r: Result<T, Error>, o: Cell, name: Seq<u8>, dot_notation: bool) -> bool {
        if !self.valid(o) {
            fails_with(r, invalid_handle_message(o as int))
        } else if !vstd::utf8::valid_utf8(name) {
            r matches Err(e) && is_utf8_error(e, name)
        } else {
            lookup_fails(r, self.lookup_of(o, name, dot_notation), vstd::utf8::decode_utf8(name))
        }
    }

    /// Looks the C string `name` up in the value of handle `o`: the object
    /// whose member was reached last, that member's name and the cell found.
    fn member(&self, o: Cell, name: &[u8], dot_notation: bool) -> (r: Result<(usize, String, usize), Error>)
        requires
            self.wf(),
        ensures
            self.member_found(o, name@, dot_notation) ==> (r matches Ok((p, k, c)) && c
                == self.member_cell(o, name@, dot_notation) && (p, k@) == member_slot(
                self.heap(),
                self.cell(o),
                vstd::utf8::decode_utf8(name@),
                dot_notation,
            ) && p < self.heap().len() && c < self.heap().len()),
            !self.member_found(o, name@, dot_notation) ==> self.member_fails(r, o, name@, dot_notation),
    {
        let g = match self.value(o) {
            Ok(g) => g,
            Err(e) => {
                return Err(e);
            },
        };
        let s = match str_from_ptr(name) {
            Ok(s) => s,
            Err(e) => {
                return Err(e);
            },
        };
        self.heap.find_slot(g.cell, s, dot_notation)
    }

    /// The error, if any, for `o` taken as a handle to an object.
    pub open spec fn object_error(&self, o: Cell) -> Option<Seq<char>> {
        if !self.valid(o) {
            Some(invalid_handle_message(o as int))
        } else if !(self.node(o) is Object) {
            Some(kind_message("JSON Handle is not object. "@, self.node(o)))
        } else {
            None
        }
    }

    /// The members of object `o`, in order: each one's name and cell.
    pub open spec fn members(&self, o: Cell) -> Seq<(Seq<char>, usize)> {
        self.node(o)->Object_0
    }

    /// The object that handle `o` refers to, by its cell.
    fn object(&self, o: Cell) -> (r: Result<usize, Error>)
        requires
            self.wf(),
        ensures
            match self.object_error(o) {
                Some(m) => fails_with(r, m),
                None => r == Ok::<usize, Error>(self.cell(o)),
            },
            r matches Ok(c) ==> c < self.heap().len(),
    {
        let g = match self.value(o) {
            Ok(g) => g,
            Err(e) => {
                return Err(e);
            },
        };
        let v = self.heap.get(g);
        match v {
            InnerValue::Object(_) => Ok(g.cell),
            _ => Err(kind_error("JSON Handle is not object. ", v)),
        }
    }

    /// A new handle to the value that the lookup of `name` in the value of
    /// handle `o` finds; it refers to the same cell.
    pub fn json_object_get_value(&mut self, o: Cell, name: &[u8], dot_notation: bool) -> (r: Result<
        Cell,
        Error,
    >)
        requires
            old(self).wf(),
            old(self).has_room(),
        ensures
            final(self).wf(),
            !old(self).member_found(o, name@, dot_notation) ==> old(self).member_fails(
                r,
                o,
                name@,
                dot_notation,
            ) && *final(self) == *old(self),
            old(self).member_found(o, name@, dot_notation) ==> r == Ok::<Cell, Error>(
                old(self).next_handle(),
            ) && final(self).added_handle(
                old(self),
                old(self).heap(),
                old(self).member_cell(o, name@, dot_notation),
            ),
    {
        let (_, _, c) = match self.member(o, name, dot_notation) {
            Ok(t) => t,
            Err(e) => {
                return Err(e);
            },
        };
        Ok(self.add_handle(GCValue { cell: c }))
    }

    /// Copies the string that the lookup of `name` in the value of handle
    /// `o` finds into `dest`, a buffer of `maxlen` characters and a NUL.
    pub fn json_object_get_string(
        &self,
        o: Cell,
        name: &[u8],
        dest: &mut [c_char],
        maxlen: Cell,
        dot_notation: bool,
    ) -> (r: Result<Cell, Error>)
        requires
            self.wf(),
            maxlen >= 0 ==> maxlen < old(dest)@.len(),
        ensures
            !self.member_found(o, name@, dot_notation) ==> self.member_fails(r, o, name@, dot_notation)
                && final(dest)@ == old(dest)@,
            self.member_found(o, name@, dot_notation) ==> string_read(
                r,
                old(dest)@,
                final(dest)@,
                self.member_node(o, name@, dot_notation),
                "JSON at object index is not string. "@,
                maxlen,
            ),
    {
        let (_, _, c) = match self.member(o, name, dot_notation) {
            Ok(t) => t,
            Err(e) => {
                return Err(e);
            },
        };
        read_string(
            self.heap.get(GCValue { cell: c }),
            "JSON at object index is not string. ",
            dest,
            maxlen,
        )
    }

    /// The number that the lookup of `name` in the value of handle `o`
    /// finds, as an integer.
    pub fn json_object_get_number(&self, o: Cell, name: &[u8], dot_notation: bool) -> (r: Result<
        Cell,
        Error,
    >)
        requires
            self.wf(),
        ensures
            !self.member_found(o, name@, dot_notation) ==> self.member_fails(r, o, name@, dot_notation),
            self.member_found(o, name@, dot_notation) ==> number_read(
                r,
                self.member_node(o, name@, dot_notation),
                "JSON at object index is not number. "@,
            ),
    {
        let (_, _, c) = match self.member(o, name, dot_notation) {
            Ok(t) => t,
            Err(e) => {
                return Err(e);
            },
        };
        read_number(self.heap.get(GCValue { cell: c }), "JSON at object index is not number. ")
    }

    /// The number that the lookup of `name` in the value of handle `o`
    /// finds, as it is.
    pub fn json_object_get_number_value(&self, o: Cell, name: &[u8], dot_notation: bool) -> (r:
        Result<Number, Error>)
        requires
            self.wf(),
        ensures
            !self.member_found(o, name@, dot_notation) ==> self.member_fails(r, o, name@, dot_notation),
            self.member_found(o, name@, dot_notation) ==> number_value_read(
                r,
                self.member_node(o, name@, dot_notation),
                "JSON at object index is not number. "@,
            ),
    {
        let (_, _, c) = match self.member(o, name, dot_notation) {
            Ok(t) => t,
            Err(e) => {
                return Err(e);
            },
        };
        read_number_value(self.heap.get(GCValue { cell: c }), "JSON at object index is not number. ")
    }

    /// The boolean that the lookup of `name` in the value of handle `o`
    /// finds: 1 for true, 0 for false.
    pub fn json_object_get_bool(&self, o: Cell, name: &[u8], dot_notation: bool) -> (r: Result<
        Cell,
        Error,
    >)
        requires
            self.wf(),
        ensures
            !self.member_found(o, name@, dot_notation) ==> self.member_fails(r, o, name@, dot_notation),
            self.member_found(o, name@, dot_notation) ==> bool_read(
                r,
                self.member_node(o, name@, dot_notation),
                "JSON at object index is not bool. "@,
            ),
    {
        let (_, _, c) = match self.member(o, name, dot_notation) {
            Ok(t) => t,
            Err(e) => {
                return Err(e);
            },
        };
        read_bool(self.heap.get(GCValue { cell: c }), "JSON at object index is not bool. ")
    }

    /// The number of members of object `o`.
    pub fn json_object_get_count(&self, o: Cell) -> (r: Result<Cell, Error>)
        requires
            self.wf(),
        ensures
            match self.object_error(o) {
                Some(m) => fails_with(r, m),
                None => r == Ok::<Cell, Error>(self.members(o).len() as isize),
            },
    {
        let c = match self.object(o) {
            Ok(c) => c,
            Err(e) => {
                return Err(e);
            },
        };
        match self.heap.get(GCValue { cell: c }) {
            InnerValue::Object(m) => Ok(crate::gc_json::object_len(m) as isize),
            _ => Ok(0),
        }
    }

    /// Member `index` of object `o`: the object's cell and the member's
    /// name and cell.
    fn member_at(&self, o: Cell, index: Cell) -> (r: Result<(usize, String, usize), Error>)
        requires
            self.wf(),
        ensures
            self.object_error(o) matches Some(m) ==> fails_with(r, m),
            self.object_error(o) is None && index < 0 ==> fails_with(
                r,
                crate::ffi::ext::negative_size_message(index as int),
            ),
            self.object_error(o) is None && index >= self.members(o).len() ==> fails_with_msg(
                r,
                "Index wasn't found"@,
            ),
            self.object_error(o) is None && 0 <= index < self.members(o).len() ==> (r matches Ok(
                (c, k, d),
            ) && c == self.cell(o) && k@ == self.members(o)[index as int].0 && d
                == self.members(o)[index as int].1 && d < self.heap().len()),
    {
        let c = match self.object(o) {
            Ok(c) => c,
            Err(e) => {
                return Err(e);
            },
        };
        let k = match crate::ffi::ext::try_as_usize(index) {
            Ok(k) => k,
            Err(e) => {
                return Err(e);
            },
        };
        proof {
            self.lemma_wf();
            assert(node_wf(self.heap()[c as int], self.heap().len() as int));
        }
        let not_found = Error::from_kind(ErrorKind::Msg(String::from_str("Index wasn't found")));
        proof {
            reveal_strlit("Index wasn't found");
        }
        match self.heap.get(GCValue { cell: c }) {
            InnerValue::Object(m) => match crate::gc_json::object_member_at(m, k) {
                Some((key, d)) => Ok((c, key.clone(), d)),
                None => Err(not_found),
            },
            _ => Err(not_found),
        }
    }

    /// Copies the name of member `index` of object `o` into `dest`, a buffer
    /// of `maxlen` characters and a NUL.
    pub fn json_object_get_name(&self, o: Cell, index: Cell, dest: &mut [c_char], maxlen: Cell) -> (r:
        Result<Cell, Error>)
        requires
            self.wf(),
            maxlen >= 0 ==> maxlen < old(dest)@.len(),
        ensures
            self.object_error(o) matches Some(m) ==> fails_with(r, m) && final(dest)@ == old(dest)@,
            self.object_error(o) is None && index < 0 ==> final(dest)@ == old(dest)@ && fails_with(
                r,
                crate::ffi::ext::negative_size_message(index as int),
            ),
            self.object_error(o) is None && index >= self.members(o).len() ==> final(dest)@ == old(
                dest,
            )@ && fails_with_msg(r, "Index wasn't found"@),
            self.object_error(o) is None && 0 <= index < self.members(o).len() ==> copy_outcome(
                r,
                old(dest)@,
                final(dest)@,
                self.members(o)[index as int].0,
                maxlen,
            ),
    {
        let (_, key, _) = match self.member_at(o, index) {
            Ok(t) => t,
            Err(e) => {
                return Err(e);
            },
        };
        copy_unsafe_string(dest, key.as_str(), maxlen)
    }

    /// A new handle to the value of member `index` of object `o`; it refers
    /// to the same cell.
    pub fn json_object_get_value_at(&mut self, o: Cell, index: Cell) -> (r: Result<Cell, Error>)
        requires
            old(self).wf(),
            old(self).has_room(),
        ensures
            final(self).wf(),
            old(self).object_error(o) matches Some(m) ==> fails_with(r, m) && *final(self) == *old(
                self,
            ),
            old(self).object_error(o) is None && index < 0 ==> *final(self) == *old(self)
                && fails_with(r, crate::ffi::ext::negative_size_message(index as int)),
            old(self).object_error(o) is None && index >= old(self).members(o).len() ==> *final(self)
                == *old(self) && fails_with_msg(r, "Index wasn't found"@),
            old(self).object_error(o) is None && 0 <= index < old(self).members(o).len() ==> r == Ok::<
                Cell,
                Error,
            >(old(self).next_handle()) && final(self).added_handle(
                old(self),
                old(self).heap(),
                old(self).members(o)[index as int].1,
            ),
    {
        let (_, _, d) = match self.member_at(o, index) {
            Ok(t) => t,
            Err(e) => {
                return Err(e);
            },
        };
        Ok(self.add_handle(GCValue { cell: d }))
    }

    /// Whether the lookup of `name` in the value of handle `o` finds a value
    /// of type code `json_type` (1 to 6, see `type_code`); 7 accepts any
    /// type. 1 for yes, 0 for no.
    pub fn json_object_has_value(&self, o: Cell, name: &[u8], json_type: Cell, dot_notation: bool) -> (r:
        Result<Cell, Error>)
        requires
            self.wf(),
        ensures
            !self.member_found(o, name@, dot_notation) ==> self.member_fails(r, o, name@, dot_notation),
            self.member_found(o, name@, dot_notation) && (json_type > 7 || json_type < 1)
                ==> fails_with(r, "Invalid json type: "@ + decimal(json_type as int)),
            self.member_found(o, name@, dot_notation) && 1 <= json_type <= 7 ==> r == Ok::<
                Cell,
                Error,
            >(
                if json_type == 7 || type_code(self.member_node(o, name@, dot_notation)) == json_type {
                    1
                } else {
                    0
                },
            ),
    {
        let (_, _, c) = match self.member(o, name, dot_notation) {
            Ok(t) => t,
            Err(e) => {
                return Err(e);
            },
        };
        let type_id: Cell = match self.heap.get(GCValue { cell: c }) {
            InnerValue::Null => 1,
            InnerValue::String(_) => 2,
            InnerValue::Number(_) => 3,
            InnerValue::Object(_) => 4,
            InnerValue::Array(_) => 5,
            InnerValue::Bool(_) => 6,
        };
        if json_type > 7 || json_type < 1 {
            return Err(message_ending_in_number("Invalid json type: ", json_type));
        }
        if json_type == 7 || type_id == json_type {
            Ok(1)
        } else {
            Ok(0)
        }
    }

    /// The heap after the member that the lookup of `name` in the value of
    /// handle `o` reaches is made to refer to cell `c`; it keeps its place.
    pub open spec fn heap_with_member(&self, o: Cell, name: Seq<u8>, dot_notation: bool, c: usize) -> Seq<
        JsonNode,
    > {
        let (p, k) = member_slot(
            self.heap(),
            self.cell(o),
            vstd::utf8::decode_utf8(name),
            dot_notation,
        );
        self.heap().update(
            p as int,
            JsonNode::Object(insert_member(self.heap()[p as int]->Object_0, k, c)),
        )
    }

    /// The heap after a new cell holding `n` is added and the member that the
    /// lookup of `name` in the value of handle `o` reaches is made to refer
    /// to it.
    pub open spec fn heap_with_new_member(&self, o: Cell, name: Seq<u8>, dot_notation: bool, n: JsonNode) -> Seq<
        JsonNode,
    > {
        let (p, k) = member_slot(
            self.heap(),
            self.cell(o),
            vstd::utf8::decode_utf8(name),
            dot_notation,
        );
        self.heap().push(n).update(
            p as int,
            JsonNode::Object(
                insert_member(self.heap()[p as int]->Object_0, k, self.heap().len() as usize),
            ),
        )
    }

    /// Makes member `key` of the object in cell `p` refer to cell `c`.
    fn set_member(&mut self, p: usize, key: String, c: usize)
        requires
            old(self).wf(),
            p < old(self).heap().len(),
            c < old(self).heap().len(),
            old(self).heap()[p as int] is Object,
        ensures
            final(self).wf(),
            final(self).same_handles(
                old(self),
                old(self).heap().update(
                    p as int,
                    JsonNode::Object(insert_member(old(self).heap()[p as int]->Object_0, key@, c)),
                ),
            ),
    {
        self.heap.object_insert(p, key, GCValue { cell: c });
        proof {
            assert forall|h: isize| #[trigger] self.handles.view().contains_key(h) implies self.handles.view()[h].cell < self.heap@.len() by {}
        }
    }

    /// Makes the member that the lookup of `name` in the value of handle `o`
    /// reaches refer to the same cell as handle `v`.
    pub fn json_object_set_value(&mut self, o: Cell, name: &[u8], v: Cell, dot_notation: bool) -> (r:
        Result<Cell, Error>)
        requires
            old(self).wf(),
        ensures
            final(self).wf(),
            old(self).handle_error(v) matches Some(m) ==> fails_with(r, m) && *final(self) == *old(self),
            old(self).handle_error(v) is None && !old(self).member_found(o, name@, dot_notation)
                ==> old(self).member_fails(r, o, name@, dot_notation) && *final(self) == *old(self),
            old(self).handle_error(v) is None && old(self).member_found(o, name@, dot_notation) ==> r
                == Ok::<Cell, Error>(1) && final(self).same_handles(
                old(self),
                old(self).heap_with_member(o, name@, dot_notation, old(self).cell(v)),
            ),
    {
        let g = match self.value(v) {
            Ok(g) => g,
            Err(e) => {
                return Err(e);
            },
        };
        let (p, k, _) = match self.member(o, name, dot_notation) {
            Ok(t) => t,
            Err(e) => {
                return Err(e);
            },
        };
        proof {
            crate::gc_json::lemma_member_slot(
                self.heap(),
                self.cell(o),
                vstd::utf8::decode_utf8(name@),
                dot_notation,
            );
        }
        self.set_member(p, k, g.cell);
        Ok(1)
    }

    /// Makes the member that the lookup of `name` in the value of handle `o`
    /// reaches refer to a new cell holding `v`, a value that refers to no
    /// cell.
    fn set_member_to(&mut self, o: Cell, name: &[u8], v: InnerValue, dot_notation: bool) -> (r: Result<
        Cell,
        Error,
    >)
        requires
            old(self).wf(),
            node_wf(v@, 0),
        ensures
            final(self).wf(),
            !old(self).member_found(o, name@, dot_notation) ==> old(self).member_fails(
                r,
                o,
                name@,
                dot_notation,
            ) && *final(self) == *old(self),
            old(self).member_found(o, name@, dot_notation) ==> r == Ok::<Cell, Error>(1)
                && final(self).same_handles(
                old(self),
                old(self).heap_with_new_member(o, name@, dot_notation, v@),
            ),
    {
        let (p, k, _) = match self.member(o, name, dot_notation) {
            Ok(t) => t,
            Err(e) => {
                return Err(e);
            },
        };
        proof {
            crate::gc_json::lemma_member_slot(
                self.heap(),
                self.cell(o),
                vstd::utf8::decode_utf8(name@),
                dot_notation,
            );
        }
        let ghost h0 = self.heap();
        let g = self.add_cell(v);
        assert(self.heap()[p as int] == h0[p as int]);
        self.set_member(p, k, g.cell);
        Ok(1)
    }

    /// Makes the member that the lookup of `name` in the value of handle `o`
    /// reaches refer to a new number, `value` as it is.
    pub fn json_object_set_number_value(&mut self, o: Cell, name: &[u8], value: Number, dot_notation: bool) -> (r:
        Result<Cell, Error>)
        requires
            old(self).wf(),
        ensures
            final(self).wf(),
            !old(self).member_found(o, name@, dot_notation) ==> old(self).member_fails(
                r,
                o,
                name@,
                dot_notation,
            ) && *final(self) == *old(self),
            old(self).member_found(o, name@, dot_notation) ==> r == Ok::<Cell, Error>(1)
                && final(self).same_handles(
                old(self),
                old(self).heap_with_new_member(o, name@, dot_notation, JsonNode::Number(value)),
            ),
    {
        self.set_member_to(o, name, InnerValue::Number(value), dot_notation)
    }

    /// Makes the member that the lookup of `name` in the value of handle `o`
    /// reaches refer to a new boolean, `value`.
    pub fn json_object_set_bool(&mut self, o: Cell, name: &[u8], value: bool, dot_notation: bool) -> (r:
        Result<Cell, Error>)
        requires
            old(self).wf(),
        ensures
            final(self).wf(),
            !old(self).member_found(o, name@, dot_notation) ==> old(self).member_fails(
                r,
                o,
                name@,
                dot_notation,
            ) && *final(self) == *old(self),
            old(self).member_found(o, name@, dot_notation) ==> r == Ok::<Cell, Error>(1)
                && final(self).same_handles(
                old(self),
                old(self).heap_with_new_member(o, name@, dot_notation, JsonNode::Bool(value)),
            ),
    {
        self.set_member_to(o, name, InnerValue::Bool(value), dot_notation)
    }

    /// Makes the member that the lookup of `name` in the value of handle `o`
    /// reaches refer to a new null.
    pub fn json_object_set_null(&mut self, o: Cell, name: &[u8], dot_notation: bool) -> (r: Result<
        Cell,
        Error,
    >)
        requires
            old(self).wf(),
        ensures
            final(self).wf(),
            !old(self).member_found(o, name@, dot_notation) ==> old(self).member_fails(
                r,
                o,
                name@,
                dot_notation,
            ) && *final(self) == *old(self),
            old(self).member_found(o, name@, dot_notation) ==> r == Ok::<Cell, Error>(1)
                && final(self).same_handles(
                old(self),
                old(self).heap_with_new_member(o, name@, dot_notation, JsonNode::Null),
            ),
    {
        self.set_member_to(o, name, InnerValue::Null, dot_notation)
    }

    /// Changes, in place, the string that the lookup of `name` in the value
    /// of handle `o` finds to the text of the C string `bytes`: every
    /// reference to that cell sees the new text.
    pub fn json_object_set_string(&mut self, o: Cell, name: &[u8], bytes: &[u8], dot_notation: bool) -> (r:
        Result<Cell, Error>)
        requires
            old(self).wf(),
        ensures
            final(self).wf(),
            !old(self).member_found(o, name@, dot_notation) ==> old(self).member_fails(
                r,
                o,
                name@,
                dot_notation,
            ) && *final(self) == *old(self),
            old(self).member_found(o, name@, dot_notation) && !(old(self).member_node(
                o,
                name@,
                dot_notation,
            ) is String) ==> *final(self) == *old(self) && fails_with(
                r,
                kind_message(
                    "Object at index is not string: "@,
                    old(self).member_node(o, name@, dot_notation),
                ),
            ),
            old(self).member_found(o, name@, dot_notation) && old(self).member_node(
                o,
                name@,
                dot_notation,
            ) is String && !vstd::utf8::valid_utf8(bytes@) ==> *final(self) == *old(self) && (r matches Err(
                e,
            ) && is_ffi_utf8_error(e, "Can't create UTF-8 string"@, bytes@)),
            old(self).member_found(o, name@, dot_notation) && old(self).member_node(
                o,
                name@,
                dot_notation,
            ) is String && vstd::utf8::valid_utf8(bytes@) ==> r == Ok::<Cell, Error>(1)
                && final(self).same_handles(
                old(self),
                old(self).heap().update(
                    old(self).member_cell(o, name@, dot_notation) as int,
                    JsonNode::String(vstd::utf8::decode_utf8(bytes@)),
                ),
            ),
    {
        let (_, _, c) = match self.member(o, name, dot_notation) {
            Ok(t) => t,
            Err(e) => {
                return Err(e);
            },
        };
        let v = self.heap.get(GCValue { cell: c });
        match v {
            InnerValue::String(_) => {},
            _ => {
                return Err(kind_error("Object at index is not string: ", v));
            },
        }
        let s = match str_from_ptr_or(bytes, "Can't create UTF-8 string") {
            Ok(s) => s,
            Err(e) => {
                return Err(e);
            },
        };
        self.heap.set_string(c, String::from_str(s));
        proof {
            assert forall|h: isize| #[trigger] self.handles.view().contains_key(h) implies self.handles.view()[h].cell < self.heap@.len() by {}
        }
        Ok(1)
    }

    /// Changes, in place, the number that the lookup of `name` in the value
    /// of handle `o` finds to `number`: every reference to that cell sees
    /// the new number.
    pub fn json_object_set_number(&mut self, o: Cell, name: &[u8], number: Cell, dot_notation: bool) -> (r:
        Result<Cell, Error>)
        requires
            old(self).wf(),
        ensures
            final(self).wf(),
            !old(self).member_found(o, name@, dot_notation) ==> old(self).member_fails(
                r,
                o,
                name@,
                dot_notation,
            ) && *final(self) == *old(self),
            old(self).member_found(o, name@, dot_notation) && !(old(self).member_node(
                o,
                name@,
                dot_notation,
            ) is Number) ==> *final(self) == *old(self) && fails_with(
                r,
                kind_message(
                    "Object at index is not number: "@,
                    old(self).member_node(o, name@, dot_notation),
                ),
            ),
            old(self).member_found(o, name@, dot_notation) && old(self).member_node(
                o,
                name@,
                dot_notation,
            ) is Number ==> r == Ok::<Cell, Error>(1) && final(self).same_handles(
                old(self),
                old(self).heap().update(
                    old(self).member_cell(o, name@, dot_notation) as int,
                    JsonNode::Number(Number::spec_from_isize(number)),
                ),
            ),
    {
        let (_, _, c) = match self.member(o, name, dot_notation) {
            Ok(t) => t,
            Err(e) => {
                return Err(e);
            },
        };
        let v = self.heap.get(GCValue { cell: c });
        match v {
            InnerValue::Number(_) => {},
            _ => {
                return Err(kind_error("Object at index is not number: ", v));
            },
        }
        self.heap.set_number(c, Number::from_isize(number));
        proof {
            assert forall|h: isize| #[trigger] self.handles.view().contains_key(h) implies self.handles.view()[h].cell < self.heap@.len() by {}
        }
        Ok(1)
    }

    /// Removes the member named by the C string `name`, if there is one, from
    /// object `o`; the last member moves into its place.
    pub fn json_object_remove(&mut self, o: Cell, name: &[u8]) -> (r: Result<Cell, Error>)
        requires
            old(self).wf(),
        ensures
            final(self).wf(),
            old(self).object_error(o) matches Some(m) ==> fails_with(r, m) && *final(self) == *old(self),
            old(self).object_error(o) is None && !vstd::utf8::valid_utf8(name@) ==> *final(self)
                == *old(self) && (r matches Err(e) && is_ffi_utf8_error(
                e,
                "Can't create UTF-8 string"@,
                name@,
            )),
            old(self).object_error(o) is None && vstd::utf8::valid_utf8(name@) ==> r == Ok::<
                Cell,
                Error,
            >(1) && final(self).same_handles(
                old(self),
                old(self).heap().update(
                    old(self).cell(o) as int,
                    JsonNode::Object(
                        swap_remove_member(old(self).members(o), vstd::utf8::decode_utf8(name@)),
                    ),
                ),
            ),
    {
        let c = match self.object(o) {
            Ok(c) => c,
            Err(e) => {
                return Err(e);
            },
        };
        let key = match str_from_ptr_or(name, "Can't create UTF-8 string") {
            Ok(s) => s,
            Err(e) => {
                return Err(e);
            },
        };
        self.heap.object_remove(c, key);
        proof {
            assert forall|h: isize| #[trigger] self.handles.view().contains_key(h) implies self.handles.view()[h].cell < self.heap@.len() by {}
        }
        Ok(1)
    }

    /// Removes every member of object `o`.
    pub fn json_object_clear(&mut self, o: Cell) -> (r: Result<Cell, Error>)
        requires
            old(self).wf(),
        ensures
            final(self).wf(),
            match old(self).object_error(o) {
                Some(m) => fails_with(r, m) && *final(self) == *old(self),
                None => r == Ok::<Cell, Error>(1) && final(self).same_handles(
                    old(self),
                    old(self).heap().update(old(self).cell(o) as int, JsonNode::Object(Seq::empty())),
                ),
            },
    {
        let c = match self.object(o) {
            Ok(c) => c,
            Err(e) => {
                return Err(e);
            },
        };
        self.heap.object_clear(c);
        proof {
            assert forall|h: isize| #[trigger] self.handles.view().contains_key(h) implies self.handles.view()[h].cell < self.heap@.len() by {}
        }
        Ok(1)
    }

    /// A new handle to a copy of the value of handle `o` in new cells, down
    /// to `recursion_limit` levels: a container at the last level is copied
    /// empty. The copy shares no cell with anything that was there before.
    /// A limit of 0 is allowed only for a value with nothing below it (the
    /// copy would count the limit down past zero).
    pub fn json_deep_copy(&mut self, o: Cell, recursion_limit: Cell) -> (r: Result<Cell, Error>)
        requires
            old(self).wf(),
            old(self).has_room(),
            old(self).valid(o) && recursion_limit >= 0 ==> limit_ok(
                old(self).node(o),
                recursion_limit as nat,
            ),
        ensures
            final(self).wf(),
            old(self).handle_error(o) matches Some(m) ==> fails_with(r, m) && *final(self) == *old(self),
            old(self).valid(o) && recursion_limit < 0 ==> *final(self) == *old(self) && fails_with(
                r,
                crate::ffi::ext::negative_size_message(recursion_limit as int),
            ),
            old(self).valid(o) && recursion_limit >= 0 ==> {
                let h = old(self).next_handle();
                &&& r == Ok::<Cell, Error>(h)
                &&& final(self).next_handle() == h + 1
                &&& final(self).handles() == old(self).handles().insert(h, final(self).cell(h))
                &&& old(self).heap().len() <= final(self).cell(h)
                &&& final(self).heap().take(old(self).heap().len() as int) == old(self).heap()
                &&& holds_tree(
                    final(self).heap(),
                    final(self).cell(h),
                    unfold(old(self).heap(), old(self).cell(o), recursion_limit as nat),
                    old(self).heap().len() as int,
                )
            },
    {
        let g = match self.value(o) {
            Ok(g) => g,
            Err(e) => {
                return Err(e);
            },
        };
        let limit = match crate::ffi::ext::try_as_usize(recursion_limit) {
            Ok(k) => k,
            Err(e) => {
                return Err(e);
            },
        };
        let ghost h0 = self.heap@;
        let copy = g.deep_clone_with_recursion_limit(&mut self.heap, limit);
        proof {
            assert forall|k: isize| #[trigger] self.handles.view().contains_key(k) implies self.handles.view()[k].cell < self.heap@.len() by {
                assert(self.heap@.len() >= h0.len());
            }
        }
        Ok(self.add_handle(copy))
    }

    /// The value of handle `h` written out as a tree, down to
    /// `recursion_limit` levels: a container at the last level is written
    /// out empty. A limit of 0 is allowed only for a value with nothing
    /// below it.
    pub fn json_to_tree(&self, h: Cell, recursion_limit: Cell) -> (r: Result<JsonTree, Error>)
        requires
            self.wf(),
            self.valid(h) && recursion_limit >= 0 ==> limit_ok(self.node(h), recursion_limit as nat),
        ensures
            self.handle_error(h) matches Some(m) ==> fails_with(r, m),
            self.valid(h) && recursion_limit < 0 ==> fails_with(
                r,
                crate::ffi::ext::negative_size_message(recursion_limit as int),
            ),
            self.valid(h) && recursion_limit >= 0 ==> (r matches Ok(t) && t.tree_view() == unfold(
                self.heap(),
                self.cell(h),
                recursion_limit as nat,
            )),
    {
        let g = match self.value(h) {
            Ok(g) => g,
            Err(e) => {
                return Err(e);
            },
        };
        let limit = match crate::ffi::ext::try_as_usize(recursion_limit) {
            Ok(k) => k,
            Err(e) => {
                return Err(e);
            },
        };
        Ok(g.into_with_recursion_limit(&self.heap, limit))
    }

    /// The type codes of the values of the members of object `o`, in order.
    pub open spec fn member_types(&self, o: Cell) -> Seq<isize> {
        self.members(o).map_values(|m: (Seq<char>, usize)| type_code(self.heap()[m.1 as int]))
    }

    /// The names of the members of object `o`, in order.
    pub open spec fn member_names(&self, o: Cell) -> Seq<Seq<char>> {
        self.members(o).map_values(|m: (Seq<char>, usize)| m.0)
    }

    /// The error, if any, for `o` taken as an object to validate.
    pub open spec fn schema_error(&self, o: Cell) -> Option<Seq<char>> {
        if !self.valid(o) {
            Some(invalid_handle_message(o as int))
        } else if !(self.node(o) is Object) {
            Some("JSON schema is not object"@)
        } else {
            None
        }
    }

    /// The object that handle `o` refers to, for validation.
    fn schema_object(&self, o: Cell) -> (r: Result<usize, Error>)
        requires
            self.wf(),
        ensures
            match self.schema_error(o) {
                Some(m) => fails_with(r, m),
                None => r == Ok::<usize, Error>(self.cell(o)),
            },
            r matches Ok(c) ==> c < self.heap().len(),
    {
        let g = match self.value(o) {
            Ok(g) => g,
            Err(e) => {
                return Err(e);
            },
        };
        proof {
            reveal_strlit("JSON schema is not object");
        }
        match self.heap.get(g) {
            InnerValue::Object(_) => Ok(g.cell),
            _ => Err(Error::from_kind(ErrorKind::FFIError(String::from_str("JSON schema is not object")))),
        }
    }

    /// Whether object `value` matches object `schema`: the same member names
    /// in the same order, with values of the same types. 1 for yes, 0 for
    /// no.
    pub fn json_validate(&self, schema: Cell, value: Cell) -> (r: Result<Cell, Error>)
        requires
            self.wf(),
        ensures
            self.schema_error(schema) matches Some(m) ==> fails_with(r, m),
            self.schema_error(schema) is None ==> (self.schema_error(value) matches Some(m) ==> fails_with(r, m)),
            self.schema_error(schema) is None && self.schema_error(value) is None ==> r == Ok::<
                Cell,
                Error,
            >(
                if self.member_types(schema) == self.member_types(value) && self.member_names(schema)
                    == self.member_names(value) {
                    1
                } else {
                    0
                },
            ),
    {
        let sc = match self.schema_object(schema) {
            Ok(c) => c,
            Err(e) => {
                return Err(e);
            },
        };
        let vc = match self.schema_object(value) {
            Ok(c) => c,
            Err(e) => {
                return Err(e);
            },
        };
        proof {
            self.lemma_wf();
            assert(node_wf(self.heap()[sc as int], self.heap().len() as int));
            assert(node_wf(self.heap()[vc as int], self.heap().len() as int));
        }
        let sv = self.heap.get(GCValue { cell: sc });
        let vv = self.heap.get(GCValue { cell: vc });
        match (sv, vv) {
            (InnerValue::Object(sm), InnerValue::Object(vm)) => {
                let ghost se = self.members(schema);
                let ghost ve = self.members(value);
                let n = crate::gc_json::object_len(sm);
                if n != crate::gc_json::object_len(vm) {
                    proof {
                        assert(self.member_types(schema).len() != self.member_types(value).len());
                    }
                    return Ok(0);
                }
                let mut same_types = true;
                let mut same_names = true;
                let mut i: usize = 0;
                proof {
                    assert(self.member_types(schema).take(0) =~= self.member_types(value).take(0));
                    assert(self.member_names(schema).take(0) =~= self.member_names(value).take(0));
                }
                while i < n
                    invariant
                        self.wf(),
                        heap_wf(self.heap()),
                        n == se.len(),
                        n == ve.len(),
                        se == crate::gc_json::object_entries(*sm),
                        ve == crate::gc_json::object_entries(*vm),
                        forall|j: int| 0 <= j < n ==> #[trigger] se[j].1 < self.heap().len(),
                        forall|j: int| 0 <= j < n ==> #[trigger] ve[j].1 < self.heap().len(),
                        0 <= i <= n,
                        same_types == (self.member_types(schema).take(i as int) == self.member_types(
                            value,
                        ).take(i as int)),
                        same_names == (self.member_names(schema).take(i as int) == self.member_names(
                            value,
                        ).take(i as int)),
                        self.member_types(schema).len() == n,
                        self.member_types(value).len() == n,
                        self.member_names(schema).len() == n,
                        self.member_names(value).len() == n,
                        forall|j: int| 0 <= j < n ==> #[trigger] self.member_types(schema)[j] == type_code(self.heap()[se[j].1 as int]),
                        forall|j: int| 0 <= j < n ==> #[trigger] self.member_types(value)[j] == type_code(self.heap()[ve[j].1 as int]),
                        forall|j: int| 0 <= j < n ==> #[trigger] self.member_names(schema)[j] == se[j].0,
                        forall|j: int| 0 <= j < n ==> #[trigger] self.member_names(value)[j] == ve[j].0,
                    decreases n - i,
                {
                    let (sk, sx) = crate::gc_json::object_member_at(sm, i).unwrap();
                    let (vk, vx) = crate::gc_json::object_member_at(vm, i).unwrap();
                    let st = code_of(self.heap.get(GCValue { cell: sx }));
                    let vt = code_of(self.heap.get(GCValue { cell: vx }));
                    let ghost ts = self.member_types(schema);
                    let ghost tv = self.member_types(value);
                    let ghost ns = self.member_names(schema);
                    let ghost nv = self.member_names(value);
                    proof {
                        assert(ts.take(i + 1) =~= ts.take(i as int).push(ts[i as int]));
                        assert(tv.take(i + 1) =~= tv.take(i as int).push(tv[i as int]));
                        assert(ns.take(i + 1) =~= ns.take(i as int).push(ns[i as int]));
                        assert(nv.take(i + 1) =~= nv.take(i as int).push(nv[i as int]));
                        if ts.take(i + 1) == tv.take(i + 1) {
                            assert(ts.take(i + 1)[i as int] == tv.take(i + 1)[i as int]);
                            assert(ts.take(i as int) =~= ts.take(i + 1).drop_last());
                            assert(tv.take(i as int) =~= tv.take(i + 1).drop_last());
                        }
                        if ns.take(i + 1) == nv.take(i + 1) {
                            assert(ns.take(i + 1)[i as int] == nv.take(i + 1)[i as int]);
                            assert(ns.take(i as int) =~= ns.take(i + 1).drop_last());
                            assert(nv.take(i as int) =~= nv.take(i + 1).drop_last());
                        }
                    }
                    same_types = same_types && st == vt;
                    same_names = same_names && *sk == *vk;
                    i = i + 1;
                }
                proof {
                    assert(self.member_types(schema).take(n as int) =~= self.member_types(schema));
                    assert(self.member_types(value).take(n as int) =~= self.member_types(value));
                    assert(self.member_names(schema).take(n as int) =~= self.member_names(schema));
                    assert(self.member_names(value).take(n as int) =~= self.member_names(value));
                }
                if same_types && same_names {
                    Ok(1)
                } else {
                    Ok(0)
                }
            },
            _ => Ok(0),
        }
    }

    /// Whether a collection is due, `elapsed_millis` milliseconds after the
    /// last one: collections run at most once a second.
    pub fn collection_due(elapsed_millis: u128) -> (r: bool)
        ensures
            r == (elapsed_millis >= 1000),
    {
        elapsed_millis >= 1000
    }

    /// The cells that the handles refer to.
    pub open spec fn handle_cells(&self) -> Set<usize> {
        Set::new(|c: usize| exists|h: Cell| #[trigger] self.valid(h) && self.cell(h) == c)
    }

    /// Empties to `null` every cell that no handle can reach along the
    /// references of arrays and objects, freeing what those cells held. The
    /// handles, and every cell they can reach, stay as they were.
    pub fn collect(&mut self)
        requires
            old(self).wf(),
        ensures
            final(self).wf(),
            final(self).handles() == old(self).handles(),
            final(self).next_handle() == old(self).next_handle(),
            exists|marked: Seq<bool>|
                reachable_marks(old(self).heap(), old(self).handle_cells(), marked) && final(self).heap()
                    == swept(old(self).heap(), marked),
    {
        proof {
            self.lemma_wf();
        }
        let ghost h0 = self.heap();
        let mut roots: Vec<usize> = Vec::new();
        let next = self.handles.peek_id();
        let mut id: isize = 1;
        proof {
            assert forall|h: Cell| #[trigger] self.valid(h) && h < id implies roots@.contains(self.cell(h)) by {
                crate::cell_map::law_ids_below_next(self.handles, h);
            }
        }
        while id < next
            invariant
                self.wf(),
                self.heap() == h0,
                next == self.next_handle(),
                1 <= id,
                id <= next || id == 1,
                forall|i: int| 0 <= i < roots@.len() ==> #[trigger] roots@[i] < h0.len(),
                forall|i: int|
                    0 <= i < roots@.len() ==> self.handle_cells().contains(#[trigger] roots@[i]),
                forall|h: Cell| #[trigger] self.valid(h) && h < id ==> roots@.contains(self.cell(h)),
            decreases next - id,
        {
            let ghost before = roots@;
            match self.handles.get_with_id(id) {
                Some(g) => {
                    proof {
                        assert(self.valid(id));
                        assert(self.cell(id) == g.cell);
                        self.lemma_wf();
                    }
                    roots.push(g.cell);
                    proof {
                        assert(roots@[roots@.len() - 1] == g.cell);
                    }
                },
                None => {
                    assert(!self.valid(id));
                },
            }
            proof {
                assert forall|h: Cell| #[trigger] self.valid(h) && h < id + 1 implies roots@.contains(self.cell(h)) by {
                    if h < id {
                        assert(before.contains(self.cell(h)));
                        let i = choose|i: int| 0 <= i < before.len() && before[i] == self.cell(h);
                        assert(roots@[i] == self.cell(h));
                    } else {
                        assert(roots@[roots@.len() - 1] == self.cell(h));
                    }
                }
            }
            id = id + 1;
        }
        proof {
            assert forall|h: Cell| #[trigger] self.valid(h) implies roots@.contains(self.cell(h)) by {
                crate::cell_map::law_ids_below_next(self.handles, h);
            }
            assert(roots@.to_set() =~= self.handle_cells()) by {
                assert forall|c: usize| #[trigger] roots@.to_set().contains(c) implies self.handle_cells().contains(c) by {
                    assert(roots@.contains(c));
                    let i = choose|i: int| 0 <= i < roots@.len() && roots@[i] == c;
                    assert(self.handle_cells().contains(roots@[i]));
                }
                assert forall|c: usize| #[trigger] self.handle_cells().contains(c) implies roots@.to_set().contains(c) by {
                    let h = choose|h: Cell| #[trigger] self.valid(h) && self.cell(h) == c;
                    assert(roots@.contains(self.cell(h)));
                }
            }
        }
        self.heap.sweep(&roots);
        proof {
            assert forall|h: isize| #[trigger] self.handles.view().contains_key(h) implies self.handles.view()[h].cell < self.heap@.len() by {
                assert(self.valid(h));
            }
        }
    }
}

/// A handle refers to a cell, not to a copy of a value: when the string that
/// another path reaches is changed in place, a handle to the same cell reads
/// the new string.
pub proof fn law_shared_value_sees_string_change(
    s1: JsonStore,
    s2: JsonStore,
    o: Cell,
    name: Seq<u8>,
    dot_notation: bool,
    bytes: Seq<u8>,
    h: Cell,
)
    requires
        s1.wf(),
        s1.valid(h),
        s1.member_found(o, name, dot_notation),
        s1.cell(h) == s1.member_cell(o, name, dot_notation),
        s2.same_handles(
            &s1,
            s1.heap().update(
                s1.member_cell(o, name, dot_notation) as int,
                JsonNode::String(vstd::utf8::decode_utf8(bytes)),
            ),
        ),
    ensures
        s2.valid(h),
        s2.node(h) == JsonNode::String(vstd::utf8::decode_utf8(bytes)),
{
    s1.lemma_wf();
}

/// After a member is set to the value of a handle, looking the member up
/// again finds that very value. With dot notation this needs the path to
/// the member's object not to go through the member itself (otherwise the
/// path changes under the write).
pub proof fn law_read_after_set_value(s1: JsonStore, s2: JsonStore, o: Cell, name: Seq<u8>, v: Cell, dot_notation: bool)
    requires
        s1.wf(),
        s1.valid(v),
        s1.member_found(o, name, dot_notation),
        dot_notation ==> crate::gc_json::avoids_member(
            s1.heap(),
            s1.cell(o),
            crate::gc_json::split_dots(vstd::utf8::decode_utf8(name)).drop_last(),
            member_slot(s1.heap(), s1.cell(o), vstd::utf8::decode_utf8(name), true).0,
            member_slot(s1.heap(), s1.cell(o), vstd::utf8::decode_utf8(name), true).1,
        ),
        s2.same_handles(&s1, s1.heap_with_member(o, name, dot_notation, s1.cell(v))),
    ensures
        s2.member_found(o, name, dot_notation),
        s2.member_cell(o, name, dot_notation) == s1.cell(v),
{
    s1.lemma_wf();
    let text = vstd::utf8::decode_utf8(name);
    let c = s1.cell(o);
    let h = s1.heap();
    crate::gc_json::lemma_member_slot(h, c, text, dot_notation);
    assert(s1.valid(o));
    assert(c < h.len());
    let (p, k) = member_slot(h, c, text, dot_notation);
    if dot_notation {
        let segs = crate::gc_json::split_dots(text);
        crate::gc_json::lemma_split_dots_len(text);
        assert(crate::gc_json::walk(h, c, segs.drop_last()) is Found);
        crate::gc_json::lemma_walk_in_bounds(h, c, segs.drop_last());
    }
    assert(p < h.len());
    let entries = h[p as int]->Object_0;
    assert(node_wf(h[p as int], h.len() as int));
    crate::gc_json::law_set_member(entries, k, s1.cell(v));
    let h2 = s2.heap();
    assert(h2[p as int] == JsonNode::Object(insert_member(entries, k, s1.cell(v))));
    assert(step(h2, p, k) == Lookup::Found(s1.cell(v)));
    if dot_notation {
        let segs = crate::gc_json::split_dots(text);
        crate::gc_json::lemma_split_dots_len(text);
        crate::gc_json::lemma_walk_after_set_member(h, c, segs.drop_last(), p, k, s1.cell(v));
        assert(segs.last() == k);
        assert(segs.last().len() != 0);
    }
}

/// After a value is appended to an array, the array has one item more, and
/// the last one refers to the appended value.
pub proof fn law_append_then_read(s1: JsonStore, s2: JsonStore, a: Cell, v: Cell)
    requires
        s1.wf(),
        s1.array_error(a) is None,
        s1.valid(v),
        s2.same_handles(&s1, s1.heap_with_pushed(a, s1.cell(v))),
    ensures
        s2.array_error(a) is None,
        s2.items(a).len() == s1.items(a).len() + 1,
        s2.items(a)[s1.items(a).len() as int] == s1.cell(v),
{
    s1.lemma_wf();
}

/// Handles are greater than 1 and never reused: every handle in use lies
/// between 2 and the handle that the next new value gets, so the next
/// handle is fresh.
pub proof fn law_handles_below_next(s: JsonStore, h: Cell)
    requires
        s.wf(),
        s.handles().contains_key(h),
    ensures
        2 <= h < s.next_handle(),
        !s.handles().contains_key(s.next_handle()),
{
    assert(s.handles.view().contains_key(h));
    crate::cell_map::law_ids_below_next(s.handles, h);
    if s.handles.view().contains_key(s.next_handle()) {
        crate::cell_map::law_ids_below_next(s.handles, s.next_handle());
    }
}

/// Destroying a handle leaves every other handle, and the value it refers
/// to, as it was: a value lives on while a handle refers to it.
pub proof fn law_other_handles_survive_destroy(s1: JsonStore, s2: JsonStore, h: Cell, other: Cell)
    requires
        s1.valid(other),
        other != h,
        s2.heap() == s1.heap(),
        s2.handles() == s1.handles().remove(h),
    ensures
        s2.valid(other),
        s2.node(other) == s1.node(other),
{
}

/// Reading a value gives back what it holds, unchanged: a number read as a
/// number is that very number (a float keeps its sign and all its bits); a
/// boolean reads as 1 or 0; a number read as an integer is the integer it
/// is, when it is one that fits an `i64`, and an error for a float or a
/// larger integer; and a value of another kind is an error.
pub proof fn law_reads_give_stored_values(
    n: JsonNode,
    prefix: Seq<char>,
    as_number: Result<Number, Error>,
    as_integer: Result<Cell, Error>,
    as_bool: Result<Cell, Error>,
)
    requires
        number_value_read(as_number, n, prefix),
        number_read(as_integer, n, prefix),
        bool_read(as_bool, n, prefix),
    ensures
        n matches JsonNode::Number(x) ==> as_number == Ok::<Number, Error>(x),
        !(n is Number) ==> as_number is Err && as_integer is Err,
        n matches JsonNode::Number(x) ==> (x matches Number::NegInt(i) ==> as_integer == Ok::<
            Cell,
            Error,
        >(i as isize)),
        n matches JsonNode::Number(x) ==> (x matches Number::PosInt(u) ==> (u <= i64::MAX ==> as_integer
            == Ok::<Cell, Error>(u as isize))),
        n matches JsonNode::Number(x) ==> (x matches Number::PosInt(u) ==> (u > i64::MAX
            ==> as_integer is Err)),
        n matches JsonNode::Number(x) ==> (x is Float ==> as_integer is Err),
        n matches JsonNode::Bool(b) ==> as_bool == Ok::<Cell, Error>(
            if b {
                1
            } else {
                0
            },
        ),
        !(n is Bool) ==> as_bool is Err,
{
}

/// A number written from an integer reads back as that integer.
pub proof fn law_number_round_trip(n: Cell)
    ensures
        integer_result(Ok::<Cell, Error>(n), Number::spec_from_isize(n)),
{
}

/// A C string (no NUL among its bytes) that is UTF-8, stored as a JSON
/// string and copied out again, gives back its own bytes: the C string
/// that is copied is those bytes and a NUL.
pub proof fn law_string_round_trip(bytes: Seq<u8>)
    requires
        vstd::utf8::valid_utf8(bytes),
        forall|i: int| 0 <= i < bytes.len() ==> #[trigger] bytes[i] != 0,
    ensures
        crate::ffi::ext::c_string_of(vstd::utf8::decode_utf8(bytes)) == bytes.map_values(
            |b: u8| b as c_char,
        ).push(0),
        crate::ffi::strlcpy::c_strlen(crate::ffi::ext::c_string_of(vstd::utf8::decode_utf8(bytes)))
            == bytes.len(),
{
    vstd::utf8::decode_utf8_encode_utf8(bytes);
    let src = crate::ffi::ext::c_string_of(vstd::utf8::decode_utf8(bytes));
    assert(src =~= bytes.map_values(|b: u8| b as c_char).push(0));
    assert forall|j: int| 0 <= j < bytes.len() implies src[j] != 0 by {
        assert(src[j] == bytes[j] as c_char);
        assert(bytes[j] != 0);
        let b = bytes[j];
        assert(b != 0 ==> b as c_char != 0) by (bit_vector);
    }
    assert(crate::ffi::strlcpy::strlen_is(src, bytes.len() as int));
    crate::ffi::strlcpy::lemma_c_strlen(src);
}

/// Collecting frees only what no handle can reach: the value of every
/// handle reads the same afterwards, at any limit.
pub proof fn law_collect_keeps_values(s1: JsonStore, s2: JsonStore, marked: Seq<bool>, h: Cell, limit: nat)
    requires
        s1.wf(),
        reachable_marks(s1.heap(), s1.handle_cells(), marked),
        s2.heap() == swept(s1.heap(), marked),
        s2.handles() == s1.handles(),
        s1.valid(h),
    ensures
        s2.valid(h),
        unfold(s2.heap(), s2.cell(h), limit) == unfold(s1.heap(), s1.cell(h), limit),
{
    s1.lemma_wf();
    assert(s1.handle_cells().contains(s1.cell(h)));
    crate::gc_json::lemma_unfold_marked(s1.heap(), s2.heap(), marked, s1.cell(h), limit);
}

/// Collecting changes no lookup of a member name from the value of a
/// handle.
pub proof fn law_collect_keeps_lookups(
    s1: JsonStore,
    s2: JsonStore,
    marked: Seq<bool>,
    h: Cell,
    name: Seq<char>,
    dot_notation: bool,
)
    requires
        s1.wf(),
        reachable_marks(s1.heap(), s1.handle_cells(), marked),
        s2.heap() == swept(s1.heap(), marked),
        s2.handles() == s1.handles(),
        s1.valid(h),
    ensures
        lookup(s2.heap(), s2.cell(h), name, dot_notation) == lookup(s1.heap(), s1.cell(h), name, dot_notation),
{
    s1.lemma_wf();
    assert(s1.handle_cells().contains(s1.cell(h)));
    let c = s1.cell(h);
    crate::gc_json::lemma_walk_marked(s1.heap(), s2.heap(), marked, c, crate::gc_json::split_dots(name));
    assert(s2.heap()[c as int] == s1.heap()[c as int]);
}

/// Collecting changes no comparison between the values of two handles.
pub proof fn law_collect_keeps_equality(s1: JsonStore, s2: JsonStore, marked: Seq<bool>, a: Cell, b: Cell, fuel: nat)
    requires
        s1.wf(),
        reachable_marks(s1.heap(), s1.handle_cells(), marked),
        s2.heap() == swept(s1.heap(), marked),
        s2.handles() == s1.handles(),
        s1.valid(a),
        s1.valid(b),
    ensures
        eq_outcome(s2.heap(), s2.cell(a), s2.cell(b), fuel) == eq_outcome(s1.heap(), s1.cell(a), s1.cell(b), fuel),
{
    s1.lemma_wf();
    assert(s1.handle_cells().contains(s1.cell(a)));
    assert(s1.handle_cells().contains(s1.cell(b)));
    crate::gc_json::lemma_eq_marked(s1.heap(), s2.heap(), marked, s1.cell(a), s1.cell(b), fuel);
}

/// `json_equals` always answers when the value of its second handle holds
/// no value that contains itself: it returns `Ok(Some(_))`, and, asked
/// about one such handle twice, `Ok(Some(true))`. (A heap's cells number
/// at most `usize::MAX`, as any `Vec`'s do.)
pub proof fn law_json_equals_answers(s: JsonStore, value1: Cell, value2: Cell)
    requires
        s.wf(),
        s.valid(value1),
        s.valid(value2),
        crate::gc_json::self_free(s.heap(), s.cell(value2)),
        s.heap().len() <= usize::MAX,
    ensures
        eq_outcome(
            s.heap(),
            s.cell(value2),
            s.cell(value1),
            crate::gc_json::comparison_fuel(s.heap().len()),
        ) is Some,
        value1 == value2 ==> eq_outcome(
            s.heap(),
            s.cell(value2),
            s.cell(value1),
            crate::gc_json::comparison_fuel(s.heap().len()),
        ) == Some(true),
{
    s.lemma_wf();
    crate::gc_json::lemma_comparison_fuel_covers_cells(s.heap().len());
    crate::gc_json::law_equals_answers(
        s.heap(),
        s.cell(value2),
        s.cell(value1),
        crate::gc_json::comparison_fuel(s.heap().len()),
    );
}

} // verus!
