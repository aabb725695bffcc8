//! The byte-size oracle: how many bytes a key or value is charged.
//!
//! Plain data is charged its in-memory footprint; containers add the
//! recursively computed size of their elements and any spare reserved
//! capacity. Sizes saturate at `usize::MAX` instead of overflowing.

use vstd::layout::size_of;
use vstd::prelude::*;
use vstd::string::StringSliceAdditionalSpecFns;

verus! {

/// A mathematical size squeezed into the range a `usize` can carry.
pub open spec fn clamp_usize(n: nat) -> nat {
    if n > usize::MAX as nat {
        usize::MAX as nat
    } else {
        n
    }
}

/// Values that can report how many bytes they occupy.
///
/// `bytes` reports at least the abstract size (clamped to `usize`): exactly
/// it for plain data and strings, and possibly more for containers, which
/// also charge spare capacity their allocator happened to reserve.
pub trait MemorySize {
    /// The abstract charged size: footprint plus recursive content, not
    /// counting spare reserved capacity.
    spec fn size_spec(&self) -> nat;

    /// Whether `bytes` reports exactly the abstract size. Containers that
    /// also charge whatever spare capacity their allocator reserved report
    /// at least it instead.
    spec fn exact_size(&self) -> bool;

    /// Reports the charged size, saturating at `usize::MAX`.
    fn bytes(&self) -> (r: usize)
        ensures
            r as nat >= clamp_usize(self.size_spec()),
            self.exact_size() ==> r as nat == clamp_usize(self.size_spec()),
    ;
}

/// Sum of the abstract sizes of a sequence of values.
pub open spec fn seq_size_spec<T: MemorySize>(s: Seq<T>) -> nat
    decreases s.len(),
{
    if s.len() == 0 {
        0
    } else {
        seq_size_spec(s.drop_last()) + s.last().size_spec()
    }
}

/// Marker for values that live entirely on the stack: their charged size is
/// exactly their footprint.
pub trait JustStack {

}

impl JustStack for bool {

}

impl JustStack for u8 {

}

impl JustStack for u16 {

}

impl JustStack for u32 {

}

impl JustStack for u64 {

}

impl JustStack for usize {

}

impl JustStack for i8 {

}

impl JustStack for i16 {

}

impl JustStack for i32 {

}

impl JustStack for i64 {

}

impl JustStack for isize {

}

impl<T: ?Sized> JustStack for &T {

}

impl<T: ?Sized> JustStack for &mut T {

}

impl<A: JustStack> JustStack for (A,) {

}

impl<A: JustStack, B: JustStack> JustStack for (A, B) {

}

impl<A: JustStack, B: JustStack, C: JustStack> JustStack for (A, B, C) {

}

impl<T: JustStack> MemorySize for T {
    open spec fn size_spec(&self) -> nat {
        size_of::<T>()
    }

    open spec fn exact_size(&self) -> bool {
        true
    }

    fn bytes(&self) -> (r: usize) {
        core::mem::size_of::<T>()
    }
}

/// Charges `content` plus one `elem_size` for every spare slot a container
/// has reserved beyond its `len`, saturating at `usize::MAX`. The capacity a
/// container reports depends on its allocator, so the containers draw it
/// through a trusted wrapper and this function pins the arithmetic for
/// whatever value came back.
pub fn charged_with_spare(content: usize, len: usize, cap: usize, elem_size: usize) -> (r: usize)
    requires
        len <= cap,
    ensures
        r as nat == clamp_usize(content as nat + (cap - len) as nat * elem_size as nat),
{
    let spare = cap - len;
    match spare.checked_mul(elem_size) {
        Some(slack) => content.saturating_add(slack),
        None => usize::MAX,
    }
}

/// Relies on `Vec::capacity`: a vector's capacity is at least its length.
#[verifier::external_body]
fn vec_capacity<T>(v: &Vec<T>) -> (c: usize)
    ensures
        c >= v@.len(),
{
    v.capacity()
}

impl<T: MemorySize> MemorySize for Vec<T> {
    open spec fn size_spec(&self) -> nat {
        size_of::<Vec<T>>() + seq_size_spec(self@)
    }

    open spec fn exact_size(&self) -> bool {
        false
    }

    fn bytes(&self) -> (r: usize) {
        let mut total: usize = core::mem::size_of::<Vec<T>>();
        let mut idx: usize = 0;
        while idx < self.len()
            invariant
                idx <= self@.len(),
                total as nat >= clamp_usize(size_of::<Vec<T>>() + seq_size_spec(self@.take(idx as int))),
            decreases self@.len() - idx,
        {
            let elem_bytes = self[idx].bytes();
            proof {
                assert(self@.take(idx as int + 1).drop_last() =~= self@.take(idx as int));
                assert(self@.take(idx as int + 1).last() == self@[idx as int]);
            }
            total = total.saturating_add(elem_bytes);
            idx = idx + 1;
        }
        proof {
            assert(self@.take(self@.len() as int) =~= self@);
        }
        let cap = vec_capacity(self);
        charged_with_spare(total, self.len(), cap, core::mem::size_of::<T>())
    }
}

/// Relies on `VecDeque::capacity`: a deque's capacity is at least its
/// length.
#[verifier::external_body]
fn vec_deque_capacity<T>(v: &std::collections::VecDeque<T>) -> (c: usize)
    ensures
        c >= v@.len(),
{
    v.capacity()
}

impl<T: MemorySize> MemorySize for std::collections::VecDeque<T> {
    open spec fn size_spec(&self) -> nat {
        size_of::<std::collections::VecDeque<T>>() + seq_size_spec(self@)
    }

    open spec fn exact_size(&self) -> bool {
        false
    }

    fn bytes(&self) -> (r: usize) {
        let mut total: usize = core::mem::size_of::<std::collections::VecDeque<T>>();
        let mut idx: usize = 0;
        while idx < self.len()
            invariant
                idx <= self@.len(),
                total as nat >= clamp_usize(
                    size_of::<std::collections::VecDeque<T>>() + seq_size_spec(
                        self@.take(idx as int),
                    ),
                ),
            decreases self@.len() - idx,
        {
            let elem_bytes = self[idx].bytes();
            proof {
                assert(self@.take(idx as int + 1).drop_last() =~= self@.take(idx as int));
                assert(self@.take(idx as int + 1).last() == self@[idx as int]);
            }
            total = total.saturating_add(elem_bytes);
            idx = idx + 1;
        }
        proof {
            assert(self@.take(self@.len() as int) =~= self@);
        }
        let cap = vec_deque_capacity(self);
        charged_with_spare(total, self.len(), cap, core::mem::size_of::<T>())
    }
}

// No impl is given for std's HashMap: walking its entries is specified
// only under the hash-table key model, a premise on the key type that a
// trait method cannot demand of its callers, so for a generic key not even
// termination of the walk is provable.

impl MemorySize for str {
    open spec fn size_spec(&self) -> nat {
        self.spec_bytes().len()
    }

    open spec fn exact_size(&self) -> bool {
        true
    }

    fn bytes(&self) -> (r: usize) {
        self.as_bytes().len()
    }
}

impl MemorySize for String {
    open spec fn size_spec(&self) -> nat {
        size_of::<String>() + vstd::utf8::encode_utf8(self@).len()
    }

    open spec fn exact_size(&self) -> bool {
        true
    }

    fn bytes(&self) -> (r: usize) {
        core::mem::size_of::<String>().saturating_add(self.as_str().as_bytes().len())
    }
}

impl<T: MemorySize> MemorySize for Option<T> {
    open spec fn size_spec(&self) -> nat {
        size_of::<Option<T>>() + (match self {
            Some(v) => v.size_spec(),
            None => 0,
        })
    }

    open spec fn exact_size(&self) -> bool {
        match self {
            Some(v) => v.exact_size(),
            None => true,
        }
    }

    fn bytes(&self) -> (r: usize) {
        let inner = match self {
            Some(v) => v.bytes(),
            None => 0,
        };
        core::mem::size_of::<Option<T>>().saturating_add(inner)
    }
}

/// A structured value shaped like JSON: exactly what the size oracle reads
/// of such a document. Numeric payloads never affect the charged size, so
/// they are not carried.
pub enum JsonValue {
    Null,
    Bool(bool),
    Number,
    Text(String),
    Array(Vec<JsonValue>),
    Object(Vec<(String, JsonValue)>),
}

/// Bytes charged for a value beyond its own footprint: string content plus
/// the full charged size of every child.
pub open spec fn json_extra_spec(v: JsonValue) -> nat
    decreases v,
{
    match v {
        JsonValue::Null => 0,
        JsonValue::Bool(_) => 0,
        JsonValue::Number => 0,
        JsonValue::Text(s) => vstd::utf8::encode_utf8(s@).len(),
        JsonValue::Array(items) => json_seq_extra(items@, items@.len() as int),
        JsonValue::Object(fields) => json_fields_extra(fields@, fields@.len() as int),
    }
}

/// Total charged size of the first `i` elements of an array.
pub open spec fn json_seq_extra(s: Seq<JsonValue>, i: int) -> nat
    decreases s, i,
{
    if i <= 0 || i > s.len() {
        0
    } else {
        json_seq_extra(s, i - 1) + size_of::<JsonValue>() + json_extra_spec(s[i - 1])
    }
}

/// Total charged size of the first `i` key/value pairs of an object.
pub open spec fn json_fields_extra(s: Seq<(String, JsonValue)>, i: int) -> nat
    decreases s, i,
{
    if i <= 0 || i > s.len() {
        0
    } else {
        json_fields_extra(s, i - 1) + size_of::<String>() + vstd::utf8::encode_utf8(
            s[i - 1].0@,
        ).len() + size_of::<JsonValue>() + json_extra_spec(s[i - 1].1)
    }
}

fn json_value_bytes(v: &JsonValue) -> (r: usize)
    ensures
        r as nat == clamp_usize(size_of::<JsonValue>() + json_extra_spec(*v)),
    decreases *v,
{
    let extra: usize = match v {
        JsonValue::Null => 0,
        JsonValue::Bool(_) => 0,
        JsonValue::Number => 0,
        JsonValue::Text(s) => s.as_str().as_bytes().len(),
        JsonValue::Array(items) => {
            let mut total: usize = 0;
            let mut idx: usize = 0;
            while idx < items.len()
                invariant
                    idx <= items@.len(),
                    total as nat == clamp_usize(json_seq_extra(items@, idx as int)),
                    forall|j: int| 0 <= j < items@.len() ==> decreases_to!(*v => items@[j]),
                decreases items@.len() - idx,
            {
                let child = json_value_bytes(&items[idx]);
                total = total.saturating_add(child);
                idx = idx + 1;
            }
            total
        },
        JsonValue::Object(fields) => {
            let mut total: usize = 0;
            let mut idx: usize = 0;
            while idx < fields.len()
                invariant
                    idx <= fields@.len(),
                    total as nat == clamp_usize(json_fields_extra(fields@, idx as int)),
                    forall|j: int| 0 <= j < fields@.len() ==> decreases_to!(*v => fields@[j].1),
                decreases fields@.len() - idx,
            {
                let key_bytes = fields[idx].0.as_str().as_bytes().len();
                let child = json_value_bytes(&fields[idx].1);
                total = total.saturating_add(core::mem::size_of::<String>()).saturating_add(
                    key_bytes,
                ).saturating_add(child);
                idx = idx + 1;
            }
            total
        },
    };
    core::mem::size_of::<JsonValue>().saturating_add(extra)
}

impl MemorySize for JsonValue {
    open spec fn size_spec(&self) -> nat {
        size_of::<JsonValue>() + json_extra_spec(*self)
    }

    open spec fn exact_size(&self) -> bool {
        true
    }

    fn bytes(&self) -> (r: usize) {
        json_value_bytes(self)
    }
}

} // verus!
