//! The builders: a top-level `VariantBuilder` and the nested `ListBuilder`
//! and `ObjectBuilder`, which write into their parent only when finished.
use crate::encoding::{
    array_header, array_header_spec, int_size, int_size_spec, le_array, object_header,
    object_header_spec,
};
use crate::error::VariantError;
use crate::metadata::{metadata_blob, total_name_bytes, upsert_all, upsert_names, MetadataBuilder};
use crate::names::{lemma_name_lt_total, name_lt};
use crate::value_buffer::{count_bytes, offsets_nat, ValueBuffer};
use crate::variant::{
    field_names, lemma_list_names, lemma_names_in_finite, lemma_object_names, list_names,
    names_in, object_names, primitive_bytes, Variant,
};
use indexmap::IndexMap;
use std::collections::HashSet;
use vstd::prelude::*;

verus! {

broadcast use vstd::std_specs::hash::group_hash_axioms;

/// indexmap's `IndexMap`, held opaquely: an object's field entries live in one.
#[verifier::external_type_specification]
#[verifier::external_body]
#[verifier::reject_recursive_types(K)]
#[verifier::reject_recursive_types(V)]
#[verifier::reject_recursive_types(S)]
pub struct ExIndexMap<K, V, S>(IndexMap<K, V, S>);

/// The (field ID, offset) entries of an `IndexMap<u32, usize>`, in its order.
pub uninterp spec fn map_entries(m: IndexMap<u32, usize>) -> Seq<(u32, usize)>;

/// No two entries share a field ID.
pub open spec fn keys_unique(e: Seq<(u32, usize)>) -> bool {
    forall|i: int, j: int| 0 <= i < j < e.len() ==> #[trigger] e[i].0 != #[trigger] e[j].0
}

/// Some entry has field ID `k`.
pub open spec fn has_key(e: Seq<(u32, usize)>, k: u32) -> bool {
    exists|i: int| 0 <= i < e.len() && #[trigger] e[i].0 == k
}

/// Position of the entry with field ID `k`.
pub open spec fn key_pos(e: Seq<(u32, usize)>, k: u32) -> int {
    choose|i: int| 0 <= i < e.len() && #[trigger] e[i].0 == k
}

/// The entries after `(k, v)` is inserted: in place if `k` is there, else last.
pub open spec fn insert_entry(e: Seq<(u32, usize)>, k: u32, v: usize) -> Seq<(u32, usize)> {
    if has_key(e, k) {
        e.update(key_pos(e, k), (k, v))
    } else {
        e.push((k, v))
    }
}

/// Relies on `IndexMap::new`: a new map is empty.
#[verifier::external_body]
fn fields_new() -> (r: IndexMap<u32, usize>)
    ensures
        map_entries(r) == Seq::<(u32, usize)>::empty(),
{
    IndexMap::new()
}

/// Relies on `IndexMap::insert`: an existing key keeps its place and takes the
/// new value, returning the old one; a new key goes last.
#[verifier::external_body]
fn fields_insert(m: &mut IndexMap<u32, usize>, key: u32, value: usize) -> (r: Option<usize>)
    requires
        keys_unique(map_entries(*old(m))),
    ensures
        r is Some <==> has_key(map_entries(*old(m)), key),
        map_entries(*final(m)) == insert_entry(map_entries(*old(m)), key, value),
{
    m.insert(key, value)
}

/// Relies on `IndexMap::len`: the number of entries.
#[verifier::external_body]
fn fields_len(m: &IndexMap<u32, usize>) -> (r: usize)
    ensures
        r == map_entries(*m).len(),
{
    m.len()
}

/// Relies on `IndexMap::get_index`: the entry at position `i`.
#[verifier::external_body]
fn fields_get(m: &IndexMap<u32, usize>, i: usize) -> (r: Option<(u32, usize)>)
    ensures
        i < map_entries(*m).len() ==> r == Some(map_entries(*m)[i as int]),
        i >= map_entries(*m).len() ==> r is None,
{
    m.get_index(i).map(|(k, v)| (*k, *v))
}

/// Array encoding of elements starting at `offsets` within `data`.
pub open spec fn array_bytes(offsets: Seq<usize>, data: Seq<u8>) -> Seq<u8> {
    let large = offsets.len() > 255;
    let offset_size = int_size_spec(data.len());
    seq![array_header_spec(large, offset_size)] + count_bytes(large, offsets.len()) + le_array(
        offsets_nat(offsets) + seq![data.len()],
        offset_size,
    ) + data
}

/// Where a child builder writes when it finishes: the parent's buffer and the
/// shared dictionary, and for a list or object parent its pending element state.
pub enum ParentState<'a> {
    Variant { buffer: &'a mut ValueBuffer, metadata_builder: &'a mut MetadataBuilder },
    List {
        buffer: &'a mut ValueBuffer,
        metadata_builder: &'a mut MetadataBuilder,
        offsets: &'a mut Vec<usize>,
    },
    Object {
        buffer: &'a mut ValueBuffer,
        metadata_builder: &'a mut MetadataBuilder,
        fields: &'a mut IndexMap<u32, usize>,
        field_name: &'a str,
    },
}

impl<'a> ParentState<'a> {
    /// The parent's buffer.
    pub open spec fn buffer_ref(self) -> &'a mut ValueBuffer {
        match self {
            ParentState::Variant { buffer, .. } => buffer,
            ParentState::List { buffer, .. } => buffer,
            ParentState::Object { buffer, .. } => buffer,
        }
    }

    /// The shared dictionary.
    pub open spec fn metadata_ref(self) -> &'a mut MetadataBuilder {
        match self {
            ParentState::Variant { metadata_builder, .. } => metadata_builder,
            ParentState::List { metadata_builder, .. } => metadata_builder,
            ParentState::Object { metadata_builder, .. } => metadata_builder,
        }
    }

    /// The parent's bytes now.
    pub open spec fn value_bytes(self) -> Seq<u8> {
        (*self.buffer_ref())@
    }

    /// The shared dictionary now.
    pub open spec fn metadata(self) -> MetadataBuilder {
        *self.metadata_ref()
    }

    /// Same parent, apart from the current value of the dictionary.
    pub open spec fn same_except_metadata(self, other: ParentState<'a>) -> bool {
        match (self, other) {
            (ParentState::Variant { buffer: b1, .. }, ParentState::Variant { buffer: b2, .. }) => b1
                == b2,
            (
                ParentState::List { buffer: b1, offsets: o1, .. },
                ParentState::List { buffer: b2, offsets: o2, .. },
            ) => b1 == b2 && o1 == o2,
            (
                ParentState::Object { buffer: b1, fields: f1, field_name: n1, .. },
                ParentState::Object { buffer: b2, fields: f2, field_name: n2, .. },
            ) => b1 == b2 && f1 == f2 && n1 == n2,
            _ => false,
        }
    }

    /// A child may finish into this parent: the dictionary is well formed and,
    /// for an object parent, has room for the pending field name.
    pub open spec fn ready(self) -> bool {
        &&& self.metadata().wf()
        &&& self matches ParentState::Object { fields, field_name, .. } ==> {
            &&& keys_unique(map_entries(*fields))
            &&& (self.metadata().names().len() < u32::MAX || self.metadata().names().contains(
                field_name@,
            ))
        }
    }

    /// What finishing a child that emitted `bytes` leaves behind, given the
    /// parent's buffer, dictionary, list offsets and object entries afterwards.
    pub open spec fn finished(
        self,
        buf: Seq<u8>,
        md: MetadataBuilder,
        offsets: Seq<usize>,
        entries: Seq<(u32, usize)>,
        bytes: Seq<u8>,
    ) -> bool {
        &&& buf == self.value_bytes() + bytes
        &&& match self {
            ParentState::Variant { .. } => md == self.metadata(),
            ParentState::List { offsets: o, .. } => md == self.metadata() && offsets == o@.push(
                self.value_bytes().len() as usize,
            ),
            ParentState::Object { fields, field_name, .. } => {
                &&& md.wf()
                &&& md.names() == upsert_names(self.metadata().names(), field_name@)
                &&& md.prefix() == self.metadata().prefix()
                &&& entries == insert_entry(
                    map_entries(*fields),
                    md.names().index_of(field_name@) as u32,
                    self.value_bytes().len() as usize,
                )
            },
        }
    }

    /// Same parent, apart from the current value of its buffer.
    pub open spec fn same_except_buffer(self, other: ParentState<'a>) -> bool {
        match (self, other) {
            (
                ParentState::Variant { metadata_builder: m1, .. },
                ParentState::Variant { metadata_builder: m2, .. },
            ) => m1 == m2,
            (
                ParentState::List { metadata_builder: m1, offsets: o1, .. },
                ParentState::List { metadata_builder: m2, offsets: o2, .. },
            ) => m1 == m2 && o1 == o2,
            (
                ParentState::Object { metadata_builder: m1, fields: f1, field_name: n1, .. },
                ParentState::Object { metadata_builder: m2, fields: f2, field_name: n2, .. },
            ) => m1 == m2 && f1 == f2 && n1 == n2,
            _ => false,
        }
    }

    /// The parent's buffer.
    fn buffer(&mut self) -> (r: &mut ValueBuffer)
        ensures
            *r == *old(self).buffer_ref(),
            *final(self).buffer_ref() == *final(r),
            *final(final(self).buffer_ref()) == *final(old(self).buffer_ref()),
            final(self).same_except_buffer(*old(self)),
    {
        match self {
            ParentState::Variant { buffer, .. } => buffer,
            ParentState::List { buffer, .. } => buffer,
            ParentState::Object { buffer, .. } => buffer,
        }
    }

    /// The shared dictionary.
    fn metadata_builder(&mut self) -> (r: &mut MetadataBuilder)
        ensures
            *r == old(self).metadata(),
            final(self).metadata() == *final(r),
            *final(final(self).metadata_ref()) == *final(old(self).metadata_ref()),
            final(self).same_except_metadata(*old(self)),
    {
        match self {
            ParentState::Variant { metadata_builder, .. } => metadata_builder,
            ParentState::List { metadata_builder, .. } => metadata_builder,
            ParentState::Object { metadata_builder, .. } => metadata_builder,
        }
    }

    /// Records, for a list or object parent, where the child's bytes start.
    fn finish(&mut self, starting_offset: usize)
        requires
            old(self).ready(),
        ensures
            final(self).buffer_ref() == old(self).buffer_ref(),
            *final(final(self).metadata_ref()) == *final(old(self).metadata_ref()),
            *old(self) is Variant ==> *final(self) is Variant && final(self).metadata() == old(
                self,
            ).metadata(),
            *old(self) is List ==> {
                &&& *final(self) is List
                &&& final(self).metadata() == old(self).metadata()
                &&& (*(*final(self))->List_offsets)@ == (*(*old(self))->List_offsets)@.push(
                    starting_offset,
                )
                &&& *final((*final(self))->List_offsets) == *final((*old(self))->List_offsets)
            },
            *old(self) matches ParentState::Object { field_name, .. } ==> {
                &&& *final(self) is Object
                &&& (*final(self))->Object_field_name == field_name
                &&& final(self).metadata().wf()
                &&& final(self).metadata().names() == upsert_names(
                    old(self).metadata().names(),
                    field_name@,
                )
                &&& final(self).metadata().prefix() == old(self).metadata().prefix()
                &&& map_entries(*(*final(self))->Object_fields) == insert_entry(
                    map_entries(*(*old(self))->Object_fields),
                    final(self).metadata().names().index_of(field_name@) as u32,
                    starting_offset,
                )
                &&& *final((*final(self))->Object_fields) == *final((*old(self))->Object_fields)
            },
    {
        match self {
            ParentState::List { offsets, .. } => offsets.push(starting_offset),
            ParentState::Object { metadata_builder, fields, field_name, .. } => {
                let field_id = metadata_builder.upsert_field_name(field_name);
                proof {
                    let ns = metadata_builder.names();
                    assert(ns.no_duplicates());
                    assert(ns.index_of(field_name@) == field_id as int) by {
                        let j = ns.index_of(field_name@);
                        assert(ns.contains(field_name@));
                        assert(0 <= j < ns.len() && ns[j] == field_name@);
                    }
                }
                fields_insert(fields, field_id, starting_offset);
            },
            ParentState::Variant { .. } => {},
        }
    }
}


/// Adding `extra` to the dictionary `names` keeps it below 2^32 - 1 names.
pub open spec fn has_room(names: Seq<Seq<char>>, extra: Set<Seq<char>>) -> bool {
    (names.to_set() + extra).len() < u32::MAX
}

/// The dictionary `names` and the names of `extra` together number fewer than
/// 2^32 - 1, counting a name in both twice.
pub open spec fn fits(names: Seq<Seq<char>>, extra: Set<Seq<char>>) -> bool {
    names.len() + extra.len() < u32::MAX
}

proof fn lemma_fits_room(names: Seq<Seq<char>>, extra: Set<Seq<char>>)
    requires
        names.no_duplicates(),
        extra.finite(),
        fits(names, extra),
    ensures
        has_room(names, extra),
{
    names.unique_seq_to_set();
    vstd::set_lib::lemma_len_union(names.to_set(), extra);
}

/// `new` is `old` with the names of `extra` that it lacked appended, in some order.
pub open spec fn dictionary_grows(
    old: MetadataBuilder,
    new: MetadataBuilder,
    extra: Set<Seq<char>>,
) -> bool {
    &&& new.wf()
    &&& new.prefix() == old.prefix()
    &&& old.names().is_prefix_of(new.names())
    &&& new.names().to_set() == old.names().to_set() + extra
}

/// Once the dictionary holds a name at an ID, it holds it there for good:
/// every operation that changes the dictionary only appends to it.
pub proof fn lemma_dictionary_monotonic(
    old: MetadataBuilder,
    new: MetadataBuilder,
    extra: Set<Seq<char>>,
    id: int,
)
    requires
        dictionary_grows(old, new, extra),
        0 <= id < old.names().len(),
    ensures
        new.names()[id] == old.names()[id],
{
    assert(old.names()[id] == new.names().subrange(0, old.names().len() as int)[id]);
}

proof fn lemma_room(names: Seq<Seq<char>>, extra: Set<Seq<char>>, bound: Set<Seq<char>>)
    requires
        names.no_duplicates(),
        extra.finite(),
        (names.to_set() + extra).subset_of(bound),
        bound.finite(),
        bound.len() < u32::MAX,
    ensures
        has_room(names, extra),
        names.len() < u32::MAX,
{
    names.unique_seq_to_set();
    vstd::set_lib::lemma_len_subset(names.to_set() + extra, bound);
    vstd::set_lib::lemma_len_subset(names.to_set(), names.to_set() + extra);
}

proof fn lemma_grows_trans(
    a: MetadataBuilder,
    b: MetadataBuilder,
    c: MetadataBuilder,
    e1: Set<Seq<char>>,
    e2: Set<Seq<char>>,
)
    requires
        dictionary_grows(a, b, e1),
        dictionary_grows(b, c, e2),
    ensures
        dictionary_grows(a, c, e1 + e2),
{
    assert(a.names() =~= c.names().subrange(0, a.names().len() as int)) by {
        assert(a.names() =~= b.names().subrange(0, a.names().len() as int));
        assert(b.names() =~= c.names().subrange(0, b.names().len() as int));
        assert forall|i: int| 0 <= i < a.names().len() implies a.names()[i] == c.names()[i] by {
            assert(a.names()[i] == b.names()[i]);
            assert(b.names()[i] == c.names()[i]);
        }
    }
    assert(c.names().to_set() =~= a.names().to_set() + (e1 + e2));
}

proof fn lemma_grows_refl(md: MetadataBuilder)
    requires
        md.wf(),
    ensures
        dictionary_grows(md, md, Set::empty()),
{
    assert(md.names() =~= md.names().subrange(0, md.names().len() as int));
    assert(md.names().to_set() + Set::empty() =~= md.names().to_set());
}

proof fn lemma_upsert_to_set(names: Seq<Seq<char>>, name: Seq<char>)
    ensures
        upsert_names(names, name).to_set() == names.to_set().insert(name),
{
    let r = upsert_names(names, name);
    assert forall|x: Seq<char>| r.contains(x) <==> names.to_set().insert(name).contains(x) by {
        if !names.contains(name) {
            if r.contains(x) {
                let i = choose|i: int| 0 <= i < r.len() && r[i] == x;
                if i < names.len() {
                    assert(names[i] == x);
                }
            }
            if names.contains(x) {
                let i = choose|i: int| 0 <= i < names.len() && names[i] == x;
                assert(r[i] == x);
            }
            if x == name {
                assert(r[names.len() as int] == x);
            }
        }
    }
    assert(r.to_set() =~= names.to_set().insert(name));
}

proof fn lemma_index_of_unique(names: Seq<Seq<char>>, i: int)
    requires
        names.no_duplicates(),
        0 <= i < names.len(),
    ensures
        names.index_of(names[i]) == i,
{
    assert(names.contains(names[i]));
    let j = names.index_of(names[i]);
    assert(0 <= j < names.len() && names[j] == names[i]);
}

proof fn lemma_insert_entry(e: Seq<(u32, usize)>, k: u32, v: usize)
    requires
        keys_unique(e),
    ensures
        keys_unique(insert_entry(e, k, v)),
        has_key(insert_entry(e, k, v), k),
        forall|j: u32| has_key(e, j) ==> has_key(insert_entry(e, k, v), j),
        forall|i: int|
            0 <= i < insert_entry(e, k, v).len() ==> (#[trigger] insert_entry(e, k, v)[i]).0 == k
                || has_key(e, insert_entry(e, k, v)[i].0),
{
    let r = insert_entry(e, k, v);
    if has_key(e, k) {
        let p = key_pos(e, k);
        assert(r[p].0 == k);
        assert forall|j: u32| has_key(e, j) implies has_key(r, j) by {
            let q = choose|q: int| 0 <= q < e.len() && #[trigger] e[q].0 == j;
            assert(r[q].0 == j);
        }
        assert forall|i: int| 0 <= i < r.len() implies (#[trigger] r[i]).0 == k || has_key(
            e,
            r[i].0,
        ) by {
            if i != p {
                assert(e[i].0 == r[i].0);
            }
        }
    } else {
        assert(r[e.len() as int].0 == k);
        assert forall|j: u32| has_key(e, j) implies has_key(r, j) by {
            let q = choose|q: int| 0 <= q < e.len() && #[trigger] e[q].0 == j;
            assert(r[q].0 == j);
        }
        assert forall|i: int| 0 <= i < r.len() implies (#[trigger] r[i]).0 == k || has_key(
            e,
            r[i].0,
        ) by {
            if i < e.len() {
                assert(e[i].0 == r[i].0);
            }
        }
    }
}

/// The parts, concatenated.
pub open spec fn concat(parts: Seq<Seq<u8>>) -> Seq<u8>
    decreases parts.len(),
{
    if parts.len() == 0 {
        Seq::empty()
    } else {
        concat(parts.drop_last()) + parts.last()
    }
}

/// Where each part starts in `concat(parts)`.
pub open spec fn starts(parts: Seq<Seq<u8>>) -> Seq<usize> {
    Seq::new(parts.len(), |i: int| concat(parts.subrange(0, i)).len() as usize)
}

/// How a nested value was encoded: for a list, the dictionary before each
/// element and after the last, each element's bytes and how it was encoded;
/// for an object, also the insertion order and the entries in on-wire order.
pub ghost enum Trace {
    Leaf,
    List { dicts: Seq<Seq<Seq<char>>>, parts: Seq<Seq<u8>>, children: Seq<Trace> },
    Object {
        order: Seq<usize>,
        dicts: Seq<Seq<Seq<char>>>,
        parts: Seq<Seq<u8>>,
        children: Seq<Trace>,
        sorted: Seq<(u32, usize)>,
    },
}

/// `bytes` encode `v` when the dictionary holds `before` at the start and
/// `after` at the end.
pub open spec fn encodes(
    v: Variant,
    before: Seq<Seq<char>>,
    after: Seq<Seq<char>>,
    bytes: Seq<u8>,
) -> bool {
    exists|t: Trace| #[trigger] encodes_by(v, before, after, bytes, t)
}

/// `bytes` encode `v`, from dictionary `before` to `after`, as `t` describes.
pub open spec fn encodes_by(
    v: Variant,
    before: Seq<Seq<char>>,
    after: Seq<Seq<char>>,
    bytes: Seq<u8>,
    t: Trace,
) -> bool
    decreases v,
{
    match v {
        Variant::List(elems) => match t {
            Trace::List { dicts, parts, children } => {
                &&& dicts.len() == elems@.len() + 1
                &&& parts.len() == elems@.len()
                &&& children.len() == elems@.len()
                &&& list_encodes(elems@, dicts, parts, children, elems@.len() as int)
                &&& dicts[0] == before
                &&& dicts.last() == after
                &&& bytes == array_bytes(starts(parts), concat(parts))
            },
            _ => false,
        },
        Variant::Object(fields) => match t {
            Trace::Object { order, dicts, parts, children, sorted } => {
                &&& dicts.len() == order.len() + 1
                &&& parts.len() == order.len()
                &&& children.len() == order.len()
                &&& is_field_order(order, fields@, before)
                &&& object_encodes(fields@, order, dicts, parts, children, order.len() as int)
                &&& dicts[0] == before
                &&& dicts.last() == after
                &&& sorted_by_name(
                    sorted,
                    object_entries(fields@, order, dicts, parts, order.len() as int),
                    after,
                )
                &&& bytes == object_bytes(sorted, concat(parts))
            },
            _ => false,
        },
        _ => after == before && bytes == primitive_bytes(v),
    }
}

/// Each of the first `n` elements is encoded as its part, from its dictionary to the next.
pub open spec fn list_encodes(
    elems: Seq<Variant>,
    dicts: Seq<Seq<Seq<char>>>,
    parts: Seq<Seq<u8>>,
    children: Seq<Trace>,
    n: int,
) -> bool
    decreases elems, n,
{
    if n <= 0 || n > elems.len() {
        n <= 0
    } else {
        &&& list_encodes(elems, dicts, parts, children, n - 1)
        &&& encodes_by(elems[n - 1], dicts[n - 1], dicts[n], parts[n - 1], children[n - 1])
    }
}

/// In each of the first `n` steps the field at `order[i]` has its name upserted
/// into `dicts[i]`, then its value is encoded as `parts[i]`, ending at `dicts[i + 1]`.
pub open spec fn object_encodes(
    fields: Seq<(String, Variant)>,
    order: Seq<usize>,
    dicts: Seq<Seq<Seq<char>>>,
    parts: Seq<Seq<u8>>,
    children: Seq<Trace>,
    n: int,
) -> bool
    decreases fields, n,
{
    if n <= 0 || n > order.len() || order[n - 1] >= fields.len() {
        n <= 0
    } else {
        &&& object_encodes(fields, order, dicts, parts, children, n - 1)
        &&& encodes_by(
            fields[order[n - 1] as int].1,
            upsert_names(dicts[n - 1], fields[order[n - 1] as int].0@),
            dicts[n],
            parts[n - 1],
            children[n - 1],
        )
    }
}

/// The object's (field ID, offset) entries after the first `n` steps.
pub open spec fn object_entries(
    fields: Seq<(String, Variant)>,
    order: Seq<usize>,
    dicts: Seq<Seq<Seq<char>>>,
    parts: Seq<Seq<u8>>,
    n: int,
) -> Seq<(u32, usize)>
    decreases n,
{
    if n <= 0 {
        Seq::empty()
    } else {
        insert_entry(
            object_entries(fields, order, dicts, parts, n - 1),
            dicts[n].index_of(fields[order[n - 1] as int].0@) as u32,
            concat(parts.subrange(0, n - 1)).len() as usize,
        )
    }
}

/// `order` lists every field position once, names the dictionary `names`
/// holds first by ID, then the others in the order the object lists them.
pub open spec fn is_field_order(
    order: Seq<usize>,
    fields: Seq<(String, Variant)>,
    names: Seq<Seq<char>>,
) -> bool {
    &&& order.len() == fields.len()
    &&& forall|j: int| 0 <= j < order.len() ==> order[j] < fields.len()
    &&& forall|k: usize| k < fields.len() ==> #[trigger] order.contains(k)
    &&& forall|i: int, j: int|
        0 <= i < j < order.len() ==> pair_le(
            (field_rank(fields[order[i] as int].0@, names), order[i]),
            (field_rank(fields[order[j] as int].0@, names), order[j]),
        )
}

proof fn lemma_concat_push(parts: Seq<Seq<u8>>, part: Seq<u8>)
    ensures
        concat(parts.push(part)) == concat(parts) + part,
        starts(parts.push(part)) == starts(parts).push(concat(parts).len() as usize),
{
    assert(parts.push(part).drop_last() == parts);
    assert forall|i: int| 0 <= i < parts.len() implies #[trigger] parts.push(part).subrange(0, i) == parts.subrange(0, i) by {}
    assert(parts.push(part).subrange(0, parts.len() as int) == parts);
    assert(starts(parts.push(part)) =~= starts(parts).push(concat(parts).len() as usize));
}

proof fn lemma_list_encodes_stable(
    elems: Seq<Variant>,
    dicts: Seq<Seq<Seq<char>>>,
    parts: Seq<Seq<u8>>,
    children: Seq<Trace>,
    d: Seq<Seq<char>>,
    part: Seq<u8>,
    t: Trace,
    n: int,
)
    requires
        n < dicts.len(),
        n <= parts.len(),
        n <= children.len(),
    ensures
        list_encodes(elems, dicts.push(d), parts.push(part), children.push(t), n) == list_encodes(
            elems,
            dicts,
            parts,
            children,
            n,
        ),
    decreases n,
{
    if n > 0 {
        lemma_list_encodes_stable(elems, dicts, parts, children, d, part, t, n - 1);
    }
}

proof fn lemma_list_encodes_push(
    elems: Seq<Variant>,
    i: int,
    dicts: Seq<Seq<Seq<char>>>,
    parts: Seq<Seq<u8>>,
    children: Seq<Trace>,
    d: Seq<Seq<char>>,
    part: Seq<u8>,
    t: Trace,
)
    requires
        0 <= i < elems.len(),
        dicts.len() == i + 1,
        parts.len() == i,
        children.len() == i,
        list_encodes(elems, dicts, parts, children, i),
        encodes_by(elems[i], dicts.last(), d, part, t),
    ensures
        list_encodes(elems, dicts.push(d), parts.push(part), children.push(t), i + 1),
{
    lemma_list_encodes_stable(elems, dicts, parts, children, d, part, t, i);
}

proof fn lemma_object_encodes_stable(
    fields: Seq<(String, Variant)>,
    order: Seq<usize>,
    dicts: Seq<Seq<Seq<char>>>,
    parts: Seq<Seq<u8>>,
    children: Seq<Trace>,
    d: Seq<Seq<char>>,
    part: Seq<u8>,
    t: Trace,
    n: int,
)
    requires
        n < dicts.len(),
        n <= parts.len(),
        n <= children.len(),
    ensures
        object_encodes(fields, order, dicts.push(d), parts.push(part), children.push(t), n)
            == object_encodes(fields, order, dicts, parts, children, n),
    decreases n,
{
    if n > 0 {
        lemma_object_encodes_stable(fields, order, dicts, parts, children, d, part, t, n - 1);
    }
}

proof fn lemma_object_entries_extend(
    fields: Seq<(String, Variant)>,
    order: Seq<usize>,
    dicts: Seq<Seq<Seq<char>>>,
    parts: Seq<Seq<u8>>,
    d: Seq<Seq<char>>,
    part: Seq<u8>,
    n: int,
)
    requires
        n < dicts.len(),
        n <= parts.len(),
    ensures
        object_entries(fields, order, dicts.push(d), parts.push(part), n) == object_entries(
            fields,
            order,
            dicts,
            parts,
            n,
        ),
    decreases n,
{
    if n > 0 {
        lemma_object_entries_extend(fields, order, dicts, parts, d, part, n - 1);
        assert(parts.push(part).subrange(0, n - 1) == parts.subrange(0, n - 1));
    }
}

/// Whether pair `a` comes no later than pair `b` in lexicographic order.
pub open spec fn pair_le(a: (u64, usize), b: (u64, usize)) -> bool {
    a.0 < b.0 || (a.0 == b.0 && a.1 <= b.1)
}

/// Relies on `slice::sort_unstable`: the same pairs, in ascending order,
/// which for tuples is lexicographic.
#[verifier::external_body]
fn sort_pairs(v: &mut Vec<(u64, usize)>)
    ensures
        final(v)@.to_multiset() == old(v)@.to_multiset(),
        forall|i: int, j: int|
            0 <= i < j < final(v)@.len() ==> pair_le(final(v)@[i], final(v)@[j]),
{
    v.sort_unstable()
}

/// Rank of a field when an object is re-encoded: its ID if the dictionary
/// holds it, else after every ID.
pub open spec fn field_rank(name: Seq<char>, names: Seq<Seq<char>>) -> u64 {
    if names.contains(name) {
        names.index_of(name) as u64
    } else {
        0x1_0000_0000u64
    }
}

/// The order in which `append_variant` inserts the fields of an object:
/// names the dictionary already holds first, by ID, then the others in the
/// order the object lists them.
pub fn field_order(fields: &Vec<(String, Variant)>, metadata_builder: &MetadataBuilder) -> (r: Vec<
    usize,
>)
    requires
        metadata_builder.wf(),
    ensures
        r@.len() == fields@.len(),
        forall|j: int| 0 <= j < r@.len() ==> r@[j] < fields@.len(),
        forall|k: usize| k < fields@.len() ==> #[trigger] r@.contains(k),
        forall|i: int, j: int|
            0 <= i < j < r@.len() ==> pair_le(
                (field_rank(fields@[r@[i] as int].0@, metadata_builder.names()), r@[i]),
                (field_rank(fields@[r@[j] as int].0@, metadata_builder.names()), r@[j]),
            ),
{
    let ghost names = metadata_builder.names();
    let mut keys: Vec<(u64, usize)> = Vec::new();
    let mut k: usize = 0;
    while k < fields.len()
        invariant
            k <= fields@.len(),
            keys@.len() == k,
            names == metadata_builder.names(),
            metadata_builder.wf(),
            forall|q: int|
                0 <= q < k ==> #[trigger] keys@[q] == (field_rank(fields@[q].0@, names), q as usize),
        decreases fields@.len() - k,
    {
        let rank: u64 = match metadata_builder.field_id(fields[k].0.as_str()) {
            Some(id) => {
                proof {
                    lemma_index_of_unique(names, id as int);
                }
                id as u64
            },
            None => 0x1_0000_0000u64,
        };
        keys.push((rank, k));
        k = k + 1;
    }
    let ghost unsorted = keys@;
    sort_pairs(&mut keys);
    proof {
        keys@.to_multiset_ensures();
        unsorted.to_multiset_ensures();
    }
    let mut r: Vec<usize> = Vec::new();
    let mut i: usize = 0;
    while i < keys.len()
        invariant
            i <= keys@.len(),
            keys@.len() == fields@.len(),
            r@.len() == i,
            forall|q: int| 0 <= q < i ==> #[trigger] r@[q] == keys@[q].1,
            keys@.to_multiset() == unsorted.to_multiset(),
            unsorted.len() == fields@.len(),
            forall|q: int|
                0 <= q < unsorted.len() ==> #[trigger] unsorted[q] == (
                    field_rank(fields@[q].0@, names),
                    q as usize,
                ),
            forall|a: int, b: int| 0 <= a < b < keys@.len() ==> pair_le(keys@[a], keys@[b]),
            names == metadata_builder.names(),
        decreases keys@.len() - i,
    {
        r.push(keys[i].1);
        i = i + 1;
    }
    proof {
        keys@.to_multiset_ensures();
        unsorted.to_multiset_ensures();
        assert forall|j: int| 0 <= j < keys@.len() implies #[trigger] keys@[j] == unsorted[(
        keys@[j].1 as int)] && keys@[j].1 < fields@.len() by {
            assert(keys@.contains(keys@[j]));
            assert(keys@.to_multiset().count(keys@[j]) > 0);
            assert(unsorted.to_multiset().count(keys@[j]) > 0);
            assert(unsorted.contains(keys@[j]));
        }
        assert forall|k: usize| k < fields@.len() implies #[trigger] r@.contains(k) by {
            assert(unsorted.contains(unsorted[k as int]));
            assert(unsorted.to_multiset().count(unsorted[k as int]) > 0);
            assert(keys@.to_multiset().count(unsorted[k as int]) > 0);
            assert(keys@.contains(unsorted[k as int]));
            let j = choose|j: int| 0 <= j < keys@.len() && keys@[j] == unsorted[k as int];
            assert(r@[j] == k);
        }
    }
    r
}

/// The names of the fields at the first `i` positions of `order`.
pub open spec fn ordered_names(fields: Seq<(String, Variant)>, order: Seq<usize>, i: int) -> Set<
    Seq<char>,
>
    decreases i,
{
    if i <= 0 {
        Set::empty()
    } else {
        ordered_names(fields, order, i - 1) + field_names(fields[order[i - 1] as int])
    }
}

proof fn lemma_ordered_names(fields: Seq<(String, Variant)>, order: Seq<usize>, i: int)
    requires
        0 <= i <= order.len(),
        forall|j: int| 0 <= j < order.len() ==> order[j] < fields.len(),
    ensures
        ordered_names(fields, order, i).subset_of(object_names(fields, fields.len() as int)),
        ordered_names(fields, order, i).finite(),
    decreases i,
{
    lemma_object_names(fields, fields.len() as int);
    if i > 0 {
        lemma_ordered_names(fields, order, i - 1);
        lemma_names_in_finite(fields[order[i - 1] as int].1);
    }
}

proof fn lemma_ordered_names_all(fields: Seq<(String, Variant)>, order: Seq<usize>)
    requires
        fields.len() <= usize::MAX,
        forall|j: int| 0 <= j < order.len() ==> order[j] < fields.len(),
        forall|k: usize| k < fields.len() ==> #[trigger] order.contains(k),
    ensures
        ordered_names(fields, order, order.len() as int) == object_names(
            fields,
            fields.len() as int,
        ),
{
    let n = fields.len() as int;
    lemma_ordered_names(fields, order, order.len() as int);
    lemma_object_names(fields, n);
    assert forall|x: Seq<char>| object_names(fields, n).contains(x) implies ordered_names(
        fields,
        order,
        order.len() as int,
    ).contains(x) by {
        let k = choose|k: int| 0 <= k < n && k < fields.len() && (#[trigger] field_names(
            fields[k],
        )).contains(x);
        assert(order.contains(k as usize));
        let j = choose|j: int| 0 <= j < order.len() && order[j] == k as usize;
        lemma_ordered_names_step(fields, order, j + 1, order.len() as int);
        assert(ordered_names(fields, order, j + 1).contains(x));
    }
    assert(ordered_names(fields, order, order.len() as int) =~= object_names(fields, n));
}

proof fn lemma_ordered_names_step(fields: Seq<(String, Variant)>, order: Seq<usize>, a: int, b: int)
    requires
        0 <= a <= b,
    ensures
        ordered_names(fields, order, a).subset_of(ordered_names(fields, order, b)),
    decreases b,
{
    if a < b {
        lemma_ordered_names_step(fields, order, a, b - 1);
    }
}


impl ValueBuffer {
    /// A builder for an object that this buffer receives once finished; it
    /// does not validate unique fields.
    pub fn new_object<'a>(&'a mut self, metadata_builder: &'a mut MetadataBuilder) -> (r:
        ObjectBuilder<'a>)
        ensures
            r.parent() is Variant,
            *r.parent().buffer_ref() == *old(self),
            *r.parent().metadata_ref() == *old(metadata_builder),
            *final(self) == *final(r.parent().buffer_ref()),
            *final(metadata_builder) == *final(r.parent().metadata_ref()),
            r.entries() == Seq::<(u32, usize)>::empty(),
            r.data() == Seq::<u8>::empty(),
            r.duplicates() == Set::<u32>::empty(),
            !r.validate(),
    {
        let parent_state = ParentState::Variant { buffer: self, metadata_builder };
        ObjectBuilder::new(parent_state, false)
    }

    /// A builder for a list that this buffer receives once finished.
    pub fn new_list<'a>(&'a mut self, metadata_builder: &'a mut MetadataBuilder) -> (r: ListBuilder<
        'a,
    >)
        ensures
            r.parent() is Variant,
            *r.parent().buffer_ref() == *old(self),
            *r.parent().metadata_ref() == *old(metadata_builder),
            *final(self) == *final(r.parent().buffer_ref()),
            *final(metadata_builder) == *final(r.parent().metadata_ref()),
            r.offsets() == Seq::<usize>::empty(),
            r.data() == Seq::<u8>::empty(),
            !r.validate(),
    {
        let parent_state = ParentState::Variant { buffer: self, metadata_builder };
        ListBuilder::new(parent_state, false)
    }

    /// Appends `variant`. An object's fields are inserted in `field_order`
    /// and their names added to the dictionary.
    pub fn append_variant(&mut self, variant: &Variant, metadata_builder: &mut MetadataBuilder)
        requires
            variant.wf(),
            old(metadata_builder).wf(),
            has_room(old(metadata_builder).names(), names_in(*variant)),
        ensures
            dictionary_grows(*old(metadata_builder), *final(metadata_builder), names_in(*variant)),
            final(metadata_builder).names().len() < u32::MAX,
            old(self)@.is_prefix_of(final(self)@),
            encodes(
                *variant,
                old(metadata_builder).names(),
                final(metadata_builder).names(),
                final(self)@.subrange(old(self)@.len() as int, final(self)@.len() as int),
            ),
            variant.is_primitive() ==> final(self)@ == old(self)@ + primitive_bytes(*variant)
                && *final(metadata_builder) == *old(metadata_builder),
        decreases *variant, 0nat,
    {
        proof {
            lemma_names_in_finite(*variant);
            lemma_room(
                old(metadata_builder).names(),
                names_in(*variant),
                old(metadata_builder).names().to_set() + names_in(*variant),
            );
            lemma_grows_refl(*old(metadata_builder));
        }
        let ghost start0 = self@;
        match variant {
            Variant::Null => self.append_null(),
            Variant::BooleanTrue => self.append_bool(true),
            Variant::BooleanFalse => self.append_bool(false),
            Variant::Int8(v) => self.append_int8(*v),
            Variant::Int16(v) => self.append_int16(*v),
            Variant::Int32(v) => self.append_int32(*v),
            Variant::Int64(v) => self.append_int64(*v),
            Variant::Date(v) => self.append_date(*v),
            Variant::TimestampMicros(v) => self.append_timestamp_micros(*v),
            Variant::TimestampNtzMicros(v) => self.append_timestamp_ntz_micros(*v),
            Variant::Decimal4(d) => self.append_decimal4(*d),
            Variant::Decimal8(d) => self.append_decimal8(*d),
            Variant::Decimal16(d) => self.append_decimal16(*d),
            Variant::Float(bits) => self.append_float(*bits),
            Variant::Double(bits) => self.append_double(*bits),
            Variant::Binary(b) => self.append_binary(b.as_slice()),
            Variant::String(s) => self.append_string(s.as_str()),
            Variant::ShortString(s) => self.append_short_string(s),
            Variant::Object(fields) => {
                let ghost start = self@;
                let ghost md0 = *metadata_builder;
                let ghost all = md0.names().to_set() + names_in(*variant);
                let order = field_order(fields, metadata_builder);
                let mut object_builder = self.new_object(metadata_builder);
                let ghost pb = object_builder.parent().buffer_ref();
                let ghost pm = object_builder.parent().metadata_ref();
                let ghost mut dicts: Seq<Seq<Seq<char>>> = seq![md0.names()];
                let ghost mut parts: Seq<Seq<u8>> = Seq::empty();
                let ghost mut children: Seq<Trace> = Seq::empty();
                proof {
                    lemma_object_names(fields@, fields@.len() as int);
                    lemma_names_in_finite(*variant);
                    assert(md0.names().to_set() + Set::empty() =~= md0.names().to_set());
                }
                let mut i: usize = 0;
                while i < order.len()
                    invariant
                        i <= order@.len(),
                        order@.len() == fields@.len(),
                        forall|j: int| 0 <= j < order@.len() ==> order@[j] < fields@.len(),
                        *variant == Variant::Object(*fields),
                        forall|k: int| 0 <= k < fields@.len() ==> (#[trigger] fields@[k]).1.wf(),
                        names_in(*variant) == object_names(fields@, fields@.len() as int),
                        all == md0.names().to_set() + names_in(*variant),
                        all.finite(),
                        all.len() < u32::MAX,
                        md0.wf(),
                        object_builder.wf(),
                        object_builder.parent() is Variant,
                        object_builder.parent().buffer_ref() == pb,
                        (*pb)@ == start,
                        *final(object_builder.parent().metadata_ref()) == *final(pm),
                        dictionary_grows(
                            md0,
                            object_builder.parent().metadata(),
                            ordered_names(fields@, order@, i as int),
                        ),
                        !object_builder.validate(),
                        object_builder.duplicates() == Set::<u32>::empty(),
                        is_field_order(order@, fields@, md0.names()),
                        dicts.len() == i + 1,
                        parts.len() == i,
                        children.len() == i,
                        object_encodes(fields@, order@, dicts, parts, children, i as int),
                        dicts[0] == md0.names(),
                        dicts.last() == object_builder.parent().metadata().names(),
                        object_builder.data() == concat(parts),
                        object_builder.entries() == object_entries(fields@, order@, dicts, parts, i as int),
                    decreases order@.len() - i,
                {
                    let k = order[i];
                    proof {
                        lemma_ordered_names(fields@, order@, i as int + 1);
                        lemma_names_in_finite(fields@[k as int].1);
                        let cur = object_builder.parent().metadata().names();
                        lemma_room(
                            cur,
                            set![fields@[k as int].0@] + names_in(fields@[k as int].1),
                            all,
                        );
                        assert(decreases_to!(*variant => *fields));
                        vstd::std_specs::vec::axiom_vec_index_decreases(*fields, k as int);
                        assert(decreases_to!(*variant => fields@[k as int].1));
                    }
                    let ghost before = object_builder.parent().metadata();
                    let ghost data_before = object_builder.data();
                    object_builder.insert_ref(fields[k].0.as_str(), &fields[k].1);
                    proof {
                        let part = object_builder.data().subrange(data_before.len() as int, object_builder.data().len() as int);
                        let d = object_builder.parent().metadata().names();
                        let t = choose|t: Trace| #[trigger] encodes_by(
                            fields@[k as int].1,
                            upsert_names(before.names(), fields@[k as int].0@),
                            d,
                            part,
                            t,
                        );
                        lemma_object_encodes_stable(fields@, order@, dicts, parts, children, d, part, t, i as int);
                        lemma_object_entries_extend(fields@, order@, dicts, parts, d, part, i as int);
                        lemma_concat_push(parts, part);
                        assert(object_builder.data() =~= data_before + part);
                        assert(parts.push(part).subrange(0, i as int) == parts);
                        dicts = dicts.push(d);
                        parts = parts.push(part);
                        children = children.push(t);
                        assert(set![fields@[k as int].0@] + names_in(fields@[k as int].1)
                            == field_names(fields@[k as int]));
                        lemma_grows_trans(
                            md0,
                            before,
                            object_builder.parent().metadata(),
                            ordered_names(fields@, order@, i as int),
                            field_names(fields@[k as int]),
                        );
                        assert(ordered_names(fields@, order@, i + 1) == ordered_names(
                            fields@,
                            order@,
                            i as int,
                        ) + field_names(fields@[k as int]));
                    }
                    i = i + 1;
                }
                proof {
                    lemma_ordered_names_all(fields@, order@);
                }
                let ghost md_end = object_builder.parent().metadata();
                let ghost data_end = object_builder.data();
                let ghost entries_end = object_builder.entries();
                assert(dictionary_grows(md0, md_end, names_in(*variant)));
                let _ = object_builder.finish();
                proof {
                    let s = choose|s: Seq<(u32, usize)>|
                        sorted_by_name(s, entries_end, md_end.names()) && self@ == start + object_bytes(s, data_end);
                    let bytes = self@.subrange(start.len() as int, self@.len() as int);
                    assert(bytes =~= object_bytes(s, concat(parts)));
                    let t = Trace::Object { order: order@, dicts, parts, children, sorted: s };
                    assert(encodes_by(*variant, md0.names(), metadata_builder.names(), bytes, t));
                }
            },
            Variant::List(elems) => {
                let ghost start = self@;
                let ghost md0 = *metadata_builder;
                let ghost all = md0.names().to_set() + names_in(*variant);
                let mut list_builder = self.new_list(metadata_builder);
                let ghost pb = list_builder.parent().buffer_ref();
                let ghost pm = list_builder.parent().metadata_ref();
                let ghost mut dicts: Seq<Seq<Seq<char>>> = seq![md0.names()];
                let ghost mut parts: Seq<Seq<u8>> = Seq::empty();
                let ghost mut children: Seq<Trace> = Seq::empty();
                proof {
                    lemma_list_names(elems@, elems@.len() as int);
                    lemma_names_in_finite(*variant);
                    assert(md0.names().to_set() + Set::empty() =~= md0.names().to_set());
                }
                let mut i: usize = 0;
                while i < elems.len()
                    invariant
                        i <= elems@.len(),
                        *variant == Variant::List(*elems),
                        forall|k: int| 0 <= k < elems@.len() ==> (#[trigger] elems@[k]).wf(),
                        names_in(*variant) == list_names(elems@, elems@.len() as int),
                        all == md0.names().to_set() + names_in(*variant),
                        all.finite(),
                        all.len() < u32::MAX,
                        md0.wf(),
                        list_builder.wf(),
                        list_builder.parent() is Variant,
                        list_builder.parent().buffer_ref() == pb,
                        (*pb)@ == start,
                        *final(list_builder.parent().metadata_ref()) == *final(pm),
                        dictionary_grows(
                            md0,
                            list_builder.parent().metadata(),
                            list_names(elems@, i as int),
                        ),
                        dicts.len() == i + 1,
                        parts.len() == i,
                        children.len() == i,
                        list_encodes(elems@, dicts, parts, children, i as int),
                        dicts[0] == md0.names(),
                        dicts.last() == list_builder.parent().metadata().names(),
                        list_builder.data() == concat(parts),
                        list_builder.offsets() == starts(parts),
                    decreases elems@.len() - i,
                {
                    proof {
                        lemma_list_names(elems@, elems@.len() as int);
                        lemma_list_names(elems@, i as int + 1);
                        lemma_names_in_finite(elems@[i as int]);
                        lemma_room(list_builder.parent().metadata().names(), names_in(elems@[i as int]), all);
                        assert(decreases_to!(*variant => *elems));
                        vstd::std_specs::vec::axiom_vec_index_decreases(*elems, i as int);
                        assert(decreases_to!(*variant => elems@[i as int]));
                    }
                    let ghost before = list_builder.parent().metadata();
                    let ghost data_before = list_builder.data();
                    list_builder.append_value_ref(&elems[i]);
                    proof {
                        let part = list_builder.data().subrange(data_before.len() as int, list_builder.data().len() as int);
                        let d = list_builder.parent().metadata().names();
                        let t = choose|t: Trace| #[trigger] encodes_by(elems@[i as int], before.names(), d, part, t);
                        lemma_list_encodes_push(elems@, i as int, dicts, parts, children, d, part, t);
                        lemma_concat_push(parts, part);
                        assert(list_builder.data() =~= data_before + part);
                        dicts = dicts.push(d);
                        parts = parts.push(part);
                        children = children.push(t);
                        lemma_grows_trans(
                            md0,
                            before,
                            list_builder.parent().metadata(),
                            list_names(elems@, i as int),
                            names_in(elems@[i as int]),
                        );
                    }
                    i = i + 1;
                }
                let ghost md_end = list_builder.parent().metadata();
                assert(dictionary_grows(md0, md_end, names_in(*variant)));
                list_builder.finish();
                proof {
                    assert(self@ == start + array_bytes(starts(parts), concat(parts)));
                    assert(self@.subrange(start.len() as int, self@.len() as int) =~= array_bytes(starts(parts), concat(parts)));
                    let bytes = self@.subrange(start.len() as int, self@.len() as int);
                    let t = Trace::List { dicts, parts, children };
                    assert(encodes_by(*variant, md0.names(), metadata_builder.names(), bytes, t));
                }
            },
        }
        proof {
            if variant.is_primitive() {
                assert(self@.subrange(start0.len() as int, self@.len() as int) =~= primitive_bytes(*variant));
                assert(encodes_by(*variant, metadata_builder.names(), metadata_builder.names(), primitive_bytes(*variant), Trace::Leaf));
            }
        }
    }
}

/// A list builder dropped without `finish` leaves its parent's bytes as they
/// were when it was created: its methods never write to the parent's buffer.
pub proof fn lemma_abandoned_list(child: ListBuilder, bytes_at_creation: Seq<u8>)
    requires
        has_resolved(child),
        child.parent().value_bytes() == bytes_at_creation,
    ensures
        (*final(child.parent().buffer_ref()))@ == bytes_at_creation,
{
}

/// Builds an array: each element is encoded into a private buffer, and the
/// array reaches the parent only when `finish` is called.
pub struct ListBuilder<'a> {
    parent_state: ParentState<'a>,
    offsets: Vec<usize>,
    buffer: ValueBuffer,
    validate_unique_fields: bool,
}

impl<'a> ListBuilder<'a> {
    pub closed spec fn parent(&self) -> ParentState<'a> {
        self.parent_state
    }

    /// Start of each element in the private buffer, in insertion order.
    pub closed spec fn offsets(&self) -> Seq<usize> {
        self.offsets@
    }

    /// The elements' bytes.
    pub closed spec fn data(&self) -> Seq<u8> {
        self.buffer@
    }

    pub closed spec fn validate(&self) -> bool {
        self.validate_unique_fields
    }

    /// The parent can take the list, and the dictionary has room for one more name.
    pub open spec fn wf(&self) -> bool {
        &&& self.parent().ready()
        &&& self.parent().metadata().names().len() < u32::MAX
    }

    fn new(parent_state: ParentState<'a>, validate_unique_fields: bool) -> (r: ListBuilder<'a>)
        ensures
            r.parent() == parent_state,
            r.offsets() == Seq::<usize>::empty(),
            r.data() == Seq::<u8>::empty(),
            r.validate() == validate_unique_fields,
    {
        ListBuilder {
            parent_state,
            offsets: Vec::new(),
            buffer: ValueBuffer::new(),
            validate_unique_fields,
        }
    }

    /// Sets whether objects created within this list reject duplicate keys.
    pub fn with_validate_unique_fields(self, validate_unique_fields: bool) -> (r: ListBuilder<'a>)
        ensures
            r.parent() == self.parent(),
            r.offsets() == self.offsets(),
            r.data() == self.data(),
            r.validate() == validate_unique_fields,
    {
        let mut this = self;
        this.validate_unique_fields = validate_unique_fields;
        this
    }

    fn append_value_ref(&mut self, value: &Variant)
        requires
            old(self).wf(),
            value.wf(),
            has_room(old(self).parent().metadata().names(), names_in(*value)),
        ensures
            final(self).wf(),
            final(self).parent().same_except_metadata(old(self).parent()),
            *final(final(self).parent().metadata_ref()) == *final(old(self).parent().metadata_ref()),
            dictionary_grows(old(self).parent().metadata(), final(self).parent().metadata(), names_in(*value)),
            final(self).offsets() == old(self).offsets().push(old(self).data().len() as usize),
            old(self).data().is_prefix_of(final(self).data()),
            encodes(
                *value,
                old(self).parent().metadata().names(),
                final(self).parent().metadata().names(),
                final(self).data().subrange(old(self).data().len() as int, final(self).data().len() as int),
            ),
            value.is_primitive() ==> final(self).data() == old(self).data() + primitive_bytes(*value)
                && final(self).parent().metadata() == old(self).parent().metadata(),
            final(self).validate() == old(self).validate(),
        decreases *value, 1nat,
    {
        self.offsets.push(self.buffer.offset());
        let metadata_builder = self.parent_state.metadata_builder();
        self.buffer.append_variant(value, metadata_builder);
    }

    /// Appends `value` as the next element.
    pub fn append_value(&mut self, value: Variant)
        requires
            old(self).wf(),
            value.wf(),
            fits(old(self).parent().metadata().names(), names_in(value)),
        ensures
            final(self).wf(),
            final(self).parent().same_except_metadata(old(self).parent()),
            *final(final(self).parent().metadata_ref()) == *final(old(self).parent().metadata_ref()),
            dictionary_grows(old(self).parent().metadata(), final(self).parent().metadata(), names_in(value)),
            final(self).offsets() == old(self).offsets().push(old(self).data().len() as usize),
            old(self).data().is_prefix_of(final(self).data()),
            encodes(
                value,
                old(self).parent().metadata().names(),
                final(self).parent().metadata().names(),
                final(self).data().subrange(old(self).data().len() as int, final(self).data().len() as int),
            ),
            value.is_primitive() ==> final(self).data() == old(self).data() + primitive_bytes(value)
                && final(self).parent().metadata() == old(self).parent().metadata(),
            final(self).validate() == old(self).validate(),
    {
        proof {
            lemma_names_in_finite(value);
            lemma_fits_room(old(self).parent().metadata().names(), names_in(value));
        }
        self.append_value_ref(&value);
    }

    /// Same as `append_value`; there is no input on which it fails.
    pub fn try_append_value(&mut self, value: Variant) -> (r: Result<(), VariantError>)
        requires
            old(self).wf(),
            value.wf(),
            fits(old(self).parent().metadata().names(), names_in(value)),
        ensures
            r is Ok,
            final(self).wf(),
            final(self).parent().same_except_metadata(old(self).parent()),
            *final(final(self).parent().metadata_ref()) == *final(old(self).parent().metadata_ref()),
            dictionary_grows(old(self).parent().metadata(), final(self).parent().metadata(), names_in(value)),
            final(self).offsets() == old(self).offsets().push(old(self).data().len() as usize),
            old(self).data().is_prefix_of(final(self).data()),
            encodes(
                value,
                old(self).parent().metadata().names(),
                final(self).parent().metadata().names(),
                final(self).data().subrange(old(self).data().len() as int, final(self).data().len() as int),
            ),
            value.is_primitive() ==> final(self).data() == old(self).data() + primitive_bytes(value)
                && final(self).parent().metadata() == old(self).parent().metadata(),
            final(self).validate() == old(self).validate(),
    {
        proof {
            lemma_names_in_finite(value);
            lemma_fits_room(old(self).parent().metadata().names(), names_in(value));
        }
        self.append_value_ref(&value);
        Ok(())
    }

    /// A builder for an object that becomes the next element once finished.
    pub fn new_object(&mut self) -> (r: ObjectBuilder<'_>)
        requires
            old(self).wf(),
        ensures
            r.wf(),
            r.parent() is List,
            (*r.parent().buffer_ref())@ == old(self).data(),
            (*r.parent()->List_offsets)@ == old(self).offsets(),
            r.parent().metadata() == old(self).parent().metadata(),
            r.entries() == Seq::<(u32, usize)>::empty(),
            r.data() == Seq::<u8>::empty(),
            r.duplicates() == Set::<u32>::empty(),
            r.validate() == old(self).validate(),
            final(self).data() == (*final(r.parent().buffer_ref()))@,
            final(self).offsets() == (*final(r.parent()->List_offsets))@,
            final(self).parent().metadata() == *final(r.parent().metadata_ref()),
            final(self).parent().same_except_metadata(old(self).parent()),
            *final(final(self).parent().metadata_ref()) == *final(old(self).parent().metadata_ref()),
            final(self).validate() == old(self).validate(),
    {
        let validate_unique_fields = self.validate_unique_fields;
        let metadata_builder = self.parent_state.metadata_builder();
        let parent_state = ParentState::List {
            buffer: &mut self.buffer,
            metadata_builder,
            offsets: &mut self.offsets,
        };
        ObjectBuilder::new(parent_state, validate_unique_fields)
    }

    /// A builder for a list that becomes the next element once finished.
    pub fn new_list(&mut self) -> (r: ListBuilder<'_>)
        requires
            old(self).wf(),
        ensures
            r.wf(),
            r.parent() is List,
            (*r.parent().buffer_ref())@ == old(self).data(),
            (*r.parent()->List_offsets)@ == old(self).offsets(),
            r.parent().metadata() == old(self).parent().metadata(),
            r.offsets() == Seq::<usize>::empty(),
            r.data() == Seq::<u8>::empty(),
            r.validate() == old(self).validate(),
            final(self).data() == (*final(r.parent().buffer_ref()))@,
            final(self).offsets() == (*final(r.parent()->List_offsets))@,
            final(self).parent().metadata() == *final(r.parent().metadata_ref()),
            final(self).parent().same_except_metadata(old(self).parent()),
            *final(final(self).parent().metadata_ref()) == *final(old(self).parent().metadata_ref()),
            final(self).validate() == old(self).validate(),
    {
        let validate_unique_fields = self.validate_unique_fields;
        let metadata_builder = self.parent_state.metadata_builder();
        let parent_state = ParentState::List {
            buffer: &mut self.buffer,
            metadata_builder,
            offsets: &mut self.offsets,
        };
        ListBuilder::new(parent_state, validate_unique_fields)
    }

    /// Emits the array into the parent: header, element count, offsets, then the elements.
    pub fn finish(self)
        requires
            self.wf(),
        ensures
            self.parent().finished(
                (*final(self.parent().buffer_ref()))@,
                *final(self.parent().metadata_ref()),
                (*final(self.parent()->List_offsets))@,
                map_entries(*final(self.parent()->Object_fields)),
                array_bytes(self.offsets(), self.data()),
            ),
    {
        let ListBuilder { mut parent_state, offsets, buffer, .. } = self;
        let ghost p0 = parent_state;
        let data_size = buffer.offset();
        let num_elements = offsets.len();
        let is_large = num_elements > 255;
        let offset_size = int_size(data_size);
        let parent_buffer = parent_state.buffer();
        let starting_offset = parent_buffer.offset();
        let header = array_header(is_large, offset_size);
        parent_buffer.append_header(header, is_large, num_elements);
        parent_buffer.append_offset_array(offsets.as_slice(), Some(data_size), offset_size);
        parent_buffer.append_slice(buffer.inner());
        assert(parent_buffer@ == p0.value_bytes() + array_bytes(offsets@, buffer@));
        parent_state.finish(starting_offset);
    }
}


/// Relies on `IndexMap::sort_by`: a stable sort of the entries in place. The
/// comparator orders entries by the names of their field IDs, a total order
/// here since distinct IDs name distinct strings.
#[verifier::external_body]
fn sort_fields_by_name(fields: &mut IndexMap<u32, usize>, metadata_builder: &MetadataBuilder)
    requires
        metadata_builder.wf(),
        keys_unique(map_entries(*old(fields))),
        forall|i: int|
            0 <= i < map_entries(*old(fields)).len() ==> ((#[trigger] map_entries(
                *old(fields),
            )[i]).0 as nat) < metadata_builder.names().len(),
    ensures
        map_entries(*final(fields)).to_multiset() == map_entries(*old(fields)).to_multiset(),
        keys_unique(map_entries(*final(fields))),
        forall|i: int, j: int|
            0 <= i < j < map_entries(*final(fields)).len() ==> !name_lt(
                metadata_builder.names()[map_entries(*final(fields))[j].0 as int],
                metadata_builder.names()[map_entries(*final(fields))[i].0 as int],
            ),
{
    fields.sort_by(|a, _, b, _| metadata_builder.compare_field_ids(*a, *b))
}

/// Largest key of the entries, or 0.
pub open spec fn max_key(s: Seq<(u32, usize)>) -> nat
    decreases s.len(),
{
    if s.len() == 0 {
        0
    } else if s.last().0 as nat > max_key(s.drop_last()) {
        s.last().0 as nat
    } else {
        max_key(s.drop_last())
    }
}

/// Object encoding of fields `s`, already in on-wire order, over `data`.
pub open spec fn object_bytes(s: Seq<(u32, usize)>, data: Seq<u8>) -> Seq<u8> {
    let large = s.len() > 255;
    let id_size = int_size_spec(max_key(s));
    let offset_size = int_size_spec(data.len());
    seq![object_header_spec(large, id_size, offset_size)] + count_bytes(large, s.len()) + le_array(
        s.map_values(|e: (u32, usize)| e.0 as nat),
        id_size,
    ) + le_array(s.map_values(|e: (u32, usize)| e.1 as nat) + seq![data.len()], offset_size)
        + data
}

/// `s` holds the entries of `entries`, in strictly ascending order of their names.
pub open spec fn sorted_by_name(
    s: Seq<(u32, usize)>,
    entries: Seq<(u32, usize)>,
    names: Seq<Seq<char>>,
) -> bool {
    &&& s.to_multiset() == entries.to_multiset()
    &&& forall|i: int| 0 <= i < s.len() ==> ((#[trigger] s[i]).0 as nat) < names.len()
    &&& forall|i: int, j: int|
        0 <= i < j < s.len() ==> name_lt(names[s[i].0 as int], names[s[j].0 as int])
}

/// `l` lists the names of the IDs in `dups`, in strictly ascending order.
pub open spec fn lists_duplicates(l: Seq<Seq<char>>, dups: Set<u32>, names: Seq<Seq<char>>) -> bool {
    &&& forall|i: int, j: int| 0 <= i < j < l.len() ==> name_lt(l[i], l[j])
    &&& forall|x: Seq<char>|
        l.contains(x) <==> exists|d: u32|
            dups.contains(d) && (d as nat) < names.len() && #[trigger] names[d as int] == x
}

/// The names of the entries of `s` whose IDs are in `dups`, in the order of `s`.
pub open spec fn duplicate_names(
    s: Seq<(u32, usize)>,
    dups: Set<u32>,
    names: Seq<Seq<char>>,
) -> Seq<Seq<char>>
    decreases s.len(),
{
    if s.len() == 0 {
        Seq::empty()
    } else if dups.contains(s.last().0) {
        duplicate_names(s.drop_last(), dups, names).push(names[s.last().0 as int])
    } else {
        duplicate_names(s.drop_last(), dups, names)
    }
}

proof fn lemma_duplicate_names(s: Seq<(u32, usize)>, dups: Set<u32>, names: Seq<Seq<char>>)
    requires
        forall|i: int| 0 <= i < s.len() ==> ((#[trigger] s[i]).0 as nat) < names.len(),
        forall|i: int, j: int|
            0 <= i < j < s.len() ==> name_lt(names[s[i].0 as int], names[s[j].0 as int]),
    ensures
        forall|x: Seq<char>|
            duplicate_names(s, dups, names).contains(x) <==> exists|i: int|
                0 <= i < s.len() && dups.contains(s[i].0) && #[trigger] names[s[i].0 as int] == x,
        forall|i: int, j: int|
            0 <= i < j < duplicate_names(s, dups, names).len() ==> name_lt(
                duplicate_names(s, dups, names)[i],
                duplicate_names(s, dups, names)[j],
            ),
    decreases s.len(),
{
    if s.len() > 0 {
        let t = s.drop_last();
        lemma_duplicate_names(t, dups, names);
        let l = duplicate_names(s, dups, names);
        let lt = duplicate_names(t, dups, names);
        assert forall|x: Seq<char>| l.contains(x) <==> exists|i: int|
            0 <= i < s.len() && dups.contains(s[i].0) && #[trigger] names[s[i].0 as int] == x by {
            if l.contains(x) && lt.contains(x) {
                let i = choose|i: int|
                    0 <= i < t.len() && dups.contains(t[i].0) && #[trigger] names[t[i].0 as int]
                        == x;
                assert(s[i] == t[i]);
            }
            if exists|i: int|
                0 <= i < s.len() && dups.contains(s[i].0) && #[trigger] names[s[i].0 as int] == x {
                let i = choose|i: int|
                    0 <= i < s.len() && dups.contains(s[i].0) && #[trigger] names[s[i].0 as int]
                        == x;
                if i < t.len() {
                    assert(t[i] == s[i]);
                    assert(lt.contains(x));
                    if dups.contains(s.last().0) {
                        assert(l == lt.push(names[s.last().0 as int]));
                        let q = choose|q: int| 0 <= q < lt.len() && lt[q] == x;
                        assert(l[q] == x);
                    }
                } else {
                    assert(l[l.len() - 1] == x);
                }
            }
        }
        if dups.contains(s.last().0) {
            assert forall|i: int, j: int| 0 <= i < j < l.len() implies name_lt(l[i], l[j]) by {
                if j == l.len() - 1 {
                    assert(lt.contains(l[i]));
                    let q = choose|q: int|
                        0 <= q < t.len() && dups.contains(t[q].0) && #[trigger] names[t[q].0 as int]
                            == l[i];
                    assert(s[q] == t[q]);
                } else {
                    assert(l[i] == lt[i] && l[j] == lt[j]);
                }
            }
        }
    }
}

/// The names of the entries of `fields` whose IDs are in `duplicates`, in
/// the order of the entries.
fn duplicate_field_names(
    fields: &IndexMap<u32, usize>,
    duplicates: &HashSet<u32>,
    metadata_builder: &MetadataBuilder,
) -> (r: Vec<String>)
    requires
        forall|q: int|
            0 <= q < map_entries(*fields).len() ==> ((#[trigger] map_entries(*fields)[q]).0 as nat)
                < metadata_builder.names().len(),
        forall|i: int, j: int|
            0 <= i < j < map_entries(*fields).len() ==> name_lt(
                metadata_builder.names()[map_entries(*fields)[i].0 as int],
                metadata_builder.names()[map_entries(*fields)[j].0 as int],
            ),
    ensures
        r@.map_values(|x: String| x@) == duplicate_names(
            map_entries(*fields),
            duplicates@,
            metadata_builder.names(),
        ),
{
    let ghost s = map_entries(*fields);
    let ghost names = metadata_builder.names();
    let ghost dups = duplicates@;
    let num_fields = fields_len(fields);
    let mut dup_names: Vec<String> = Vec::new();
    let mut i: usize = 0;
    while i < num_fields
        invariant
            i <= num_fields,
            num_fields == s.len(),
            s == map_entries(*fields),
            names == metadata_builder.names(),
            dups == duplicates@,
            forall|q: int| 0 <= q < s.len() ==> ((#[trigger] s[q]).0 as nat) < names.len(),
            dup_names@.map_values(|x: String| x@) == duplicate_names(
                s.subrange(0, i as int),
                dups,
                names,
            ),
        decreases num_fields - i,
    {
        if let Some((id, _)) = fields_get(fields, i) {
            if duplicates.contains(&id) {
                dup_names.push(metadata_builder.field_name(id as usize).to_owned());
            }
        }
        proof {
            assert(s.subrange(0, i + 1).drop_last() == s.subrange(0, i as int));
            assert(dup_names@.map_values(|x: String| x@) =~= duplicate_names(
                s.subrange(0, i + 1),
                dups,
                names,
            ));
        }
        i = i + 1;
    }
    proof {
        assert(s.subrange(0, s.len() as int) == s);
    }
    dup_names
}

/// The entries' IDs and offsets, in order, and the largest ID.
fn field_arrays(fields: &IndexMap<u32, usize>) -> (r: (Vec<usize>, Vec<usize>, u32))
    ensures
        offsets_nat(r.0@) == map_entries(*fields).map_values(|e: (u32, usize)| e.0 as nat),
        offsets_nat(r.1@) == map_entries(*fields).map_values(|e: (u32, usize)| e.1 as nat),
        r.2 as nat == max_key(map_entries(*fields)),
{
    let ghost s = map_entries(*fields);
    let num_fields = fields_len(fields);
    let mut ids: Vec<usize> = Vec::new();
    let mut offsets: Vec<usize> = Vec::new();
    let mut max_id: u32 = 0;
    let mut i: usize = 0;
    while i < num_fields
        invariant
            i <= num_fields,
            num_fields == s.len(),
            s == map_entries(*fields),
            ids@.len() == i,
            offsets@.len() == i,
            forall|q: int| 0 <= q < i ==> #[trigger] ids@[q] == s[q].0 as usize,
            forall|q: int| 0 <= q < i ==> #[trigger] offsets@[q] == s[q].1,
            max_id as nat == max_key(s.subrange(0, i as int)),
        decreases num_fields - i,
    {
        if let Some((id, offset)) = fields_get(fields, i) {
            ids.push(id as usize);
            offsets.push(offset);
            if id > max_id {
                max_id = id;
            }
        }
        proof {
            let t = s.subrange(0, i + 1);
            assert(t.drop_last() == s.subrange(0, i as int));
        }
        i = i + 1;
    }
    proof {
        assert(s.subrange(0, s.len() as int) == s);
        assert(offsets_nat(ids@) =~= s.map_values(|e: (u32, usize)| e.0 as nat));
        assert(offsets_nat(offsets@) =~= s.map_values(|e: (u32, usize)| e.1 as nat));
    }
    (ids, offsets, max_id)
}

/// An object builder dropped without `finish` leaves its parent's bytes as
/// they were when it was created: its methods never write to the parent's buffer.
pub proof fn lemma_abandoned_object(child: ObjectBuilder, bytes_at_creation: Seq<u8>)
    requires
        has_resolved(child),
        child.parent().value_bytes() == bytes_at_creation,
    ensures
        (*final(child.parent().buffer_ref()))@ == bytes_at_creation,
{
}

/// Builds an object: each field's value is encoded into a private buffer and
/// its start recorded by field ID; the object reaches the parent only when
/// `finish` is called.
pub struct ObjectBuilder<'a> {
    parent_state: ParentState<'a>,
    fields: IndexMap<u32, usize>,
    buffer: ValueBuffer,
    validate_unique_fields: bool,
    duplicate_fields: HashSet<u32>,
}

impl<'a> ObjectBuilder<'a> {
    pub closed spec fn parent(&self) -> ParentState<'a> {
        self.parent_state
    }

    /// (field ID, start of its value in the private buffer), in insertion order.
    pub closed spec fn entries(&self) -> Seq<(u32, usize)> {
        map_entries(self.fields)
    }

    /// The field values' bytes.
    pub closed spec fn data(&self) -> Seq<u8> {
        self.buffer@
    }

    pub closed spec fn validate(&self) -> bool {
        self.validate_unique_fields
    }

    /// IDs inserted more than once while validation was on.
    pub closed spec fn duplicates(&self) -> Set<u32> {
        self.duplicate_fields@
    }

    /// The parent can take the object; each entry's ID is a distinct name of
    /// the dictionary, and every duplicate ID is an entry's.
    pub open spec fn wf(&self) -> bool {
        &&& self.parent().ready()
        &&& self.parent().metadata().names().len() < u32::MAX
        &&& keys_unique(self.entries())
        &&& forall|i: int|
            0 <= i < self.entries().len() ==> ((#[trigger] self.entries()[i]).0 as nat)
                < self.parent().metadata().names().len()
        &&& forall|d: u32| self.duplicates().contains(d) ==> has_key(self.entries(), d)
        &&& self.duplicates().finite()
    }

    fn new(parent_state: ParentState<'a>, validate_unique_fields: bool) -> (r: ObjectBuilder<'a>)
        ensures
            r.parent() == parent_state,
            r.entries() == Seq::<(u32, usize)>::empty(),
            r.data() == Seq::<u8>::empty(),
            r.validate() == validate_unique_fields,
            r.duplicates() == Set::<u32>::empty(),
    {
        ObjectBuilder {
            parent_state,
            fields: fields_new(),
            buffer: ValueBuffer::new(),
            validate_unique_fields,
            duplicate_fields: HashSet::new(),
        }
    }

    /// Sets whether `finish` rejects keys inserted more than once.
    pub fn with_validate_unique_fields(self, validate_unique_fields: bool) -> (r: ObjectBuilder<'a>)
        ensures
            r.parent() == self.parent(),
            r.entries() == self.entries(),
            r.data() == self.data(),
            r.duplicates() == self.duplicates(),
            r.validate() == validate_unique_fields,
    {
        let mut this = self;
        this.validate_unique_fields = validate_unique_fields;
        this
    }

    #[verifier::rlimit(50)]
    fn insert_ref(&mut self, key: &str, value: &Variant)
        requires
            old(self).wf(),
            value.wf(),
            has_room(old(self).parent().metadata().names(), set![key@] + names_in(*value)),
        ensures
            final(self).wf(),
            final(self).parent().same_except_metadata(old(self).parent()),
            *final(final(self).parent().metadata_ref()) == *final(old(self).parent().metadata_ref()),
            dictionary_grows(
                old(self).parent().metadata(),
                final(self).parent().metadata(),
                set![key@] + names_in(*value),
            ),
            upsert_names(old(self).parent().metadata().names(), key@).is_prefix_of(
                final(self).parent().metadata().names(),
            ),
            final(self).entries() == insert_entry(
                old(self).entries(),
                final(self).parent().metadata().names().index_of(key@) as u32,
                old(self).data().len() as usize,
            ),
            final(self).duplicates() == (if old(self).validate() && has_key(
                old(self).entries(),
                final(self).parent().metadata().names().index_of(key@) as u32,
            ) {
                old(self).duplicates().insert(
                    final(self).parent().metadata().names().index_of(key@) as u32,
                )
            } else {
                old(self).duplicates()
            }),
            old(self).data().is_prefix_of(final(self).data()),
            encodes(
                *value,
                upsert_names(old(self).parent().metadata().names(), key@),
                final(self).parent().metadata().names(),
                final(self).data().subrange(old(self).data().len() as int, final(self).data().len() as int),
            ),
            value.is_primitive() ==> final(self).data() == old(self).data() + primitive_bytes(*value),
            final(self).validate() == old(self).validate(),
        decreases *value, 1nat,
    {
        proof {
            lemma_names_in_finite(*value);
            let ns = self.parent().metadata().names();
            ns.unique_seq_to_set();
            vstd::set_lib::lemma_len_subset(ns.to_set(), ns.to_set() + (set![key@] + names_in(*value)));
        }
        let ghost e0 = self.entries();
        let ghost md0 = self.parent().metadata();
        let metadata_builder = self.parent_state.metadata_builder();
        let field_id = metadata_builder.upsert_field_name(key);
        let ghost md1 = *metadata_builder;
        let field_start = self.buffer.offset();
        proof {
            lemma_insert_entry(e0, field_id, field_start);
            lemma_upsert_to_set(md0.names(), key@);
            assert(md1.names().to_set() + names_in(*value) =~= md0.names().to_set() + (set![key@] + names_in(*value)));
        }
        let prior = fields_insert(&mut self.fields, field_id, field_start);
        if prior.is_some() && self.validate_unique_fields {
            self.duplicate_fields.insert(field_id);
        }
        self.buffer.append_variant(value, metadata_builder);
        proof {
            let md2 = self.parent().metadata();
            assert(md1.names().is_prefix_of(md2.names()));
            assert(md2.names()[field_id as int] == md1.names()[field_id as int]);
            lemma_index_of_unique(md2.names(), field_id as int);
            assert(md2.names().to_set() =~= md0.names().to_set() + (set![key@] + names_in(*value)));
            assert forall|i: int| 0 <= i < self.entries().len() implies ((#[trigger] self.entries()[i]).0 as nat) < md2.names().len() by {
                if self.entries()[i].0 != field_id {
                    let q = choose|q: int| 0 <= q < e0.len() && #[trigger] e0[q].0 == self.entries()[i].0;
                }
            }
        }
    }

    /// Adds a field. An earlier value under the same key stays in the buffer
    /// but is no longer referenced.
    pub fn insert(&mut self, key: &str, value: Variant)
        requires
            old(self).wf(),
            value.wf(),
            fits(old(self).parent().metadata().names(), names_in(value).insert(key@)),
        ensures
            final(self).wf(),
            final(self).parent().same_except_metadata(old(self).parent()),
            *final(final(self).parent().metadata_ref()) == *final(old(self).parent().metadata_ref()),
            dictionary_grows(
                old(self).parent().metadata(),
                final(self).parent().metadata(),
                set![key@] + names_in(value),
            ),
            upsert_names(old(self).parent().metadata().names(), key@).is_prefix_of(
                final(self).parent().metadata().names(),
            ),
            final(self).entries() == insert_entry(
                old(self).entries(),
                final(self).parent().metadata().names().index_of(key@) as u32,
                old(self).data().len() as usize,
            ),
            final(self).duplicates() == (if old(self).validate() && has_key(
                old(self).entries(),
                final(self).parent().metadata().names().index_of(key@) as u32,
            ) {
                old(self).duplicates().insert(
                    final(self).parent().metadata().names().index_of(key@) as u32,
                )
            } else {
                old(self).duplicates()
            }),
            old(self).data().is_prefix_of(final(self).data()),
            encodes(
                value,
                upsert_names(old(self).parent().metadata().names(), key@),
                final(self).parent().metadata().names(),
                final(self).data().subrange(old(self).data().len() as int, final(self).data().len() as int),
            ),
            value.is_primitive() ==> final(self).data() == old(self).data() + primitive_bytes(value),
            final(self).validate() == old(self).validate(),
    {
        proof {
            lemma_names_in_finite(value);
            lemma_fits_room(old(self).parent().metadata().names(), names_in(value).insert(key@));
            assert(names_in(value).insert(key@) =~= set![key@] + names_in(value));
        }
        self.insert_ref(key, &value);
    }

    /// The field IDs inserted so far, in insertion order.
    pub fn field_ids(&self) -> (r: Vec<u32>)
        ensures
            r@ == self.entries().map_values(|e: (u32, usize)| e.0),
    {
        let n = fields_len(&self.fields);
        let mut r: Vec<u32> = Vec::new();
        let mut i: usize = 0;
        while i < n
            invariant
                i <= n,
                n == self.entries().len(),
                r@ == self.entries().subrange(0, i as int).map_values(|e: (u32, usize)| e.0),
            decreases n - i,
        {
            if let Some((id, _)) = fields_get(&self.fields, i) {
                r.push(id);
            }
            assert(self.entries().subrange(0, i + 1).map_values(|e: (u32, usize)| e.0) =~= self.entries().subrange(0, i as int).map_values(|e: (u32, usize)| e.0).push(self.entries()[i as int].0));
            i = i + 1;
        }
        assert(self.entries().subrange(0, n as int) == self.entries());
        r
    }

    /// Same as `insert`; there is no input on which it fails.
    pub fn try_insert(&mut self, key: &str, value: Variant) -> (r: Result<(), VariantError>)
        requires
            old(self).wf(),
            value.wf(),
            fits(old(self).parent().metadata().names(), names_in(value).insert(key@)),
        ensures
            r is Ok,
            final(self).wf(),
            final(self).parent().same_except_metadata(old(self).parent()),
            *final(final(self).parent().metadata_ref()) == *final(old(self).parent().metadata_ref()),
            dictionary_grows(
                old(self).parent().metadata(),
                final(self).parent().metadata(),
                set![key@] + names_in(value),
            ),
            upsert_names(old(self).parent().metadata().names(), key@).is_prefix_of(
                final(self).parent().metadata().names(),
            ),
            final(self).entries() == insert_entry(
                old(self).entries(),
                final(self).parent().metadata().names().index_of(key@) as u32,
                old(self).data().len() as usize,
            ),
            final(self).duplicates() == (if old(self).validate() && has_key(
                old(self).entries(),
                final(self).parent().metadata().names().index_of(key@) as u32,
            ) {
                old(self).duplicates().insert(
                    final(self).parent().metadata().names().index_of(key@) as u32,
                )
            } else {
                old(self).duplicates()
            }),
            old(self).data().is_prefix_of(final(self).data()),
            encodes(
                value,
                upsert_names(old(self).parent().metadata().names(), key@),
                final(self).parent().metadata().names(),
                final(self).data().subrange(old(self).data().len() as int, final(self).data().len() as int),
            ),
            value.is_primitive() ==> final(self).data() == old(self).data() + primitive_bytes(value),
            final(self).validate() == old(self).validate(),
    {
        proof {
            lemma_names_in_finite(value);
            lemma_fits_room(old(self).parent().metadata().names(), names_in(value).insert(key@));
            assert(names_in(value).insert(key@) =~= set![key@] + names_in(value));
        }
        self.insert_ref(key, &value);
        Ok(())
    }

    /// A builder for an object that becomes the value of `key` once finished.
    pub fn new_object<'b>(&'b mut self, key: &'b str) -> (r: ObjectBuilder<'b>)
        requires
            old(self).wf(),
        ensures
            r.wf(),
            r.parent() is Object,
            (*r.parent().buffer_ref())@ == old(self).data(),
            map_entries(*r.parent()->Object_fields) == old(self).entries(),
            r.parent()->Object_field_name@ == key@,
            r.parent().metadata() == old(self).parent().metadata(),
            r.entries() == Seq::<(u32, usize)>::empty(),
            r.data() == Seq::<u8>::empty(),
            r.duplicates() == Set::<u32>::empty(),
            r.validate() == old(self).validate(),
            final(self).data() == (*final(r.parent().buffer_ref()))@,
            final(self).entries() == map_entries(*final(r.parent()->Object_fields)),
            final(self).parent().metadata() == *final(r.parent().metadata_ref()),
            final(self).parent().same_except_metadata(old(self).parent()),
            *final(final(self).parent().metadata_ref()) == *final(old(self).parent().metadata_ref()),
            final(self).validate() == old(self).validate(),
            final(self).duplicates() == old(self).duplicates(),
    {
        let validate_unique_fields = self.validate_unique_fields;
        let metadata_builder = self.parent_state.metadata_builder();
        let parent_state = ParentState::Object {
            buffer: &mut self.buffer,
            metadata_builder,
            fields: &mut self.fields,
            field_name: key,
        };
        ObjectBuilder::new(parent_state, validate_unique_fields)
    }

    /// A builder for a list that becomes the value of `key` once finished.
    pub fn new_list<'b>(&'b mut self, key: &'b str) -> (r: ListBuilder<'b>)
        requires
            old(self).wf(),
        ensures
            r.wf(),
            r.parent() is Object,
            (*r.parent().buffer_ref())@ == old(self).data(),
            map_entries(*r.parent()->Object_fields) == old(self).entries(),
            r.parent()->Object_field_name@ == key@,
            r.parent().metadata() == old(self).parent().metadata(),
            r.offsets() == Seq::<usize>::empty(),
            r.data() == Seq::<u8>::empty(),
            r.validate() == old(self).validate(),
            final(self).data() == (*final(r.parent().buffer_ref()))@,
            final(self).entries() == map_entries(*final(r.parent()->Object_fields)),
            final(self).parent().metadata() == *final(r.parent().metadata_ref()),
            final(self).parent().same_except_metadata(old(self).parent()),
            *final(final(self).parent().metadata_ref()) == *final(old(self).parent().metadata_ref()),
            final(self).validate() == old(self).validate(),
            final(self).duplicates() == old(self).duplicates(),
    {
        let validate_unique_fields = self.validate_unique_fields;
        let metadata_builder = self.parent_state.metadata_builder();
        let parent_state = ParentState::Object {
            buffer: &mut self.buffer,
            metadata_builder,
            fields: &mut self.fields,
            field_name: key,
        };
        ListBuilder::new(parent_state, validate_unique_fields)
    }

    /// Finishes the object. With validation on and a key inserted more than
    /// once, reports the duplicate names and leaves the parent as it was;
    /// otherwise emits header, field count, field IDs and offsets in name
    /// order, then the values.
    pub fn finish(self) -> (r: Result<(), VariantError>)
        requires
            self.wf(),
        ensures
            self.validate() && !self.duplicates().is_empty() ==> {
                &&& r matches Err(VariantError::DuplicateFields(v)) && lists_duplicates(
                    v@.map_values(|x: String| x@),
                    self.duplicates(),
                    self.parent().metadata().names(),
                )
                &&& (*final(self.parent().buffer_ref()))@ == self.parent().value_bytes()
                &&& *final(self.parent().metadata_ref()) == self.parent().metadata()
                &&& self.parent() is List ==> *final(self.parent()->List_offsets) == *self.parent()->List_offsets
                &&& self.parent() is Object ==> *final(self.parent()->Object_fields) == *self.parent()->Object_fields
            },
            !(self.validate() && !self.duplicates().is_empty()) ==> {
                &&& r is Ok
                &&& exists|s: Seq<(u32, usize)>|
                    sorted_by_name(s, self.entries(), self.parent().metadata().names())
                        && self.parent().finished(
                        (*final(self.parent().buffer_ref()))@,
                        *final(self.parent().metadata_ref()),
                        (*final(self.parent()->List_offsets))@,
                        map_entries(*final(self.parent()->Object_fields)),
                        object_bytes(s, self.data()),
                    )
            },
    {
        let ghost e0 = self.entries();
        let ghost dups = self.duplicates();
        let ObjectBuilder {
            mut parent_state,
            mut fields,
            buffer,
            validate_unique_fields,
            duplicate_fields,
        } = self;
        let ghost p0 = parent_state;
        let ghost names = p0.metadata().names();
        let metadata_builder = parent_state.metadata_builder();
        sort_fields_by_name(&mut fields, metadata_builder);
        let num_fields = fields_len(&fields);
        let ghost s = map_entries(fields);
        proof {
            s.to_multiset_ensures();
            e0.to_multiset_ensures();
            assert forall|i: int| 0 <= i < s.len() implies ((#[trigger] s[i]).0 as nat) < names.len() by {
                assert(s.contains(s[i]));
                assert(s.to_multiset().count(s[i]) > 0);
                assert(e0.to_multiset().count(s[i]) > 0);
                assert(e0.contains(s[i]));
                let q = choose|q: int| 0 <= q < e0.len() && e0[q] == s[i];
                assert(e0[q].0 == s[i].0);
            }
            assert forall|i: int, j: int| 0 <= i < j < s.len() implies name_lt(names[s[i].0 as int], names[s[j].0 as int]) by {
                assert(s[i].0 != s[j].0);
                assert(names[s[i].0 as int] != names[s[j].0 as int]);
                lemma_name_lt_total(names[s[i].0 as int], names[s[j].0 as int]);
            }
            assert(sorted_by_name(s, e0, names));
        }
        if validate_unique_fields && !duplicate_fields.is_empty() {
            let dup_names = duplicate_field_names(&fields, &duplicate_fields, metadata_builder);
            proof {
                lemma_duplicate_names(s, dups, names);
                let l = dup_names@.map_values(|x: String| x@);
                assert forall|x: Seq<char>| l.contains(x) <==> exists|d: u32|
                    dups.contains(d) && (d as nat) < names.len() && #[trigger] names[d as int] == x by {
                    if exists|d: u32| dups.contains(d) && (d as nat) < names.len() && #[trigger] names[d as int] == x {
                        let d = choose|d: u32| dups.contains(d) && (d as nat) < names.len() && #[trigger] names[d as int] == x;
                        assert(has_key(e0, d));
                        let q = choose|q: int| 0 <= q < e0.len() && #[trigger] e0[q].0 == d;
                        assert(e0.contains(e0[q]));
                        assert(e0.to_multiset().count(e0[q]) > 0);
                        assert(s.to_multiset().count(e0[q]) > 0);
                        assert(s.contains(e0[q]));
                        let i = choose|i: int| 0 <= i < s.len() && s[i] == e0[q];
                        assert(names[s[i].0 as int] == x);
                    }
                }
            }
            return Err(VariantError::DuplicateFields(dup_names));
        }
        let (ids, offsets, max_id) = field_arrays(&fields);
        let data_size = buffer.offset();
        let is_large = num_fields > 255;
        let id_size = int_size(max_id as usize);
        let offset_size = int_size(data_size);
        let parent_buffer = parent_state.buffer();
        let starting_offset = parent_buffer.offset();
        let header = object_header(is_large, id_size, offset_size);
        parent_buffer.append_header(header, is_large, num_fields);
        parent_buffer.append_offset_array(ids.as_slice(), None, id_size);
        parent_buffer.append_offset_array(offsets.as_slice(), Some(data_size), offset_size);
        parent_buffer.append_slice(buffer.inner());
        proof {
            assert(offsets_nat(ids@) + Seq::<nat>::empty() == offsets_nat(ids@));
            assert(parent_buffer@ == p0.value_bytes() + object_bytes(s, buffer@));
        }
        parent_state.finish(starting_offset);
        Ok(())
    }
}


/// Top-level builder: owns the value buffer and the dictionary, and hands out
/// list and object builders that write into them.
pub struct VariantBuilder {
    buffer: ValueBuffer,
    metadata_builder: MetadataBuilder,
    validate_unique_fields: bool,
}

impl VariantBuilder {
    /// The value bytes written so far.
    pub closed spec fn value(&self) -> Seq<u8> {
        self.buffer@
    }

    /// The dictionary.
    pub closed spec fn metadata(&self) -> MetadataBuilder {
        self.metadata_builder
    }

    /// Whether objects built here reject duplicate keys.
    pub closed spec fn validate(&self) -> bool {
        self.validate_unique_fields
    }

    /// The dictionary is well formed and has room for one more name.
    pub open spec fn wf(&self) -> bool {
        &&& self.metadata().wf()
        &&& self.metadata().names().len() < u32::MAX
    }

    /// A builder with empty buffers.
    pub fn new() -> (r: VariantBuilder)
        ensures
            r.wf(),
            r.value() == Seq::<u8>::empty(),
            r.metadata().names() == Seq::<Seq<char>>::empty(),
            r.metadata().prefix() == Seq::<u8>::empty(),
            !r.validate(),
    {
        VariantBuilder {
            buffer: ValueBuffer::new(),
            metadata_builder: MetadataBuilder::new(),
            validate_unique_fields: false,
        }
    }

    /// A builder that appends after the bytes already in the two buffers.
    /// The metadata blob is written whole after `metadata_buffer`'s bytes.
    pub fn new_with_buffers(metadata_buffer: Vec<u8>, value_buffer: Vec<u8>) -> (r: VariantBuilder)
        ensures
            r.wf(),
            r.value() == value_buffer@,
            r.metadata().names() == Seq::<Seq<char>>::empty(),
            r.metadata().prefix() == metadata_buffer@,
            !r.validate(),
    {
        VariantBuilder {
            buffer: ValueBuffer::from_vec(value_buffer),
            metadata_builder: MetadataBuilder::from_buffer(metadata_buffer),
            validate_unique_fields: false,
        }
    }

    /// Seeds the dictionary with the field names of decoded metadata, in order.
    pub fn with_metadata(self, field_names: &[&str]) -> (r: VariantBuilder)
        requires
            self.wf(),
            self.metadata().names().len() + field_names@.len() < u32::MAX,
        ensures
            r.wf(),
            r.value() == self.value(),
            r.metadata().names() == upsert_all(
                self.metadata().names(),
                field_names@.map_values(|s: &str| s@),
            ),
            r.metadata().prefix() == self.metadata().prefix(),
            r.validate() == self.validate(),
    {
        self.with_field_names(field_names)
    }

    /// Sets whether every object built here rejects duplicate keys.
    pub fn with_validate_unique_fields(self, validate_unique_fields: bool) -> (r: VariantBuilder)
        ensures
            r.value() == self.value(),
            r.metadata() == self.metadata(),
            r.validate() == validate_unique_fields,
    {
        let mut this = self;
        this.validate_unique_fields = validate_unique_fields;
        this
    }

    /// Adds `field_names` to the dictionary in order, so that their IDs follow that order.
    pub fn with_field_names(self, field_names: &[&str]) -> (r: VariantBuilder)
        requires
            self.wf(),
            self.metadata().names().len() + field_names@.len() < u32::MAX,
        ensures
            r.wf(),
            r.value() == self.value(),
            r.metadata().names() == upsert_all(
                self.metadata().names(),
                field_names@.map_values(|s: &str| s@),
            ),
            r.metadata().prefix() == self.metadata().prefix(),
            r.validate() == self.validate(),
    {
        let mut this = self;
        this.metadata_builder.extend(field_names);
        proof {
            lemma_upsert_all_len(self.metadata().names(), field_names@.map_values(|s: &str| s@));
        }
        this
    }

    /// Makes room for `capacity` more names.
    pub fn reserve(&mut self, capacity: usize)
        ensures
            final(self).value() == old(self).value(),
            final(self).metadata().names() == old(self).metadata().names(),
            final(self).metadata().sorted() == old(self).metadata().sorted(),
            final(self).metadata().prefix() == old(self).metadata().prefix(),
            final(self).validate() == old(self).validate(),
    {
        self.metadata_builder.reserve(capacity);
    }

    /// Adds one name to the dictionary, if it is new.
    pub fn add_field_name(&mut self, field_name: &str)
        requires
            old(self).wf(),
            old(self).metadata().names().len() + 1 < u32::MAX,
        ensures
            final(self).wf(),
            final(self).value() == old(self).value(),
            final(self).metadata().names() == upsert_names(old(self).metadata().names(), field_name@),
            final(self).metadata().prefix() == old(self).metadata().prefix(),
            final(self).validate() == old(self).validate(),
    {
        self.metadata_builder.upsert_field_name(field_name);
    }

    /// The dictionary.
    pub fn metadata_builder(&self) -> (r: &MetadataBuilder)
        ensures
            *r == self.metadata(),
    {
        &self.metadata_builder
    }

    /// A builder for a list that becomes the value once finished.
    pub fn new_list(&mut self) -> (r: ListBuilder<'_>)
        requires
            old(self).wf(),
        ensures
            r.wf(),
            r.parent() is Variant,
            (*r.parent().buffer_ref())@ == old(self).value(),
            r.parent().metadata() == old(self).metadata(),
            r.offsets() == Seq::<usize>::empty(),
            r.data() == Seq::<u8>::empty(),
            r.validate() == old(self).validate(),
            final(self).value() == (*final(r.parent().buffer_ref()))@,
            final(self).metadata() == *final(r.parent().metadata_ref()),
            final(self).validate() == old(self).validate(),
    {
        let parent_state = ParentState::Variant {
            buffer: &mut self.buffer,
            metadata_builder: &mut self.metadata_builder,
        };
        ListBuilder::new(parent_state, self.validate_unique_fields)
    }

    /// A builder for an object that becomes the value once finished.
    pub fn new_object(&mut self) -> (r: ObjectBuilder<'_>)
        requires
            old(self).wf(),
        ensures
            r.wf(),
            r.parent() is Variant,
            (*r.parent().buffer_ref())@ == old(self).value(),
            r.parent().metadata() == old(self).metadata(),
            r.entries() == Seq::<(u32, usize)>::empty(),
            r.data() == Seq::<u8>::empty(),
            r.duplicates() == Set::<u32>::empty(),
            r.validate() == old(self).validate(),
            final(self).value() == (*final(r.parent().buffer_ref()))@,
            final(self).metadata() == *final(r.parent().metadata_ref()),
            final(self).validate() == old(self).validate(),
    {
        let validate_unique_fields = self.validate_unique_fields;
        let parent_state = ParentState::Variant {
            buffer: &mut self.buffer,
            metadata_builder: &mut self.metadata_builder,
        };
        ObjectBuilder::new(parent_state, validate_unique_fields)
    }

    /// Appends `value`; an object's or list's contents are re-encoded against this dictionary.
    pub fn append_value(&mut self, value: Variant)
        requires
            old(self).wf(),
            value.wf(),
            fits(old(self).metadata().names(), names_in(value)),
        ensures
            final(self).wf(),
            dictionary_grows(old(self).metadata(), final(self).metadata(), names_in(value)),
            old(self).value().is_prefix_of(final(self).value()),
            encodes(
                value,
                old(self).metadata().names(),
                final(self).metadata().names(),
                final(self).value().subrange(old(self).value().len() as int, final(self).value().len() as int),
            ),
            value.is_primitive() ==> final(self).value() == old(self).value() + primitive_bytes(value)
                && final(self).metadata() == old(self).metadata(),
            final(self).validate() == old(self).validate(),
    {
        proof {
            lemma_names_in_finite(value);
            lemma_fits_room(old(self).metadata().names(), names_in(value));
        }
        self.buffer.append_variant(&value, &mut self.metadata_builder);
    }

    /// Same as `append_value`; there is no input on which it fails.
    pub fn try_append_value(&mut self, value: Variant) -> (r: Result<(), VariantError>)
        requires
            old(self).wf(),
            value.wf(),
            fits(old(self).metadata().names(), names_in(value)),
        ensures
            r is Ok,
            final(self).wf(),
            dictionary_grows(old(self).metadata(), final(self).metadata(), names_in(value)),
            old(self).value().is_prefix_of(final(self).value()),
            encodes(
                value,
                old(self).metadata().names(),
                final(self).metadata().names(),
                final(self).value().subrange(old(self).value().len() as int, final(self).value().len() as int),
            ),
            value.is_primitive() ==> final(self).value() == old(self).value() + primitive_bytes(value)
                && final(self).metadata() == old(self).metadata(),
            final(self).validate() == old(self).validate(),
    {
        self.append_value(value);
        Ok(())
    }

    /// The metadata blob and the value bytes.
    pub fn finish(self) -> (r: (Vec<u8>, Vec<u8>))
        requires
            self.wf(),
            total_name_bytes(self.metadata().names()) <= usize::MAX,
        ensures
            r.0@ == self.metadata().prefix() + metadata_blob(
                self.metadata().names(),
                self.metadata().sorted(),
            ),
            r.1@ == self.value(),
    {
        let VariantBuilder { buffer, metadata_builder, .. } = self;
        (metadata_builder.finish(), buffer.into_inner())
    }
}

proof fn lemma_upsert_all_len(names: Seq<Seq<char>>, new_names: Seq<Seq<char>>)
    ensures
        upsert_all(names, new_names).len() <= names.len() + new_names.len(),
    decreases new_names.len(),
{
    if new_names.len() > 0 {
        lemma_upsert_all_len(names, new_names.drop_last());
    }
}

/// One interface for appending to a `VariantBuilder` or a `ListBuilder`.
pub trait VariantBuilderExt {
    /// `value` can be appended: the builder is well formed and the dictionary
    /// has room for the names in `value`.
    spec fn can_append(&self, value: Variant) -> bool;

    /// A nested list or object can be started.
    spec fn can_nest(&self) -> bool;

    fn append_value(&mut self, value: Variant)
        requires
            old(self).can_append(value),
    ;

    fn new_list(&mut self) -> ListBuilder<'_>
        requires
            old(self).can_nest(),
    ;

    fn new_object(&mut self) -> ObjectBuilder<'_>
        requires
            old(self).can_nest(),
    ;
}

impl<'a> VariantBuilderExt for ListBuilder<'a> {
    open spec fn can_append(&self, value: Variant) -> bool {
        &&& self.wf()
        &&& value.wf()
        &&& fits(self.parent().metadata().names(), names_in(value))
    }

    open spec fn can_nest(&self) -> bool {
        self.wf()
    }

    fn append_value(&mut self, value: Variant) {
        ListBuilder::append_value(self, value);
    }

    fn new_list(&mut self) -> ListBuilder<'_> {
        ListBuilder::new_list(self)
    }

    fn new_object(&mut self) -> ObjectBuilder<'_> {
        ListBuilder::new_object(self)
    }
}

impl VariantBuilderExt for VariantBuilder {
    open spec fn can_append(&self, value: Variant) -> bool {
        &&& self.wf()
        &&& value.wf()
        &&& fits(self.metadata().names(), names_in(value))
    }

    open spec fn can_nest(&self) -> bool {
        self.wf()
    }

    fn append_value(&mut self, value: Variant) {
        VariantBuilder::append_value(self, value);
    }

    fn new_list(&mut self) -> ListBuilder<'_> {
        VariantBuilder::new_list(self)
    }

    fn new_object(&mut self) -> ObjectBuilder<'_> {
        VariantBuilder::new_object(self)
    }
}

} // verus!
